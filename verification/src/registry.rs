//! The consistency-checked catalog of live collectors.
//!
//! A registry files each collector under its *collector identity*, the
//! wrapping sum of the identity hashes of the descriptors it exposes.
//! Registration validates the whole descriptor set before touching any
//! state, so a failed registration leaves no trace; unregistration frees
//! the identity hashes but deliberately keeps every name's dimension hash,
//! so that a later registration under the same name with another shape
//! still fails.  [`Registry::gather`] renders the deterministic, sorted
//! snapshot that the exposition encoders consume.

use crate::counter::{counter_family_view, counter_vec_family_view, IntCounter, IntCounterVec};
use crate::desc::{Desc, DescView};
use crate::errors::Error;
use crate::gauge::{gauge_family_view, IntGauge};
use crate::lexical::{lemma_lex_le_antisym, lemma_lex_le_total, lex_le, str_eq, str_le};
use crate::proto::{LabelPair, LabelPairV, Metric, MetricFamily, MetricFamilyV, MetricType, MetricV};
use vstd::prelude::*;

verus! {

broadcast use vstd::seq_lib::group_to_multiset_ensures, vstd::multiset::group_multiset_axioms;

/// A source of metrics: one of the crate's own metric objects, or a custom
/// collector handing out pre-built descriptors and families.
#[derive(Debug)]
pub enum Collector {
    /// A single counter.
    Counter(IntCounter),
    /// A label-partitioned counter family.
    CounterVec(IntCounterVec),
    /// A single gauge.
    Gauge(IntGauge),
    /// A custom collector with fixed descriptors and families.
    Static(StaticCollector),
}

/// A custom collector: whatever descriptors and families its maker put in.
#[derive(Debug)]
pub struct StaticCollector {
    /// The descriptors the collector exposes.
    pub descs: Vec<Desc>,
    /// The families every collection returns.
    pub families: Vec<MetricFamily>,
}

impl Collector {
    /// The descriptors the collector exposes.
    pub open spec fn descs_view(&self) -> Seq<DescView> {
        match self {
            Collector::Counter(c) => seq![c.desc_view()],
            Collector::CounterVec(v) => seq![v.desc_view()],
            Collector::Gauge(g) => seq![g.desc_view()],
            Collector::Static(s) => s.descs.deep_view(),
        }
    }

    /// The families one collection returns.
    pub open spec fn families_view(&self) -> Seq<MetricFamilyV> {
        match self {
            Collector::Counter(c) => seq![counter_family_view(*c)],
            Collector::CounterVec(v) => seq![counter_vec_family_view(*v)],
            Collector::Gauge(g) => seq![gauge_family_view(*g)],
            Collector::Static(s) => s.families.deep_view(),
        }
    }

    /// The collector's own well-formedness.
    pub open spec fn wf(&self) -> bool {
        match self {
            Collector::Counter(c) => c.wf(),
            Collector::CounterVec(v) => v.wf(),
            Collector::Gauge(g) => g.wf(),
            Collector::Static(s) => true,
        }
    }

    /// Enumerate the collector's descriptors.
    pub fn desc(&self) -> (r: Vec<Desc>)
        ensures
            r.deep_view() == self.descs_view(),
    {
        match self {
            Collector::Counter(c) => c.desc(),
            Collector::CounterVec(v) => v.desc(),
            Collector::Gauge(g) => g.desc(),
            Collector::Static(s) => {
                let r = clone_descs(&s.descs);
                r
            },
        }
    }

    /// Produce the collector's current families.
    pub fn collect(&self) -> (r: Vec<MetricFamily>)
        requires
            self.wf(),
        ensures
            r.deep_view() == self.families_view(),
    {
        match self {
            Collector::Counter(c) => {
                let mut r = Vec::new();
                r.push(c.collect());
                proof {
                    assert(r.deep_view() =~= self.families_view());
                }
                r
            },
            Collector::CounterVec(v) => {
                let mut r = Vec::new();
                r.push(v.collect());
                proof {
                    assert(r.deep_view() =~= self.families_view());
                }
                r
            },
            Collector::Gauge(g) => {
                let mut r = Vec::new();
                r.push(g.collect());
                proof {
                    assert(r.deep_view() =~= self.families_view());
                }
                r
            },
            Collector::Static(s) => crate::proto::clone_families(&s.families),
        }
    }
}

/// Copy a descriptor list, keeping its content.
fn clone_descs(v: &Vec<Desc>) -> (r: Vec<Desc>)
    ensures
        r.deep_view() == v.deep_view(),
{
    let mut r: Vec<Desc> = Vec::new();
    let mut i: usize = 0;
    while i < v.len()
        invariant
            i <= v.len(),
            r.len() == i,
            forall|k: int| 0 <= k < i ==> r.deep_view()[k] == v.deep_view()[k],
        decreases v.len() - i,
    {
        r.push(v[i].clone());
        i = i + 1;
    }
    proof {
        assert(r.deep_view() =~= v.deep_view());
    }
    r
}

/// The dimension hash previously recorded for a name, the earliest record
/// winning.
pub open spec fn dim_lookup(dims: Seq<(Seq<char>, u64)>, name: Seq<char>) -> Option<u64>
    decreases dims.len(),
{
    if dims.len() == 0 {
        None
    } else if dims[0].0 == name {
        Some(dims[0].1)
    } else {
        dim_lookup(dims.drop_first(), name)
    }
}

/// Whether a descriptor clashes with the recorded shape of its name.
pub open spec fn dim_conflict(dims: Seq<(Seq<char>, u64)>, d: DescView) -> bool {
    match dim_lookup(dims, d.fq_name) {
        Some(h) => h != d.dim_hash,
        None => false,
    }
}

/// Validate a descriptor set against the registry's state, first failure
/// first: an identity hash already in use, then a name recorded with
/// another shape, then an identity hash repeated within the set itself.
pub open spec fn validate_descs(
    descs: Seq<DescView>,
    ids_in_use: Seq<u64>,
    dims: Seq<(Seq<char>, u64)>,
    seen: Seq<u64>,
) -> Option<Error>
    decreases descs.len(),
{
    if descs.len() == 0 {
        None
    } else {
        let d = descs[0];
        if ids_in_use.contains(d.id) {
            Some(Error::AlreadyRegistered)
        } else if dim_conflict(dims, d) {
            Some(Error::DescriptorConflict)
        } else if seen.contains(d.id) {
            Some(Error::DuplicateDescriptor)
        } else {
            validate_descs(descs.drop_first(), ids_in_use, dims, seen.push(d.id))
        }
    }
}

/// The identity hashes of a descriptor set, in order.
pub open spec fn ids_of(descs: Seq<DescView>) -> Seq<u64> {
    Seq::new(descs.len(), |i: int| descs[i].id)
}

/// The wrapping sum of a run of identity hashes.
pub open spec fn wrap_sum(ids: Seq<u64>) -> u64
    decreases ids.len(),
{
    if ids.len() == 0 {
        0
    } else {
        vstd::wrapping::u64_specs::wrapping_add(wrap_sum(ids.drop_last()), ids.last())
    }
}

/// The identity hashes of a descriptor set with repetitions dropped, first
/// occurrences kept in order.
pub open spec fn distinct_ids(descs: Seq<DescView>) -> Seq<u64>
    decreases descs.len(),
{
    if descs.len() == 0 {
        Seq::empty()
    } else {
        let prev = distinct_ids(descs.drop_last());
        if prev.contains(descs.last().id) {
            prev
        } else {
            prev.push(descs.last().id)
        }
    }
}

/// The identity a collector is filed under: the wrapping sum of its
/// distinct identity hashes.
pub open spec fn collector_identity(descs: Seq<DescView>) -> u64 {
    wrap_sum(distinct_ids(descs))
}

/// The dimension records after absorbing a descriptor set: each name not
/// yet recorded is recorded with its dimension hash, in descriptor order.
pub open spec fn add_dims(dims: Seq<(Seq<char>, u64)>, descs: Seq<DescView>) -> Seq<
    (Seq<char>, u64),
>
    decreases descs.len(),
{
    if descs.len() == 0 {
        dims
    } else {
        let d = descs[0];
        let next = if dim_lookup(dims, d.fq_name) is Some {
            dims
        } else {
            dims.push((d.fq_name, d.dim_hash))
        };
        add_dims(next, descs.drop_first())
    }
}

/// The consistency-checked catalog of collectors.
#[derive(Debug)]
pub struct Registry {
    collectors: Vec<(u64, Collector)>,
    dim_hashes: Vec<(String, u64)>,
    desc_ids: Vec<u64>,
    labels: Vec<(String, String)>,
    prefix: Option<String>,
}

impl Default for Registry {
    /// The default registry: no prefix, no common labels, nothing filed.
    fn default() -> (r: Registry)
        ensures
            r.wf(),
            r.entries().len() == 0,
            r.dims().len() == 0,
            r.id_set().len() == 0,
            r.common_labels().len() == 0,
            r.prefix_view() is None,
    {
        Registry::new()
    }
}

impl Registry {
    /// The filed collectors, in registration order.
    pub closed spec fn entries(&self) -> Seq<(u64, Collector)> {
        self.collectors@
    }

    /// The filed collector identities, in registration order.
    pub open spec fn ids(&self) -> Seq<u64> {
        Seq::new(self.entries().len(), |i: int| self.entries()[i].0)
    }

    /// Whether a collector identity is filed.
    pub open spec fn has_collector(&self, id: u64) -> bool {
        self.ids().contains(id)
    }

    /// The recorded name/dimension-hash pairs, oldest first.
    pub closed spec fn dims(&self) -> Seq<(Seq<char>, u64)> {
        self.dim_hashes.deep_view()
    }

    /// The identity hashes currently in use.
    pub closed spec fn id_set(&self) -> Seq<u64> {
        self.desc_ids@
    }

    /// The configured common labels, in configuration order.
    pub closed spec fn common_labels(&self) -> Seq<LabelPairV> {
        Seq::new(
            self.labels@.len(),
            |i: int| LabelPairV { name: self.labels@[i].0@, value: self.labels@[i].1@ },
        )
    }

    /// The configured name prefix.
    pub closed spec fn prefix_view(&self) -> Option<Seq<char>> {
        match self.prefix {
            Some(p) => Some(p@),
            None => None,
        }
    }

    /// Collector identities are unique, recorded names are unique, and
    /// every filed collector is well formed and filed under its identity.
    pub open spec fn wf(&self) -> bool {
        &&& forall|i: int, j: int| 0 <= i < j < self.entries().len() ==> self.ids()[i]
            != self.ids()[j]
        &&& forall|i: int, j: int| 0 <= i < j < self.dims().len() ==> self.dims()[i].0
            != self.dims()[j].0
        &&& forall|i: int| 0 <= i < self.entries().len() ==> {
            &&& (#[trigger] self.entries()[i].1).wf()
            &&& self.entries()[i].0 == collector_identity(self.entries()[i].1.descs_view())
        }
    }

    /// Create a registry with no prefix and no common labels.
    pub fn new() -> (r: Registry)
        ensures
            r.wf(),
            r.entries().len() == 0,
            r.dims().len() == 0,
            r.id_set().len() == 0,
            r.common_labels().len() == 0,
            r.prefix_view() is None,
    {
        let r = Registry {
            collectors: Vec::new(),
            dim_hashes: Vec::new(),
            desc_ids: Vec::new(),
            labels: Vec::new(),
            prefix: None,
        };
        proof {
            assert(r.dims() =~= Seq::<(Seq<char>, u64)>::empty());
        }
        r
    }

    /// Create a registry with an optional name prefix and optional common
    /// labels; an empty prefix is rejected.
    pub fn new_custom(prefix: Option<String>, labels: Vec<(String, String)>) -> (r: Result<
        Registry,
        Error,
    >)
        ensures
            (prefix matches Some(p) && p@.len() == 0) <==> r == Result::<Registry, Error>::Err(
                Error::EmptyPrefix,
            ),
            r is Err ==> r == Result::<Registry, Error>::Err(Error::EmptyPrefix),
            r matches Ok(reg) ==> {
                &&& reg.wf()
                &&& reg.entries().len() == 0
                &&& reg.dims().len() == 0
                &&& reg.id_set().len() == 0
                &&& reg.common_labels() == Seq::new(
                    labels.deep_view().len(),
                    |i: int| LabelPairV {
                        name: labels.deep_view()[i].0,
                        value: labels.deep_view()[i].1,
                    },
                )
                &&& reg.prefix_view() == match prefix {
                    Some(p) => Some::<Seq<char>>(p@),
                    None => None::<Seq<char>>,
                }
            },
    {
        match &prefix {
            Some(p) => {
                if p.as_str().unicode_len() == 0 {
                    return Err(Error::EmptyPrefix);
                }
            },
            None => {},
        }
        let r = Registry {
            collectors: Vec::new(),
            dim_hashes: Vec::new(),
            desc_ids: Vec::new(),
            labels,
            prefix,
        };
        proof {
            assert(r.dims() =~= Seq::<(Seq<char>, u64)>::empty());
            assert(r.common_labels() =~= Seq::new(
                r.labels.deep_view().len(),
                |i: int| LabelPairV {
                    name: r.labels.deep_view()[i].0,
                    value: r.labels.deep_view()[i].1,
                },
            ));
        }
        Ok(r)
    }

    /// Whether any of the collector's descriptor identities is already in
    /// use here.
    pub fn contains(&self, c: &Collector) -> (r: bool)
        ensures
            r == exists|i: int| 0 <= i < c.descs_view().len() && self.id_set().contains(
                #[trigger] c.descs_view()[i].id,
            ),
    {
        let descs = c.desc();
        let mut i: usize = 0;
        while i < descs.len()
            invariant
                i <= descs.len(),
                descs.deep_view() == c.descs_view(),
                forall|k: int| 0 <= k < i ==> !self.id_set().contains(
                    #[trigger] c.descs_view()[k].id,
                ),
            decreases descs.len() - i,
        {
            if self.ids_contain(descs[i].id) {
                proof {
                    assert(descs.deep_view()[i as int] == c.descs_view()[i as int]);
                    assert(self.id_set().contains(c.descs_view()[i as int].id));
                }
                return true;
            }
            i = i + 1;
        }
        false
    }

    /// Whether an identity hash is in the used set.
    fn ids_contain(&self, id: u64) -> (r: bool)
        ensures
            r == self.id_set().contains(id),
    {
        let mut i: usize = 0;
        while i < self.desc_ids.len()
            invariant
                i <= self.desc_ids.len(),
                forall|k: int| 0 <= k < i ==> self.id_set()[k] != id,
            decreases self.desc_ids.len() - i,
        {
            if self.desc_ids[i] == id {
                return true;
            }
            i = i + 1;
        }
        proof {
            if self.id_set().contains(id) {
                let k = choose|k: int| 0 <= k < self.id_set().len() && self.id_set()[k] == id;
                assert(self.id_set()[k] != id);
            }
        }
        false
    }

    /// The recorded dimension hash of a name, if any.
    fn dim_of(&self, name: &str) -> (r: Option<u64>)
        ensures
            r == dim_lookup(self.dims(), name@),
    {
        let mut i: usize = 0;
        proof {
            assert(self.dims().skip(0) =~= self.dims());
        }
        while i < self.dim_hashes.len()
            invariant
                i <= self.dim_hashes.len(),
                dim_lookup(self.dims(), name@) == dim_lookup(self.dims().skip(i as int), name@),
            decreases self.dim_hashes.len() - i,
        {
            proof {
                assert(self.dims().skip(i as int).drop_first() =~= self.dims().skip(i as int + 1));
            }
            if str_eq(self.dim_hashes[i].0.as_str(), name) {
                return Some(self.dim_hashes[i].1);
            }
            i = i + 1;
        }
        proof {
            assert(self.dims().skip(self.dim_hashes.len() as int) =~= Seq::<
                (Seq<char>, u64),
            >::empty());
        }
        None
    }

    /// The position a collector identity is filed at.
    fn find_collector(&self, id: u64) -> (r: Option<usize>)
        ensures
            r matches Some(j) ==> j < self.entries().len() && self.ids()[j as int] == id,
            r is None ==> forall|k: int| 0 <= k < self.entries().len() ==> self.ids()[k] != id,
    {
        let mut i: usize = 0;
        while i < self.collectors.len()
            invariant
                i <= self.collectors.len(),
                forall|k: int| 0 <= k < i ==> self.ids()[k] != id,
            decreases self.collectors.len() - i,
        {
            if self.collectors[i].0 == id {
                proof {
                    assert(self.ids()[i as int] == id);
                }
                return Some(i);
            }
            i = i + 1;
        }
        None
    }

    /// Whether a collector identity is filed.
    fn collectors_contain(&self, id: u64) -> (r: bool)
        ensures
            r == self.has_collector(id),
    {
        let mut i: usize = 0;
        while i < self.collectors.len()
            invariant
                i <= self.collectors.len(),
                forall|k: int| 0 <= k < i ==> self.ids()[k] != id,
            decreases self.collectors.len() - i,
        {
            if self.collectors[i].0 == id {
                proof {
                    assert(self.ids()[i as int] == id);
                }
                return true;
            }
            i = i + 1;
        }
        proof {
            if self.has_collector(id) {
                let k = choose|k: int| 0 <= k < self.ids().len() && self.ids()[k] == id;
                assert(self.ids()[k] != id);
            }
        }
        false
    }

    /// Register a collector: validate its whole descriptor set against the
    /// registry, and only then commit it.  A failure leaves the registry
    /// untouched.  Because validation reads only the state before the call,
    /// a collector exposing two descriptors that share a name but differ in
    /// shape registers once (recording the first shape), though after an
    /// unregister the recorded shape then blocks it.
    pub fn register(&mut self, c: Collector) -> (r: Result<(), Error>)
        requires
            old(self).wf(),
            c.wf(),
        ensures
            final(self).wf(),
            final(self).common_labels() == old(self).common_labels(),
            final(self).prefix_view() == old(self).prefix_view(),
            ({
                let v = validate_descs(
                    c.descs_view(),
                    old(self).id_set(),
                    old(self).dims(),
                    Seq::empty(),
                );
                let cid = collector_identity(c.descs_view());
                match v {
                    Some(e) => r == Result::<(), Error>::Err(e) && *final(self) == *old(self),
                    None => {
                        if old(self).has_collector(cid) {
                            r == Result::<(), Error>::Err(Error::AlreadyRegistered) && *final(self)
                                == *old(self)
                        } else {
                            &&& r is Ok
                            &&& final(self).entries() == old(self).entries().push((cid, c))
                            &&& final(self).id_set() == old(self).id_set() + ids_of(c.descs_view())
                            &&& final(self).dims() == add_dims(old(self).dims(), c.descs_view())
                        }
                    },
                }
            }),
    {
        let descs = c.desc();
        let ghost dv = c.descs_view();
        // Validation pass: no state is touched here.
        let mut seen: Vec<u64> = Vec::new();
        let mut collector_id: u64 = 0;
        let mut i: usize = 0;
        proof {
            assert(dv.skip(0) =~= dv);
            assert(distinct_ids(dv.subrange(0, 0)) =~= Seq::<u64>::empty());
        }
        while i < descs.len()
            invariant
                i <= descs.len(),
                descs.deep_view() == dv,
                dv == c.descs_view(),
                old(self).wf(),
                *self == *old(self),
                validate_descs(dv, self.id_set(), self.dims(), Seq::empty()) == validate_descs(
                    dv.skip(i as int),
                    self.id_set(),
                    self.dims(),
                    seen@,
                ),
                seen@ == distinct_ids(dv.subrange(0, i as int)),
                seen@ == ids_of(dv.subrange(0, i as int)),
                collector_id == wrap_sum(seen@),
            decreases descs.len() - i,
        {
            let d = &descs[i];
            proof {
                assert(dv.skip(i as int)[0] == dv[i as int]);
                assert(d@ == dv[i as int]);
            }
            if self.ids_contain(d.id) {
                proof {
                    assert(validate_descs(dv.skip(i as int), self.id_set(), self.dims(), seen@)
                        == Some(Error::AlreadyRegistered));
                }
                return Err(Error::AlreadyRegistered);
            }
            match self.dim_of(d.fq_name.as_str()) {
                Some(h) => {
                    if h != d.dim_hash {
                        proof {
                            assert(dim_conflict(self.dims(), dv[i as int]));
                            assert(validate_descs(
                                dv.skip(i as int),
                                self.id_set(),
                                self.dims(),
                                seen@,
                            ) == Some(Error::DescriptorConflict));
                        }
                        return Err(Error::DescriptorConflict);
                    }
                },
                None => {},
            }
            if vec_contains(&seen, d.id) {
                proof {
                    assert(!dim_conflict(self.dims(), dv[i as int]));
                    assert(validate_descs(dv.skip(i as int), self.id_set(), self.dims(), seen@)
                        == Some(Error::DuplicateDescriptor));
                }
                return Err(Error::DuplicateDescriptor);
            }
            proof {
                assert(!dim_conflict(self.dims(), dv[i as int]));
            }
            let ghost pre_seen = seen@;
            seen.push(d.id);
            collector_id = collector_id.wrapping_add(d.id);
            proof {
                assert(dv.skip(i as int).drop_first() =~= dv.skip(i as int + 1));
                assert(dv.subrange(0, i as int + 1).drop_last() =~= dv.subrange(0, i as int));
                assert(dv.subrange(0, i as int + 1).last() == dv[i as int]);
                assert(seen@ =~= pre_seen.push(dv[i as int].id));
                assert(ids_of(dv.subrange(0, i as int + 1)) =~= ids_of(
                    dv.subrange(0, i as int),
                ).push(dv[i as int].id));
                assert(seen@.drop_last() =~= pre_seen);
            }
            i = i + 1;
        }
        proof {
            assert(dv.skip(descs.len() as int) =~= Seq::<DescView>::empty());
            assert(dv.subrange(0, descs.len() as int) =~= dv);
            assert(collector_id == collector_identity(dv));
        }
        if self.collectors_contain(collector_id) {
            return Err(Error::AlreadyRegistered);
        }
        // Commit.
        let ghost pre = *self;
        let mut i: usize = 0;
        proof {
            assert(add_dims(pre.dims(), dv.skip(0)) == add_dims(pre.dims(), dv));
        }
        while i < descs.len()
            invariant
                i <= descs.len(),
                descs.deep_view() == dv,
                dv == c.descs_view(),
                self.entries() == pre.entries(),
                self.id_set() == pre.id_set(),
                self.common_labels() == pre.common_labels(),
                self.prefix_view() == pre.prefix_view(),
                forall|a: int, b: int| 0 <= a < b < self.dims().len() ==> self.dims()[a].0
                    != self.dims()[b].0,
                add_dims(pre.dims(), dv) == add_dims(self.dims(), dv.skip(i as int)),
            decreases descs.len() - i,
        {
            let d = &descs[i];
            proof {
                assert(dv.skip(i as int)[0] == dv[i as int]);
                assert(d@ == dv[i as int]);
                assert(dv.skip(i as int).drop_first() =~= dv.skip(i as int + 1));
            }
            let present = self.dim_of(d.fq_name.as_str());
            match present {
                Some(_) => {},
                None => {
                    let ghost pre_dims = self.dims();
                    self.dim_hashes.push((d.fq_name.clone(), d.dim_hash));
                    proof {
                        assert(self.dims() =~= pre_dims.push((dv[i as int].fq_name, dv[
                            i as int].dim_hash)));
                        assert forall|a: int, b: int|
                            0 <= a < b < self.dims().len() implies self.dims()[a].0
                            != self.dims()[b].0 by {
                            if b == self.dims().len() - 1 {
                                lemma_dim_lookup_absent(pre_dims, dv[i as int].fq_name, a);
                            }
                        }
                    }
                },
            }
            i = i + 1;
        }
        proof {
            assert(dv.skip(descs.len() as int) =~= Seq::<DescView>::empty());
        }
        let mut i: usize = 0;
        let ghost mid_dims = self.dims();
        while i < descs.len()
            invariant
                i <= descs.len(),
                descs.deep_view() == dv,
                dv == c.descs_view(),
                self.entries() == pre.entries(),
                self.dims() == mid_dims,
                self.common_labels() == pre.common_labels(),
                self.prefix_view() == pre.prefix_view(),
                self.id_set() =~= pre.id_set() + ids_of(dv).subrange(0, i as int),
            decreases descs.len() - i,
        {
            let d = &descs[i];
            let ghost pre_ids = self.id_set();
            self.desc_ids.push(d.id);
            proof {
                assert(d@ == dv[i as int]);
                assert(self.id_set() =~= pre_ids.push(dv[i as int].id));
                assert(self.id_set() =~= pre.id_set() + ids_of(dv).subrange(0, i as int + 1));
            }
            i = i + 1;
        }
        let ghost pre_entries = self.entries();
        self.collectors.push((collector_id, c));
        proof {
            assert(self.entries() =~= pre_entries.push((collector_id, c)));
            assert(ids_of(dv).subrange(0, descs.len() as int) =~= ids_of(dv));
            // The new registry is well formed: the fresh identity is not
            // yet filed, and everything else is untouched.
            assert forall|a: int, b: int| 0 <= a < b < self.entries().len() implies self.ids()[a]
                != self.ids()[b] by {
                if b == self.entries().len() - 1 {
                    assert(self.ids()[a] == pre.ids()[a]);
                    if pre.ids()[a] == collector_id {
                        assert(pre.has_collector(collector_id));
                    }
                } else {
                    assert(self.ids()[a] == pre.ids()[a]);
                    assert(self.ids()[b] == pre.ids()[b]);
                }
            }
            assert forall|k: int| 0 <= k < self.entries().len() implies {
                &&& (#[trigger] self.entries()[k].1).wf()
                &&& self.entries()[k].0 == collector_identity(self.entries()[k].1.descs_view())
            } by {
                if k < self.entries().len() - 1 {
                    assert(pre.entries()[k].1.wf());
                    assert(pre.entries()[k].0 == collector_identity(
                        pre.entries()[k].1.descs_view(),
                    ));
                }
            }
        }
        Ok(())
    }

    /// Unregister the collector that equals the given one, that is the one
    /// filed under the same collector identity.  The identity hashes leave
    /// the used set; the recorded dimension hashes deliberately stay.
    pub fn unregister(&mut self, c: &Collector) -> (r: Result<(), Error>)
        requires
            old(self).wf(),
        ensures
            final(self).wf(),
            final(self).dims() == old(self).dims(),
            final(self).common_labels() == old(self).common_labels(),
            final(self).prefix_view() == old(self).prefix_view(),
            ({
                let cid = collector_identity(c.descs_view());
                if old(self).has_collector(cid) {
                    &&& r is Ok
                    &&& !final(self).has_collector(cid)
                    &&& forall|id: u64| id != cid ==> final(self).has_collector(id) == old(
                        self,
                    ).has_collector(id)
                    &&& final(self).id_set() == old(self).id_set().filter(
                        |x: u64| !distinct_ids(c.descs_view()).contains(x),
                    )
                } else {
                    r == Result::<(), Error>::Err(Error::NotRegistered) && *final(self) == *old(
                        self,
                    )
                }
            }),
    {
        let descs = c.desc();
        let ghost dv = c.descs_view();
        // Recompute the collector identity from the distinct hashes.
        let mut id_set: Vec<u64> = Vec::new();
        let mut collector_id: u64 = 0;
        let mut i: usize = 0;
        proof {
            assert(distinct_ids(dv.subrange(0, 0)) =~= Seq::<u64>::empty());
        }
        while i < descs.len()
            invariant
                i <= descs.len(),
                descs.deep_view() == dv,
                dv == c.descs_view(),
                id_set@ == distinct_ids(dv.subrange(0, i as int)),
                collector_id == wrap_sum(id_set@),
            decreases descs.len() - i,
        {
            let d = &descs[i];
            proof {
                assert(d@ == dv[i as int]);
                assert(dv.subrange(0, i as int + 1).drop_last() =~= dv.subrange(0, i as int));
                assert(dv.subrange(0, i as int + 1).last() == dv[i as int]);
            }
            if !vec_contains(&id_set, d.id) {
                let ghost pre_seen = id_set@;
                id_set.push(d.id);
                collector_id = collector_id.wrapping_add(d.id);
                proof {
                    assert(id_set@.drop_last() =~= pre_seen);
                }
            }
            i = i + 1;
        }
        proof {
            assert(dv.subrange(0, descs.len() as int) =~= dv);
        }
        // Remove the collector, then free its identity hashes.
        let found = self.find_collector(collector_id);
        let at = match found {
            Some(j) => j,
            None => {
                proof {
                    if old(self).has_collector(collector_id) {
                        let k = choose|k: int|
                            0 <= k < old(self).ids().len() && old(self).ids()[k] == collector_id;
                        assert(old(self).ids()[k] != collector_id);
                    }
                }
                return Err(Error::NotRegistered);
            },
        };
        let ghost pre = *old(self);
        let _ = self.collectors.remove(at);
        let ghost kill = distinct_ids(dv);
        // Keep only the identity hashes that do not belong to the removed
        // collector.
        let mut keep: Vec<u64> = Vec::new();
        let mut i: usize = 0;
        proof {
            reveal(Seq::filter);
            assert(pre.id_set().subrange(0, 0).filter(|x: u64| !kill.contains(x)) =~= Seq::<
                u64,
            >::empty());
        }
        while i < self.desc_ids.len()
            invariant
                i <= self.desc_ids.len(),
                self.id_set() == pre.id_set(),
                id_set@ == kill,
                keep@ == pre.id_set().subrange(0, i as int).filter(|x: u64| !kill.contains(x)),
                pre == *old(self),
                pre.wf(),
                at < pre.entries().len(),
                pre.ids()[at as int] == collector_id,
                collector_id == collector_identity(dv),
                dv == c.descs_view(),
                kill == distinct_ids(dv),
                self.entries() == pre.entries().remove(at as int),
                self.dims() == pre.dims(),
                self.common_labels() == pre.common_labels(),
                self.prefix_view() == pre.prefix_view(),
            decreases self.desc_ids.len() - i,
        {
            let id = self.desc_ids[i];
            let ghost prefix = pre.id_set().subrange(0, i as int);
            proof {
                reveal(Seq::filter);
                assert(pre.id_set().subrange(0, i as int + 1).drop_last() =~= prefix);
                assert(pre.id_set().subrange(0, i as int + 1).last() == pre.id_set()[i as int]);
            }
            if !vec_contains(&id_set, id) {
                keep.push(id);
            }
            proof {
                reveal(Seq::filter);
                assert(pre.id_set().subrange(0, i as int + 1).filter(
                    |x: u64| !kill.contains(x),
                ) =~= if !kill.contains(pre.id_set()[i as int]) {
                    prefix.filter(|x: u64| !kill.contains(x)).push(pre.id_set()[i as int])
                } else {
                    prefix.filter(|x: u64| !kill.contains(x))
                });
            }
            i = i + 1;
        }
        self.desc_ids = keep;
        proof {
            assert(pre.id_set().subrange(0, pre.id_set().len() as int) =~= pre.id_set());
            // Well-formedness and the per-identity bookkeeping survive the
            // removal.
            assert(self.entries() =~= pre.entries().remove(at as int));
            assert forall|a: int, b: int| 0 <= a < b < self.entries().len() implies self.ids()[a]
                != self.ids()[b] by {
                let pa = if a < at { a } else { a + 1 };
                let pb = if b < at { b } else { b + 1 };
                assert(self.ids()[a] == pre.ids()[pa]);
                assert(self.ids()[b] == pre.ids()[pb]);
            }
            assert forall|k: int| 0 <= k < self.entries().len() implies {
                &&& (#[trigger] self.entries()[k].1).wf()
                &&& self.entries()[k].0 == collector_identity(self.entries()[k].1.descs_view())
            } by {
                let pk = if k < at { k } else { k + 1 };
                assert(pre.entries()[pk].1.wf());
                assert(pre.entries()[pk].0 == collector_identity(
                    pre.entries()[pk].1.descs_view(),
                ));
            }
            assert(!self.has_collector(collector_identity(dv))) by {
                if self.has_collector(collector_identity(dv)) {
                    let k = choose|k: int|
                        0 <= k < self.ids().len() && self.ids()[k] == collector_identity(dv);
                    let pk = if k < at { k } else { k + 1 };
                    assert(pre.ids()[pk] == collector_identity(dv));
                    assert(pre.ids()[at as int] == collector_identity(dv));
                }
            }
            assert forall|id: u64| id != collector_identity(dv) implies self.has_collector(id)
                == pre.has_collector(id) by {
                if pre.has_collector(id) {
                    let k = choose|k: int| 0 <= k < pre.ids().len() && pre.ids()[k] == id;
                    assert(k != at);
                    let nk = if k < at { k } else { k - 1 };
                    assert(self.ids()[nk] == id);
                }
                if self.has_collector(id) {
                    let k = choose|k: int| 0 <= k < self.ids().len() && self.ids()[k] == id;
                    let pk = if k < at { k } else { k + 1 };
                    assert(pre.ids()[pk] == id);
                }
            }
        }
        Ok(())
    }
}

/// Whether a vector holds a value.
fn vec_contains(v: &Vec<u64>, x: u64) -> (r: bool)
    ensures
        r == v@.contains(x),
{
    let mut i: usize = 0;
    while i < v.len()
        invariant
            i <= v.len(),
            forall|k: int| 0 <= k < i ==> v@[k] != x,
        decreases v.len() - i,
    {
        if v[i] == x {
            return true;
        }
        i = i + 1;
    }
    proof {
        if v@.contains(x) {
            let k = choose|k: int| 0 <= k < v@.len() && v@[k] == x;
            assert(v@[k] != x);
        }
    }
    false
}

/// A name recorded nowhere keeps every earlier record's name distinct from
/// it.
proof fn lemma_dim_lookup_absent(dims: Seq<(Seq<char>, u64)>, name: Seq<char>, a: int)
    requires
        dim_lookup(dims, name) is None,
        0 <= a < dims.len(),
    ensures
        dims[a].0 != name,
    decreases a,
{
    if a > 0 {
        lemma_dim_lookup_absent(dims.drop_first(), name, a - 1);
    }
}



/// The label values of a sample, in label order.
pub open spec fn mvals(m: MetricV) -> Seq<Seq<char>> {
    Seq::new(m.labels.len(), |i: int| m.labels[i].value)
}

/// Timestamp order for sorting: ascending, with an absent (zero) timestamp
/// sorting last.
pub open spec fn ts_le(a: i64, b: i64) -> bool {
    if a == b {
        true
    } else if a == 0 {
        false
    } else if b == 0 {
        true
    } else {
        a <= b
    }
}

/// Lexicographic order on equal-position label values.
pub open spec fn vals_lex_le(a: Seq<Seq<char>>, b: Seq<Seq<char>>) -> bool
    decreases a.len(),
{
    if a.len() == 0 {
        true
    } else if b.len() == 0 {
        false
    } else if a[0] == b[0] {
        vals_lex_le(a.drop_first(), b.drop_first())
    } else {
        lex_le(a[0], b[0])
    }
}

/// Any two value lists are comparable.
proof fn lemma_vals_lex_le_total(a: Seq<Seq<char>>, b: Seq<Seq<char>>)
    ensures
        vals_lex_le(a, b) || vals_lex_le(b, a),
    decreases a.len(),
{
    if a.len() > 0 && b.len() > 0 {
        if a[0] == b[0] {
            lemma_vals_lex_le_total(a.drop_first(), b.drop_first());
        } else {
            lemma_lex_le_total(a[0], b[0]);
            if lex_le(a[0], b[0]) && lex_le(b[0], a[0]) {
                lemma_lex_le_antisym(a[0], b[0]);
            }
        }
    }
}

/// Value lists that come no later than each other are equal.
proof fn lemma_vals_lex_le_antisym(a: Seq<Seq<char>>, b: Seq<Seq<char>>)
    requires
        vals_lex_le(a, b),
        vals_lex_le(b, a),
    ensures
        a == b,
    decreases a.len(),
{
    if a.len() == 0 {
        assert(a =~= b);
    } else if a[0] == b[0] {
        lemma_vals_lex_le_antisym(a.drop_first(), b.drop_first());
        assert(a =~= seq![a[0]] + a.drop_first());
        assert(b =~= seq![b[0]] + b.drop_first());
    } else {
        lemma_lex_le_antisym(a[0], b[0]);
    }
}

/// The order on value lists is transitive.
proof fn lemma_vals_lex_le_trans(a: Seq<Seq<char>>, b: Seq<Seq<char>>, c: Seq<Seq<char>>)
    requires
        vals_lex_le(a, b),
        vals_lex_le(b, c),
    ensures
        vals_lex_le(a, c),
    decreases a.len(),
{
    if a.len() > 0 && b.len() > 0 && c.len() > 0 {
        if a[0] == b[0] && b[0] == c[0] {
            lemma_vals_lex_le_trans(a.drop_first(), b.drop_first(), c.drop_first());
        } else if a[0] == b[0] {
        } else if b[0] == c[0] {
        } else {
            crate::lexical::lemma_lex_le_trans(a[0], b[0], c[0]);
            if a[0] == c[0] {
                lemma_lex_le_antisym(a[0], b[0]);
            }
        }
    }
}

/// The sample order of the snapshot: by label count, then by label values
/// in position order, then by timestamp with absent timestamps last.
pub open spec fn metric_le(a: MetricV, b: MetricV) -> bool {
    if a.labels.len() != b.labels.len() {
        a.labels.len() < b.labels.len()
    } else if mvals(a) == mvals(b) {
        ts_le(a.timestamp_ms, b.timestamp_ms)
    } else {
        vals_lex_le(mvals(a), mvals(b))
    }
}

/// Any two samples are comparable.
proof fn lemma_metric_le_total(a: MetricV, b: MetricV)
    ensures
        metric_le(a, b) || metric_le(b, a),
{
    if a.labels.len() == b.labels.len() && mvals(a) != mvals(b) {
        lemma_vals_lex_le_total(mvals(a), mvals(b));
    }
}

/// The sample order is transitive.
proof fn lemma_metric_le_trans(a: MetricV, b: MetricV, c: MetricV)
    requires
        metric_le(a, b),
        metric_le(b, c),
    ensures
        metric_le(a, c),
{
    if a.labels.len() == b.labels.len() && b.labels.len() == c.labels.len() {
        let va = mvals(a);
        let vb = mvals(b);
        let vc = mvals(c);
        if va != vb && vb != vc {
            lemma_vals_lex_le_trans(va, vb, vc);
            if va == vc {
                lemma_vals_lex_le_antisym(va, vb);
            }
        }
    }
}

/// The first position at which two equal-length value lists differ decides
/// their order.
proof fn lemma_vals_lex_common_prefix(a: Seq<Seq<char>>, b: Seq<Seq<char>>, i: int)
    requires
        a.len() == b.len(),
        0 <= i <= a.len(),
        forall|j: int| 0 <= j < i ==> a[j] == b[j],
    ensures
        i == a.len() ==> a == b,
        i < a.len() && a[i] != b[i] ==> (vals_lex_le(a, b) <==> lex_le(a[i], b[i])),
    decreases i,
{
    if i == 0 {
        if i == a.len() {
            assert(a =~= b);
        }
    } else {
        lemma_vals_lex_common_prefix(a.drop_first(), b.drop_first(), i - 1);
        if i == a.len() {
            assert(a =~= seq![a[0]] + a.drop_first());
            assert(b =~= seq![b[0]] + b.drop_first());
        }
    }
}

/// Compare two samples in the snapshot's sample order.
fn metric_le_exec(a: &Metric, b: &Metric) -> (r: bool)
    ensures
        r == metric_le(a.deep_view(), b.deep_view()),
{
    let la = a.labels.len();
    let lb = b.labels.len();
    if la != lb {
        return la < lb;
    }
    let mut i: usize = 0;
    while i < la
        invariant
            i <= la,
            la == a.labels.len(),
            lb == b.labels.len(),
            la == lb,
            forall|k: int| 0 <= k < i ==> mvals(a.deep_view())[k] == mvals(b.deep_view())[k],
        decreases la - i,
    {
        let va = &a.labels[i].value;
        let vb = &b.labels[i].value;
        if !str_eq(va.as_str(), vb.as_str()) {
            let r = str_le(va.as_str(), vb.as_str());
            proof {
                assert(mvals(a.deep_view())[i as int] == va@);
                assert(mvals(b.deep_view())[i as int] == vb@);
                lemma_vals_lex_common_prefix(mvals(a.deep_view()), mvals(b.deep_view()), i as int);
            }
            return r;
        }
        proof {
            assert(mvals(a.deep_view())[i as int] == va@);
            assert(mvals(b.deep_view())[i as int] == vb@);
        }
        i = i + 1;
    }
    proof {
        lemma_vals_lex_common_prefix(mvals(a.deep_view()), mvals(b.deep_view()), la as int);
        assert(mvals(a.deep_view()) == mvals(b.deep_view()));
    }
    let ta = a.timestamp_ms;
    let tb = b.timestamp_ms;
    if ta == tb {
        true
    } else if ta == 0 {
        false
    } else if tb == 0 {
        true
    } else {
        ta <= tb
    }
}

/// Every sample comes no later than each of its successors.
pub open spec fn sorted_metrics(s: Seq<MetricV>) -> bool {
    forall|i: int, j: int| 0 <= i < j < s.len() ==> metric_le(s[i], s[j])
}

/// Where a sample files into a sorted run: after every sample that comes no
/// later than it, so samples that compare as ties keep their arrival order.
pub open spec fn insert_sorted(m: MetricV, s: Seq<MetricV>) -> Seq<MetricV>
    decreases s.len(),
{
    if s.len() == 0 {
        seq![m]
    } else if metric_le(s[0], m) {
        seq![s[0]] + insert_sorted(m, s.drop_first())
    } else {
        seq![m] + s
    }
}

/// The stable sort of a run of samples: each filed in arrival order.  The
/// snapshot's sample order is this function of the merged run, so two
/// gathers over the same state agree on it exactly.
pub open spec fn sort_spec(s: Seq<MetricV>) -> Seq<MetricV>
    decreases s.len(),
{
    if s.len() == 0 {
        Seq::empty()
    } else {
        insert_sorted(s.last(), sort_spec(s.drop_last()))
    }
}

/// A sample that comes after a prefix and no later than the rest files at
/// exactly that boundary.
proof fn lemma_insert_at(m: MetricV, s: Seq<MetricV>, i: int)
    requires
        0 <= i <= s.len(),
        forall|k: int| 0 <= k < i ==> metric_le(#[trigger] s[k], m),
        i < s.len() ==> !metric_le(s[i], m),
    ensures
        insert_sorted(m, s) == s.subrange(0, i) + seq![m] + s.subrange(i, s.len() as int),
    decreases i,
{
    if s.len() == 0 {
        assert(insert_sorted(m, s) =~= s.subrange(0, 0) + seq![m] + s.subrange(0, 0));
    } else if i == 0 {
        assert(insert_sorted(m, s) =~= s.subrange(0, 0) + seq![m] + s.subrange(0, s.len() as int));
    } else {
        assert(metric_le(s[0], m));
        let rest = s.drop_first();
        assert forall|k: int| 0 <= k < i - 1 implies metric_le(#[trigger] rest[k], m) by {
            assert(rest[k] == s[k + 1]);
        }
        lemma_insert_at(m, rest, i - 1);
        assert(insert_sorted(m, s) =~= s.subrange(0, i) + seq![m] + s.subrange(
            i,
            s.len() as int,
        ));
    }
}

/// Sort a family's samples into the snapshot's sample order: the output is
/// exactly the stable sort of the input, so it is sorted and keeps the
/// collection of samples.
fn sort_metrics(metrics: Vec<Metric>) -> (r: Vec<Metric>)
    ensures
        r.deep_view() == sort_spec(metrics.deep_view()),
        sorted_metrics(r.deep_view()),
        r.deep_view().to_multiset() == metrics.deep_view().to_multiset(),
{
    let ghost orig = metrics.deep_view();
    let mut src = metrics;
    let mut out: Vec<Metric> = Vec::new();
    proof {
        assert(orig.take(0) =~= Seq::<MetricV>::empty());
        assert(out.deep_view() =~= sort_spec(orig.take(0)));
        assert(out.deep_view().to_multiset().add(src.deep_view().to_multiset())
            =~= orig.to_multiset());
    }
    while src.len() > 0
        invariant
            src.len() <= orig.len(),
            src.deep_view() == orig.skip((orig.len() - src.len()) as int),
            out.deep_view() == sort_spec(orig.take((orig.len() - src.len()) as int)),
            sorted_metrics(out.deep_view()),
            out.deep_view().to_multiset().add(src.deep_view().to_multiset())
                == orig.to_multiset(),
        decreases src.len(),
    {
        let ghost done = (orig.len() - src.len()) as int;
        let ghost pre_src = src.deep_view();
        let m = src.remove(0);
        let ghost mv = m.deep_view();
        proof {
            assert(src.deep_view() =~= pre_src.drop_first());
            assert(src.deep_view() =~= orig.skip(done + 1));
            assert(orig.skip(done)[0] == orig[done]);
            assert(mv == pre_src[0]);
            assert(mv == orig[done]);
        }
        let mut pos: usize = 0;
        while pos < out.len()
            invariant
                pos <= out.len(),
                mv == m.deep_view(),
                sorted_metrics(out.deep_view()),
                forall|k: int| 0 <= k < pos ==> metric_le(#[trigger] out.deep_view()[k], mv),
            ensures
                pos <= out.len(),
                forall|k: int| 0 <= k < pos ==> metric_le(#[trigger] out.deep_view()[k], mv),
                pos < out.len() ==> !metric_le(out.deep_view()[pos as int], mv),
            decreases out.len() - pos,
        {
            if !metric_le_exec(&out[pos], &m) {
                break;
            }
            pos = pos + 1;
        }
        let ghost pre_out = out.deep_view();
        out.insert(pos, m);
        proof {
            assert(out.deep_view() =~= pre_out.insert(pos as int, mv));
            lemma_insert_at(mv, pre_out, pos as int);
            assert(out.deep_view() =~= pre_out.subrange(0, pos as int) + seq![mv]
                + pre_out.subrange(pos as int, pre_out.len() as int));
            assert(out.deep_view() == insert_sorted(mv, pre_out));
            // The new run is still sorted: everything before the slot comes
            // no later than the sample, everything after it no earlier.
            if (pos as int) < pre_out.len() {
                lemma_metric_le_total(pre_out[pos as int], mv);
            }
            assert forall|i: int, j: int|
                0 <= i < j < out.deep_view().len() implies metric_le(
                out.deep_view()[i],
                out.deep_view()[j],
            ) by {
                let ov = out.deep_view();
                if i < pos && j == pos {
                    assert(ov[i] == pre_out[i]);
                } else if i == pos && j > pos {
                    assert(ov[j] == pre_out[j - 1]);
                    assert(metric_le(mv, pre_out[pos as int]));
                    if j - 1 > pos {
                        assert(metric_le(pre_out[pos as int], pre_out[j - 1]));
                        lemma_metric_le_trans(mv, pre_out[pos as int], pre_out[j - 1]);
                    }
                } else if i < pos && j > pos {
                    assert(ov[i] == pre_out[i]);
                    assert(ov[j] == pre_out[j - 1]);
                } else if i > pos && j > pos {
                    assert(ov[i] == pre_out[i - 1]);
                    assert(ov[j] == pre_out[j - 1]);
                }
            }
            // The arrival prefix grew by this sample.
            assert(orig.take(done + 1).drop_last() =~= orig.take(done));
            assert(orig.take(done + 1).last() == orig[done]);
            assert(out.deep_view() == sort_spec(orig.take(done + 1)));
            assert(pre_out.insert(pos as int, mv).to_multiset() =~= pre_out.to_multiset().insert(
                mv,
            ));
            assert(pre_src.remove(0) =~= pre_src.drop_first());
            assert(pre_src.remove(0).to_multiset() == pre_src.to_multiset().remove(mv));
            assert(pre_src.contains(mv)) by {
                assert(pre_src[0] == mv);
            }
            assert(pre_src.to_multiset().count(mv) > 0);
            assert(out.deep_view().to_multiset().add(src.deep_view().to_multiset())
                =~= pre_out.to_multiset().add(pre_src.to_multiset()));
        }
    }
    proof {
        assert(orig.take(orig.len() as int) =~= orig);
        assert(src.deep_view() =~= Seq::<MetricV>::empty());
        assert(src.deep_view().to_multiset() =~= vstd::multiset::Multiset::<MetricV>::empty());
    }
    out
}

/// The families every filed collector contributes, in registration order.
pub open spec fn all_families(entries: Seq<(u64, Collector)>) -> Seq<MetricFamilyV>
    decreases entries.len(),
{
    if entries.len() == 0 {
        Seq::empty()
    } else {
        all_families(entries.drop_last()) + entries.last().1.families_view()
    }
}

/// Every sample contributed under one name, in contribution order.
pub open spec fn samples_for(fams: Seq<MetricFamilyV>, name: Seq<char>) -> Seq<MetricV>
    decreases fams.len(),
{
    if fams.len() == 0 {
        Seq::empty()
    } else {
        samples_for(fams.drop_last(), name) + if fams.last().name == name {
            fams.last().metrics
        } else {
            Seq::empty()
        }
    }
}

/// Whether any sample was contributed under the name.
pub open spec fn name_present(fams: Seq<MetricFamilyV>, name: Seq<char>) -> bool {
    samples_for(fams, name).len() > 0
}

/// The help text and type tag of the first family under the name that
/// carries a sample.
pub open spec fn first_meta(fams: Seq<MetricFamilyV>, name: Seq<char>) -> (Seq<char>, MetricType)
    decreases fams.len(),
{
    if fams.len() == 0 {
        (Seq::empty(), MetricType::Counter)
    } else if name_present(fams.drop_last(), name) {
        first_meta(fams.drop_last(), name)
    } else {
        (fams.last().help, fams.last().field_type)
    }
}

/// A sample with the registry's common labels appended after its own.
pub open spec fn with_common(m: MetricV, common: Seq<LabelPairV>) -> MetricV {
    MetricV { labels: m.labels + common, payload: m.payload, timestamp_ms: m.timestamp_ms }
}

/// A family name under the registry's prefix.
pub open spec fn prefixed(p: Option<Seq<char>>, name: Seq<char>) -> Seq<char> {
    match p {
        Some(pp) => pp + seq!['_'] + name,
        None => name,
    }
}

/// The output family at one position renders the merged samples of one
/// contributed name: its samples are exactly the stable sort of that name's
/// contributions with the common labels appended, so the whole family is a
/// function of the contributed state.
pub open spec fn family_matches(
    f: MetricFamilyV,
    fams: Seq<MetricFamilyV>,
    p: Option<Seq<char>>,
    com: Seq<LabelPairV>,
    n: Seq<char>,
) -> bool {
    &&& name_present(fams, n)
    &&& f.name == prefixed(p, n)
    &&& f.help == first_meta(fams, n).0
    &&& f.field_type == first_meta(fams, n).1
    &&& f.metrics == sort_spec(samples_for(fams, n).map_values(|m: MetricV| with_common(m, com)))
    &&& f.metrics.to_multiset() == samples_for(fams, n).map_values(
        |m: MetricV| with_common(m, com),
    ).to_multiset()
}

/// The family renders the merged samples of some contributed name.
pub open spec fn family_matches_some(
    f: MetricFamilyV,
    fams: Seq<MetricFamilyV>,
    p: Option<Seq<char>>,
    com: Seq<LabelPairV>,
) -> bool {
    exists|n: Seq<char>| family_matches(f, fams, p, com, n)
}

/// What a gather returns: families in strictly ascending name order, none
/// empty, each family's samples sorted, each family rendering exactly the
/// merged samples of one contributed name under the configured prefix and
/// common labels, and a family for every name that contributed a sample.
pub open spec fn gather_ok(
    out: Seq<MetricFamilyV>,
    fams: Seq<MetricFamilyV>,
    p: Option<Seq<char>>,
    com: Seq<LabelPairV>,
) -> bool {
    &&& forall|i: int, j: int| #![trigger out[i], out[j]] 0 <= i < j < out.len() ==> lex_le(
        out[i].name,
        out[j].name,
    ) && out[i].name != out[j].name
    &&& forall|i: int| 0 <= i < out.len() ==> (#[trigger] out[i]).metrics.len() > 0
    &&& forall|i: int| 0 <= i < out.len() ==> sorted_metrics((#[trigger] out[i]).metrics)
    &&& forall|i: int| 0 <= i < out.len() ==> family_matches_some(#[trigger] out[i], fams, p, com)
    &&& forall|n: Seq<char>| #[trigger] name_present(fams, n) ==> exists|i: int|
        0 <= i < out.len() && out[i].name == prefixed(p, n)
}

/// The merge invariant: the families merged so far, in strictly ascending
/// name order, none empty, each carrying exactly the samples its name
/// contributed, with the help and type of the first contributing family.
pub open spec fn merged_ok(ms: Seq<MetricFamilyV>, processed: Seq<MetricFamilyV>) -> bool {
    &&& forall|i: int, j: int| #![trigger ms[i], ms[j]] 0 <= i < j < ms.len() ==> lex_le(
        ms[i].name,
        ms[j].name,
    ) && ms[i].name != ms[j].name
    &&& forall|i: int| 0 <= i < ms.len() ==> {
        &&& (#[trigger] ms[i]).metrics.len() > 0
        &&& ms[i].metrics == samples_for(processed, ms[i].name)
        &&& ms[i].help == first_meta(processed, ms[i].name).0
        &&& ms[i].field_type == first_meta(processed, ms[i].name).1
    }
    &&& forall|n: Seq<char>| #[trigger] name_present(processed, n) ==> exists|i: int|
        0 <= i < ms.len() && ms[i].name == n
}

/// One more family extends the merged samples of each name by exactly its
/// own contribution.
proof fn lemma_samples_push(processed: Seq<MetricFamilyV>, f: MetricFamilyV, n: Seq<char>)
    ensures
        samples_for(processed.push(f), n) == samples_for(processed, n) + (if f.name == n {
            f.metrics
        } else {
            Seq::<MetricV>::empty()
        }),
{
    let post = processed.push(f);
    assert(post.last() == f);
    assert(post.drop_last() =~= processed);
}

/// One more family decides a name's help and type only when the name had
/// no sample yet.
proof fn lemma_first_meta_push(processed: Seq<MetricFamilyV>, f: MetricFamilyV, n: Seq<char>)
    ensures
        name_present(processed, n) ==> first_meta(processed.push(f), n) == first_meta(
            processed,
            n,
        ),
        !name_present(processed, n) ==> first_meta(processed.push(f), n) == (
            f.help,
            f.field_type,
        ),
{
    let post = processed.push(f);
    assert(post.last() == f);
    assert(post.drop_last() =~= processed);
}

/// Absorbing a family without samples changes no merged state.
proof fn lemma_merge_skip(ms: Seq<MetricFamilyV>, processed: Seq<MetricFamilyV>, f: MetricFamilyV)
    requires
        merged_ok(ms, processed),
        f.metrics.len() == 0,
    ensures
        merged_ok(ms, processed.push(f)),
{
    let post = processed.push(f);
    assert forall|n: Seq<char>| true implies #[trigger] samples_for(post, n) == samples_for(
        processed,
        n,
    ) by {
        lemma_samples_push(processed, f, n);
        assert(samples_for(post, n) =~= samples_for(processed, n));
    }
    assert forall|i: int| 0 <= i < ms.len() implies {
        &&& (#[trigger] ms[i]).metrics.len() > 0
        &&& ms[i].metrics == samples_for(post, ms[i].name)
        &&& ms[i].help == first_meta(post, ms[i].name).0
        &&& ms[i].field_type == first_meta(post, ms[i].name).1
    } by {
        assert(samples_for(post, ms[i].name) == samples_for(processed, ms[i].name));
        assert(name_present(processed, ms[i].name));
        lemma_first_meta_push(processed, f, ms[i].name);
    }
    assert forall|n: Seq<char>| #[trigger] name_present(post, n) implies exists|i: int|
        0 <= i < ms.len() && ms[i].name == n by {
        assert(samples_for(post, n) == samples_for(processed, n));
        assert(name_present(processed, n));
    }
}

/// Absorbing a family whose name is already merged appends its samples to
/// that entry.
proof fn lemma_merge_into(
    ms: Seq<MetricFamilyV>,
    ms2: Seq<MetricFamilyV>,
    processed: Seq<MetricFamilyV>,
    f: MetricFamilyV,
    idx: int,
)
    requires
        merged_ok(ms, processed),
        f.metrics.len() > 0,
        0 <= idx < ms.len(),
        ms[idx].name == f.name,
        ms2.len() == ms.len(),
        forall|k: int| 0 <= k < ms.len() && k != idx ==> ms2[k] == ms[k],
        ms2[idx].name == ms[idx].name,
        ms2[idx].help == ms[idx].help,
        ms2[idx].field_type == ms[idx].field_type,
        ms2[idx].metrics == ms[idx].metrics + f.metrics,
    ensures
        merged_ok(ms2, processed.push(f)),
{
    let post = processed.push(f);
    assert forall|n: Seq<char>| true implies #[trigger] samples_for(post, n) == samples_for(
        processed,
        n,
    ) + if f.name == n {
        f.metrics
    } else {
        Seq::<MetricV>::empty()
    } by {
        lemma_samples_push(processed, f, n);
    }
    assert forall|i: int, j: int| 0 <= i < j < ms2.len() implies lex_le(ms2[i].name, ms2[j].name)
        && ms2[i].name != ms2[j].name by {
        assert(ms2[i].name == ms[i].name);
        assert(ms2[j].name == ms[j].name);
    }
    assert forall|i: int| 0 <= i < ms2.len() implies {
        &&& (#[trigger] ms2[i]).metrics.len() > 0
        &&& ms2[i].metrics == samples_for(post, ms2[i].name)
        &&& ms2[i].help == first_meta(post, ms2[i].name).0
        &&& ms2[i].field_type == first_meta(post, ms2[i].name).1
    } by {
        assert(name_present(processed, ms[i].name));
        lemma_first_meta_push(processed, f, ms[i].name);
        if i == idx {
            assert(samples_for(post, ms2[i].name) == samples_for(processed, ms[idx].name)
                + f.metrics);
            assert(ms2[i].metrics =~= samples_for(post, ms2[i].name));
        } else {
            // Distinct merged names never equal the absorbed one.
            if ms[i].name == f.name {
                if i < idx {
                    assert(ms[i].name != ms[idx].name);
                } else {
                    assert(ms[idx].name != ms[i].name);
                }
            }
            assert(samples_for(post, ms2[i].name) == samples_for(processed, ms[i].name)
                + Seq::<MetricV>::empty());
            assert(ms2[i].metrics =~= samples_for(post, ms2[i].name));
        }
    }
    assert forall|n: Seq<char>| #[trigger] name_present(post, n) implies exists|i: int|
        0 <= i < ms2.len() && ms2[i].name == n by {
        if n == f.name {
            assert(ms2[idx].name == n);
        } else {
            assert(samples_for(post, n) =~= samples_for(processed, n));
            assert(name_present(processed, n));
            let i = choose|i: int| 0 <= i < ms.len() && ms[i].name == n;
            assert(ms2[i].name == n);
        }
    }
}

/// Absorbing a family under a fresh name files it at its sorted position.
proof fn lemma_merge_new(
    ms: Seq<MetricFamilyV>,
    ms2: Seq<MetricFamilyV>,
    processed: Seq<MetricFamilyV>,
    f: MetricFamilyV,
    pos: int,
)
    requires
        merged_ok(ms, processed),
        f.metrics.len() > 0,
        forall|k: int| 0 <= k < ms.len() ==> (#[trigger] ms[k]).name != f.name,
        0 <= pos <= ms.len(),
        forall|k: int| 0 <= k < pos ==> lex_le((#[trigger] ms[k]).name, f.name),
        forall|k: int| pos <= k < ms.len() ==> lex_le(f.name, (#[trigger] ms[k]).name),
        ms2 == ms.insert(pos, f),
    ensures
        merged_ok(ms2, processed.push(f)),
{
    let post = processed.push(f);
    assert forall|n: Seq<char>| true implies #[trigger] samples_for(post, n) == samples_for(
        processed,
        n,
    ) + if f.name == n {
        f.metrics
    } else {
        Seq::<MetricV>::empty()
    } by {
        lemma_samples_push(processed, f, n);
    }
    // The fresh name contributed nothing before.
    assert(!name_present(processed, f.name)) by {
        if name_present(processed, f.name) {
            let i = choose|i: int| 0 <= i < ms.len() && ms[i].name == f.name;
        }
    }
    assert forall|i: int, j: int| 0 <= i < j < ms2.len() implies lex_le(ms2[i].name, ms2[j].name)
        && ms2[i].name != ms2[j].name by {
        let pi = if i < pos { i } else { i - 1 };
        let pj = if j < pos { j } else { j - 1 };
        if i == pos {
            assert(ms2[j] == ms[pj]);
            assert(lex_le(f.name, ms[pj].name));
        } else if j == pos {
            assert(ms2[i] == ms[pi]);
            assert(lex_le(ms[pi].name, f.name));
        } else {
            assert(ms2[i] == ms[pi]);
            assert(ms2[j] == ms[pj]);
        }
    }
    assert forall|i: int| 0 <= i < ms2.len() implies {
        &&& (#[trigger] ms2[i]).metrics.len() > 0
        &&& ms2[i].metrics == samples_for(post, ms2[i].name)
        &&& ms2[i].help == first_meta(post, ms2[i].name).0
        &&& ms2[i].field_type == first_meta(post, ms2[i].name).1
    } by {
        if i == pos {
            assert(samples_for(processed, f.name) =~= Seq::<MetricV>::empty());
            lemma_first_meta_push(processed, f, f.name);
            assert(ms2[i].metrics =~= samples_for(post, f.name));
        } else {
            let pi = if i < pos { i } else { i - 1 };
            assert(ms2[i] == ms[pi]);
            assert(name_present(processed, ms[pi].name));
            lemma_first_meta_push(processed, f, ms[pi].name);
            if ms[pi].name == f.name {
                assert(ms[pi].name != f.name);
            }
            assert(samples_for(post, ms2[i].name) == samples_for(processed, ms[pi].name)
                + Seq::<MetricV>::empty());
            assert(ms2[i].metrics =~= samples_for(post, ms2[i].name));
        }
    }
    assert forall|n: Seq<char>| #[trigger] name_present(post, n) implies exists|i: int|
        0 <= i < ms2.len() && ms2[i].name == n by {
        if n == f.name {
            assert(ms2[pos].name == n);
        } else {
            assert(samples_for(post, n) =~= samples_for(processed, n));
            assert(name_present(processed, n));
            let i = choose|i: int| 0 <= i < ms.len() && ms[i].name == n;
            let ni = if i < pos { i } else { i + 1 };
            assert(ms2[ni].name == n);
        }
    }
}


/// A common prefix decides nothing: appending it to both sides keeps the
/// comparison.
proof fn lemma_lex_le_prepend(p: Seq<char>, a: Seq<char>, b: Seq<char>)
    ensures
        lex_le(p + a, p + b) == lex_le(a, b),
    decreases p.len(),
{
    if p.len() == 0 {
        assert(p + a =~= a);
        assert(p + b =~= b);
    } else {
        lemma_lex_le_prepend(p.drop_first(), a, b);
        assert((p + a).drop_first() =~= p.drop_first() + a);
        assert((p + b).drop_first() =~= p.drop_first() + b);
    }
}

/// Prefixing is injective for a fixed prefix.
proof fn lemma_prefixed_injective(p: Option<Seq<char>>, a: Seq<char>, b: Seq<char>)
    requires
        prefixed(p, a) == prefixed(p, b),
    ensures
        a == b,
{
    match p {
        None => {},
        Some(pp) => {
            let head = pp + seq!['_'];
            assert(a =~= (head + a).skip(head.len() as int));
            assert(b =~= (head + b).skip(head.len() as int));
        },
    }
}

/// Prefixing keeps the name order.
proof fn lemma_prefixed_order(p: Option<Seq<char>>, a: Seq<char>, b: Seq<char>)
    ensures
        lex_le(prefixed(p, a), prefixed(p, b)) == lex_le(a, b),
{
    match p {
        None => {},
        Some(pp) => {
            lemma_lex_le_prepend(pp + seq!['_'], a, b);
            assert(prefixed(p, a) =~= (pp + seq!['_']) + a);
            assert(prefixed(p, b) =~= (pp + seq!['_']) + b);
        },
    }
}

/// Append the registry's common labels to each sample, after the sample's
/// own labels.
fn append_common(metrics: Vec<Metric>, labels: &Vec<(String, String)>) -> (r: Vec<Metric>)
    ensures
        r.deep_view() == metrics.deep_view().map_values(
            |m: MetricV| with_common(m, pairs_to_labels(labels@)),
        ),
{
    let ghost orig = metrics.deep_view();
    let ghost com = pairs_to_labels(labels@);
    let mut src = metrics;
    let mut out: Vec<Metric> = Vec::new();
    while src.len() > 0
        invariant
            com == pairs_to_labels(labels@),
            orig.len() == out.len() + src.len(),
            src.deep_view() == orig.skip(out.len() as int),
            forall|k: int| 0 <= k < out.len() ==> out.deep_view()[k] == with_common(
                orig[k],
                com,
            ),
        decreases src.len(),
    {
        let ghost pre_src = src.deep_view();
        let mut m = src.remove(0);
        proof {
            assert(src.deep_view() =~= pre_src.drop_first());
            assert(src.deep_view() =~= orig.skip(out.len() as int + 1));
            assert(orig.skip(out.len() as int)[0] == orig[out.len() as int]);
            assert(m.deep_view() == pre_src[0]);
        }
        let ghost pre_labels = m.labels.deep_view();
        let mut j: usize = 0;
        while j < labels.len()
            invariant
                j <= labels.len(),
                com == pairs_to_labels(labels@),
                m.labels.deep_view() =~= pre_labels + com.subrange(0, j as int),
                m.payload.deep_view() == orig[out.len() as int].payload,
                m.timestamp_ms == orig[out.len() as int].timestamp_ms,
                pre_labels == orig[out.len() as int].labels,
                out.len() < orig.len(),
            decreases labels.len() - j,
        {
            let p = &labels[j];
            let ghost before = m.labels.deep_view();
            m.labels.push(LabelPair { name: p.0.clone(), value: p.1.clone() });
            proof {
                assert(m.labels.deep_view() =~= before.push(com[j as int]));
                assert(m.labels.deep_view() =~= pre_labels + com.subrange(0, j as int + 1));
            }
            j = j + 1;
        }
        let ghost pre_out = out.deep_view();
        proof {
            assert(com.subrange(0, labels.len() as int) =~= com);
            assert(m.labels.deep_view() =~= pre_labels + com);
        }
        out.push(m);
        proof {
            assert(out.deep_view() =~= pre_out.push(with_common(orig[pre_out.len() as int], com)));
        }
    }
    proof {
        assert(out.deep_view() =~= orig.map_values(|m: MetricV| with_common(m, com)));
    }
    out
}

/// The common labels a pair list stands for.
pub open spec fn pairs_to_labels(ps: Seq<(String, String)>) -> Seq<LabelPairV> {
    Seq::new(ps.len(), |i: int| LabelPairV { name: ps[i].0@, value: ps[i].1@ })
}

impl Registry {
    /// Collect every filed collector's families, in registration order.
    fn collect_all(&self) -> (r: Vec<MetricFamily>)
        requires
            self.wf(),
        ensures
            r.deep_view() == all_families(self.entries()),
    {
        let mut r: Vec<MetricFamily> = Vec::new();
        let mut i: usize = 0;
        proof {
            assert(self.entries().subrange(0, 0) =~= Seq::<(u64, Collector)>::empty());
            assert(r.deep_view() =~= all_families(self.entries().subrange(0, 0)));
        }
        while i < self.collectors.len()
            invariant
                i <= self.collectors.len(),
                self.wf(),
                r.deep_view() == all_families(self.entries().subrange(0, i as int)),
            decreases self.collectors.len() - i,
        {
            proof {
                assert(self.entries()[i as int].1.wf());
            }
            let mut fs = self.collectors[i].1.collect();
            let ghost pre = r.deep_view();
            let ghost fsv = fs.deep_view();
            r.append(&mut fs);
            proof {
                let sub = self.entries().subrange(0, i as int + 1);
                assert(sub.drop_last() =~= self.entries().subrange(0, i as int));
                assert(sub.last() == self.entries()[i as int]);
                assert(r.deep_view() =~= pre + fsv);
                assert(r.deep_view() =~= all_families(sub));
            }
            i = i + 1;
        }
        proof {
            assert(self.entries().subrange(0, self.collectors.len() as int) =~= self.entries());
        }
        r
    }

    /// Gather the snapshot: collect every filed collector, drop families
    /// without samples, merge families that share a name, sort each
    /// family's samples and the families themselves, and apply the
    /// configured prefix and common labels.  The snapshot is a function of
    /// the registered state: any two results conforming to this contract
    /// are equal ([`lemma_gather_deterministic`]).
    pub fn gather(&self) -> (r: Vec<MetricFamily>)
        requires
            self.wf(),
        ensures
            gather_ok(
                r.deep_view(),
                all_families(self.entries()),
                self.prefix_view(),
                self.common_labels(),
            ),
    {
        let fams = self.collect_all();
        let ghost allf = fams.deep_view();
        let mut rest = fams;
        let mut merged: Vec<MetricFamily> = Vec::new();
        proof {
            assert(allf.subrange(0, 0) =~= Seq::<MetricFamilyV>::empty());
            assert(merged_ok(merged.deep_view(), allf.subrange(0, 0))) by {
                assert(forall|n: Seq<char>| !name_present(allf.subrange(0, 0), n));
            }
        }
        while rest.len() > 0
            invariant
                rest.len() <= allf.len(),
                rest.deep_view() == allf.skip((allf.len() - rest.len()) as int),
                merged_ok(merged.deep_view(), allf.subrange(0, (allf.len() - rest.len()) as int)),
            decreases rest.len(),
        {
            let ghost done = (allf.len() - rest.len()) as int;
            let ghost pre_rest = rest.deep_view();
            let f = rest.remove(0);
            let ghost fv = f.deep_view();
            proof {
                assert(rest.deep_view() =~= pre_rest.drop_first());
                assert(rest.deep_view() =~= allf.skip(done + 1));
                assert(allf.skip(done)[0] == allf[done]);
                assert(fv == pre_rest[0]);
                assert(fv == allf[done]);
                assert(allf.subrange(0, done + 1) =~= allf.subrange(0, done).push(allf[done]));
            }
            let ghost processed = allf.subrange(0, done);
            if f.metrics.len() == 0 {
                proof {
                    lemma_merge_skip(merged.deep_view(), processed, fv);
                }
            } else {
                // Find the merge or insertion position in the name-sorted
                // merged list.
                let mut pos: usize = 0;
                let mut matched = false;
                while pos < merged.len() && !matched
                    invariant
                        pos <= merged.len(),
                        forall|k: int| 0 <= k < pos ==> lex_le(
                            (#[trigger] merged.deep_view()[k]).name,
                            fv.name,
                        ) && merged.deep_view()[k].name != fv.name,
                        matched ==> pos < merged.len() && merged.deep_view()[pos as int].name
                            == fv.name,
                        fv == f.deep_view(),
                    ensures
                        pos <= merged.len(),
                        forall|k: int| 0 <= k < pos ==> lex_le(
                            (#[trigger] merged.deep_view()[k]).name,
                            fv.name,
                        ) && merged.deep_view()[k].name != fv.name,
                        matched ==> pos < merged.len() && merged.deep_view()[pos as int].name
                            == fv.name,
                        !matched ==> pos == merged.len() || (pos < merged.len() && lex_le(
                            fv.name,
                            merged.deep_view()[pos as int].name,
                        ) && merged.deep_view()[pos as int].name != fv.name),
                    decreases merged.len() - pos + if matched {
                        0int
                    } else {
                        1int
                    },
                {
                    if str_eq(merged[pos].name.as_str(), f.name.as_str()) {
                        matched = true;
                    } else if str_le(f.name.as_str(), merged[pos].name.as_str()) {
                        break;
                    } else {
                        proof {
                            lemma_lex_le_total(
                                merged.deep_view()[pos as int].name,
                                fv.name,
                            );
                        }
                        pos = pos + 1;
                    }
                }
                if matched {
                    let ghost pre_merged = merged.deep_view();
                    let mut target = merged.remove(pos);
                    let ghost target_pre = target.deep_view();
                    let mut extra = f.metrics;
                    let ghost extra_v = extra.deep_view();
                    proof {
                        assert(target_pre == pre_merged[pos as int]);
                        assert(extra_v == fv.metrics);
                    }
                    target.metrics.append(&mut extra);
                    proof {
                        assert(target.metrics.deep_view() =~= target_pre.metrics + extra_v);
                    }
                    merged.insert(pos, target);
                    proof {
                        let tv = MetricFamilyV {
                            name: target_pre.name,
                            help: target_pre.help,
                            field_type: target_pre.field_type,
                            metrics: target_pre.metrics + extra_v,
                        };
                        assert(merged.deep_view() =~= pre_merged.update(pos as int, tv));
                        lemma_merge_into(
                            pre_merged,
                            merged.deep_view(),
                            processed,
                            fv,
                            pos as int,
                        );
                    }
                } else {
                    proof {
                        assert forall|k: int| pos <= k < merged.deep_view().len() implies lex_le(
                            fv.name,
                            (#[trigger] merged.deep_view()[k]).name,
                        ) && merged.deep_view()[k].name != fv.name by {
                            let mpos = merged.deep_view()[pos as int].name;
                            let mk = merged.deep_view()[k].name;
                            assert(lex_le(fv.name, mpos) && mpos != fv.name);
                            if k > pos {
                                assert(lex_le(mpos, mk));
                                crate::lexical::lemma_lex_le_trans(fv.name, mpos, mk);
                                if mk == fv.name {
                                    lemma_lex_le_antisym(mpos, mk);
                                }
                            }
                        }
                    }
                    let ghost pre_merged = merged.deep_view();
                    merged.insert(pos, f);
                    proof {
                        assert(merged.deep_view() =~= pre_merged.insert(pos as int, fv));
                        lemma_merge_new(pre_merged, merged.deep_view(), processed, fv, pos as int);
                    }
                }
            }
        }
        proof {
            assert(allf.subrange(0, allf.len() as int) =~= allf);
        }
        // Transform each merged family: prefix, common labels, sorted
        // samples.
        let ghost m0 = merged.deep_view();
        let mut src = merged;
        let mut out: Vec<MetricFamily> = Vec::new();
        while src.len() > 0
            invariant
                merged_ok(m0, allf),
                m0.len() == out.len() + src.len(),
                src.deep_view() == m0.skip(out.len() as int),
                forall|k: int| 0 <= k < out.len() ==> {
                    &&& (#[trigger] out.deep_view()[k]).name == prefixed(
                        self.prefix_view(),
                        m0[k].name,
                    )
                    &&& out.deep_view()[k].help == m0[k].help
                    &&& out.deep_view()[k].field_type == m0[k].field_type
                    &&& out.deep_view()[k].metrics == sort_spec(
                        m0[k].metrics.map_values(
                            |m: MetricV| with_common(m, self.common_labels()),
                        ),
                    )
                    &&& out.deep_view()[k].metrics.to_multiset() == m0[k].metrics.map_values(
                        |m: MetricV| with_common(m, self.common_labels()),
                    ).to_multiset()
                    &&& sorted_metrics(out.deep_view()[k].metrics)
                    &&& out.deep_view()[k].metrics.len() > 0
                },
            decreases src.len(),
        {
            let ghost pre_src = src.deep_view();
            let mut f = src.remove(0);
            proof {
                assert(src.deep_view() =~= pre_src.drop_first());
                assert(src.deep_view() =~= m0.skip(out.len() as int + 1));
                assert(m0.skip(out.len() as int)[0] == m0[out.len() as int]);
                assert(f.deep_view() == pre_src[0]);
            }
            let ghost fv = f.deep_view();
            // Prefix the family name.
            let name = match &self.prefix {
                Some(p) => {
                    let mut name = p.clone();
                    name.push('_');
                    name.append(f.name.as_str());
                    proof {
                        assert(name@ =~= prefixed(self.prefix_view(), fv.name));
                    }
                    name
                },
                None => f.name,
            };
            // Common labels, then the sample order.
            let with_labels = append_common(f.metrics, &self.labels);
            let ghost labelled = with_labels.deep_view();
            let sorted = sort_metrics(with_labels);
            let out_f = MetricFamily {
                name,
                help: f.help,
                field_type: f.field_type,
                metrics: sorted,
            };
            let ghost pre_out = out.deep_view();
            out.push(out_f);
            proof {
                assert(self.common_labels() =~= pairs_to_labels(self.labels@));
                assert(labelled == fv.metrics.map_values(
                    |m: MetricV| with_common(m, self.common_labels()),
                ));
                assert(out.deep_view() =~= pre_out.push(out.deep_view()[pre_out.len() as int]));
                assert(out.deep_view()[pre_out.len() as int].metrics.to_multiset()
                    == labelled.to_multiset());
                assert(fv.metrics.len() > 0);
                assert(labelled.len() == fv.metrics.len());
                assert(labelled.to_multiset().len() == labelled.len());
                assert(out.deep_view()[pre_out.len() as int].metrics.to_multiset().len()
                    == out.deep_view()[pre_out.len() as int].metrics.len());
            }
        }
        // Assemble the snapshot contract.
        proof {
            let outv = out.deep_view();
            let p = self.prefix_view();
            let com = self.common_labels();
            assert(outv.len() == m0.len());
            assert forall|i: int, j: int| #![trigger outv[i], outv[j]] 0 <= i < j < outv.len()
                implies lex_le(outv[i].name, outv[j].name) && outv[i].name != outv[j].name by {
                lemma_prefixed_order(p, m0[i].name, m0[j].name);
                if outv[i].name == outv[j].name {
                    lemma_prefixed_injective(p, m0[i].name, m0[j].name);
                }
            }
            assert forall|i: int| 0 <= i < outv.len() implies (#[trigger] outv[i]).metrics.len()
                > 0 && sorted_metrics(outv[i].metrics) by {}
            assert forall|i: int| 0 <= i < outv.len() implies family_matches_some(
                #[trigger] outv[i],
                allf,
                p,
                com,
            ) by {
                assert(m0[i].metrics.len() > 0);
                assert(m0[i].metrics == samples_for(allf, m0[i].name));
                assert(name_present(allf, m0[i].name));
                assert(family_matches(outv[i], allf, p, com, m0[i].name));
            }
            assert forall|n: Seq<char>| #[trigger] name_present(allf, n) implies exists|i: int|
                0 <= i < outv.len() && outv[i].name == prefixed(p, n) by {
                let i = choose|i: int| 0 <= i < m0.len() && m0[i].name == n;
                assert(outv[i].name == prefixed(p, n));
            }
            assert(gather_ok(outv, allf, p, com));
        }
        out
    }
}


/// Registry uniqueness, the re-registration half: a collector whose first
/// descriptor's identity hash is already in use — in particular a collector
/// that is already registered — is rejected as already registered.
pub proof fn lemma_register_twice_rejected(
    descs: Seq<DescView>,
    ids_in_use: Seq<u64>,
    dims: Seq<(Seq<char>, u64)>,
)
    requires
        descs.len() > 0,
        ids_in_use.contains(descs[0].id),
    ensures
        validate_descs(descs, ids_in_use, dims, Seq::empty()) == Some(Error::AlreadyRegistered),
{
}

/// Registry uniqueness: a collector whose descriptor set shares any
/// identity hash with the hashes already in use is rejected as already
/// registered, whenever no earlier check of its set fires first — that is,
/// none of its names clashes with a recorded shape and its own identity
/// hashes are pairwise distinct.
pub proof fn lemma_shared_identity_rejected(
    descs: Seq<DescView>,
    ids_in_use: Seq<u64>,
    dims: Seq<(Seq<char>, u64)>,
)
    requires
        exists|i: int| 0 <= i < descs.len() && ids_in_use.contains((#[trigger] descs[i]).id),
        forall|i: int| 0 <= i < descs.len() ==> !dim_conflict(dims, #[trigger] descs[i]),
        forall|i: int, j: int| #![trigger descs[i], descs[j]] 0 <= i < j < descs.len()
            ==> descs[i].id != descs[j].id,
    ensures
        validate_descs(descs, ids_in_use, dims, Seq::empty()) == Some(Error::AlreadyRegistered),
{
    lemma_shared_identity_seen(descs, ids_in_use, dims, Seq::empty());
}

/// Helper for [`lemma_shared_identity_rejected`], generalized over the
/// identity hashes already seen within the set.
proof fn lemma_shared_identity_seen(
    descs: Seq<DescView>,
    ids_in_use: Seq<u64>,
    dims: Seq<(Seq<char>, u64)>,
    seen: Seq<u64>,
)
    requires
        exists|i: int| 0 <= i < descs.len() && ids_in_use.contains((#[trigger] descs[i]).id),
        forall|i: int| 0 <= i < descs.len() ==> !dim_conflict(dims, #[trigger] descs[i]),
        forall|i: int, j: int| #![trigger descs[i], descs[j]] 0 <= i < j < descs.len()
            ==> descs[i].id != descs[j].id,
        forall|i: int| 0 <= i < descs.len() ==> !seen.contains((#[trigger] descs[i]).id),
    ensures
        validate_descs(descs, ids_in_use, dims, seen) == Some(Error::AlreadyRegistered),
    decreases descs.len(),
{
    let d = descs[0];
    if ids_in_use.contains(d.id) {
    } else {
        let rest = descs.drop_first();
        let wit = choose|i: int|
            0 <= i < descs.len() && ids_in_use.contains((#[trigger] descs[i]).id);
        assert(wit > 0);
        assert(rest[wit - 1] == descs[wit]);
        assert(ids_in_use.contains(rest[wit - 1].id));
        assert forall|i: int| 0 <= i < rest.len() implies !seen.push(d.id).contains(
            (#[trigger] rest[i]).id,
        ) by {
            assert(rest[i] == descs[i + 1]);
            assert(descs[0].id != descs[i + 1].id);
        }
        assert forall|i: int| 0 <= i < rest.len() implies !dim_conflict(
            dims,
            #[trigger] rest[i],
        ) by {
            assert(rest[i] == descs[i + 1]);
        }
        assert forall|i: int, j: int| #![trigger rest[i], rest[j]] 0 <= i < j < rest.len()
            implies rest[i].id != rest[j].id by {
            assert(rest[i] == descs[i + 1]);
            assert(rest[j] == descs[j + 1]);
        }
        lemma_shared_identity_seen(rest, ids_in_use, dims, seen.push(d.id));
    }
}

/// A record appended at the end is seen only by names that had no record.
proof fn lemma_dim_lookup_push(dims: Seq<(Seq<char>, u64)>, p: (Seq<char>, u64), n: Seq<char>)
    ensures
        dim_lookup(dims, n) is Some ==> dim_lookup(dims.push(p), n) == dim_lookup(dims, n),
        dim_lookup(dims, n) is None && p.0 == n ==> dim_lookup(dims.push(p), n) == Some(p.1),
        dim_lookup(dims, n) is None && p.0 != n ==> dim_lookup(dims.push(p), n) == None::<u64>,
    decreases dims.len(),
{
    reveal_with_fuel(dim_lookup, 3);
    assert(dims.push(p).len() == dims.len() + 1);
    if dims.len() == 0 {
        assert(dims.push(p)[0] == p);
        assert(dims.push(p).drop_first() =~= Seq::<(Seq<char>, u64)>::empty());
    } else {
        assert(dims.push(p)[0] == dims[0]);
        lemma_dim_lookup_push(dims.drop_first(), p, n);
        assert(dims.push(p).drop_first() =~= dims.drop_first().push(p));
    }
}

/// Name/shape consistency: registering a family records its name's
/// dimension hash; unregistering keeps the record; so a later descriptor
/// under the same name with a different shape is rejected with a shape
/// conflict, however its identity hash may have been freed in between.
pub proof fn lemma_name_shape_consistency(
    d1: DescView,
    d2: DescView,
    dims0: Seq<(Seq<char>, u64)>,
    ids_later: Seq<u64>,
)
    requires
        dim_lookup(dims0, d1.fq_name) is None,
        d2.fq_name == d1.fq_name,
        d2.dim_hash != d1.dim_hash,
        !ids_later.contains(d2.id),
    ensures
        dim_lookup(add_dims(dims0, seq![d1]), d2.fq_name) == Some(d1.dim_hash),
        validate_descs(seq![d2], ids_later, add_dims(dims0, seq![d1]), Seq::empty()) == Some(
            Error::DescriptorConflict,
        ),
{
    reveal_with_fuel(add_dims, 3);
    reveal_with_fuel(validate_descs, 3);
    reveal_with_fuel(dim_lookup, 3);
    let one = seq![d1];
    assert(one[0] == d1);
    assert(one.len() == 1);
    assert(one.drop_first() =~= Seq::<DescView>::empty());
    assert(add_dims(dims0, one) == dims0.push((d1.fq_name, d1.dim_hash)));
    lemma_dim_lookup_push(dims0, (d1.fq_name, d1.dim_hash), d2.fq_name);
    let two = seq![d2];
    assert(two[0] == d2);
    assert(two.len() == 1);
    assert(dim_conflict(add_dims(dims0, one), d2));
}


/// The outcome of registering a run of collectors, in order, into a
/// registry state: the first registration failure, or the state the
/// registry ends in — its filed entries, the identity hashes in use, and
/// the recorded dimension hashes.
pub open spec fn register_all(
    cs: Seq<Collector>,
    entries: Seq<(u64, Collector)>,
    ids: Seq<u64>,
    dims: Seq<(Seq<char>, u64)>,
) -> Result<(Seq<(u64, Collector)>, Seq<u64>, Seq<(Seq<char>, u64)>), Error>
    decreases cs.len(),
{
    if cs.len() == 0 {
        Ok((entries, ids, dims))
    } else {
        let c = cs[0];
        let cid = collector_identity(c.descs_view());
        match validate_descs(c.descs_view(), ids, dims, Seq::empty()) {
            Some(e) => Err(e),
            None => {
                if exists|i: int| 0 <= i < entries.len() && (#[trigger] entries[i]).0 == cid {
                    Err(Error::AlreadyRegistered)
                } else {
                    register_all(
                        cs.drop_first(),
                        entries.push((cid, c)),
                        ids + ids_of(c.descs_view()),
                        add_dims(dims, c.descs_view()),
                    )
                }
            },
        }
    }
}


/// Runs of families in strictly ascending name order that carry the same
/// names — witnessed by a position map in each direction — carry them at
/// the same positions.
#[verifier::spinoff_prover]
proof fn lemma_sorted_names_unique(
    a: Seq<MetricFamilyV>,
    b: Seq<MetricFamilyV>,
    f: spec_fn(int) -> int,
    g: spec_fn(int) -> int,
)
    requires
        forall|i: int, j: int| #![trigger a[i], a[j]] 0 <= i < j < a.len() ==> lex_le(
            a[i].name,
            a[j].name,
        ) && a[i].name != a[j].name,
        forall|i: int, j: int| #![trigger b[i], b[j]] 0 <= i < j < b.len() ==> lex_le(
            b[i].name,
            b[j].name,
        ) && b[i].name != b[j].name,
        forall|i: int| 0 <= i < a.len() ==> 0 <= #[trigger] f(i) < b.len() && b[f(i)].name
            == a[i].name,
        forall|i: int| 0 <= i < b.len() ==> 0 <= #[trigger] g(i) < a.len() && a[g(i)].name
            == b[i].name,
    ensures
        a.len() == b.len(),
        forall|i: int| 0 <= i < a.len() ==> (#[trigger] a[i]).name == b[i].name,
    decreases a.len(),
{
    if a.len() == 0 {
        if b.len() > 0 {
            assert(0 <= g(0) < a.len());
        }
    } else if b.len() == 0 {
        assert(0 <= f(0) < b.len());
    } else {
        // The heads carry the same name: each head's name occurs in the
        // other run, whose own head comes no later.
        assert(b[f(0)].name == a[0].name);
        assert(a[g(0)].name == b[0].name);
        if f(0) > 0 {
            assert(lex_le(b[0].name, b[f(0)].name));
        } else {
            crate::lexical::lemma_lex_le_refl(a[0].name);
        }
        if g(0) > 0 {
            assert(lex_le(a[0].name, a[g(0)].name));
        } else {
            crate::lexical::lemma_lex_le_refl(b[0].name);
        }
        assert(lex_le(b[0].name, a[0].name));
        assert(lex_le(a[0].name, b[0].name));
        lemma_lex_le_antisym(a[0].name, b[0].name);
        // The tails witness each other through the shifted maps: a later
        // name never equals the shared head name, so its witness sits in
        // the tail.
        let ar = a.drop_first();
        let br = b.drop_first();
        let fr = |i: int| f(i + 1) - 1;
        let gr = |i: int| g(i + 1) - 1;
        assert forall|i: int| 0 <= i < ar.len() implies 0 <= #[trigger] fr(i) < br.len()
            && br[fr(i)].name == ar[i].name by {
            assert(ar[i] == a[i + 1]);
            assert(b[f(i + 1)].name == a[i + 1].name);
            assert(a[0].name != a[i + 1].name);
            assert(f(i + 1) != 0);
            assert(br[f(i + 1) - 1] == b[f(i + 1)]);
        }
        assert forall|i: int| 0 <= i < br.len() implies 0 <= #[trigger] gr(i) < ar.len()
            && ar[gr(i)].name == br[i].name by {
            assert(br[i] == b[i + 1]);
            assert(a[g(i + 1)].name == b[i + 1].name);
            assert(b[0].name != b[i + 1].name);
            assert(g(i + 1) != 0);
            assert(ar[g(i + 1) - 1] == a[g(i + 1)]);
        }
        assert forall|i: int, jj: int| #![trigger ar[i], ar[jj]] 0 <= i < jj < ar.len()
            implies lex_le(ar[i].name, ar[jj].name) && ar[i].name != ar[jj].name by {
            assert(ar[i] == a[i + 1]);
            assert(ar[jj] == a[jj + 1]);
        }
        assert forall|i: int, jj: int| #![trigger br[i], br[jj]] 0 <= i < jj < br.len()
            implies lex_le(br[i].name, br[jj].name) && br[i].name != br[jj].name by {
            assert(br[i] == b[i + 1]);
            assert(br[jj] == b[jj + 1]);
        }
        lemma_sorted_names_unique(ar, br, fr, gr);
        assert forall|i: int| 0 <= i < a.len() implies (#[trigger] a[i]).name == b[i].name by {
            if i > 0 {
                assert(ar[i - 1].name == br[i - 1].name);
            }
        }
    }
}

/// Gather determinism: any two snapshots that conform to the gather
/// contract over the same contributed families, prefix and common labels
/// are equal — the snapshot is a function of the registered state.
#[verifier::spinoff_prover]
pub proof fn lemma_gather_deterministic(
    out1: Seq<MetricFamilyV>,
    out2: Seq<MetricFamilyV>,
    fams: Seq<MetricFamilyV>,
    p: Option<Seq<char>>,
    com: Seq<LabelPairV>,
)
    requires
        gather_ok(out1, fams, p, com),
        gather_ok(out2, fams, p, com),
    ensures
        out1 == out2,
{
    let f = |i: int| choose|j: int| 0 <= j < out2.len() && out2[j].name == out1[i].name;
    let g = |i: int| choose|j: int| 0 <= j < out1.len() && out1[j].name == out2[i].name;
    assert forall|i: int| 0 <= i < out1.len() implies 0 <= #[trigger] f(i) < out2.len()
        && out2[f(i)].name == out1[i].name by {
        let n = choose|n: Seq<char>| family_matches(out1[i], fams, p, com, n);
        assert(name_present(fams, n));
        let j = choose|j: int| 0 <= j < out2.len() && out2[j].name == prefixed(p, n);
        assert(out2[j].name == out1[i].name);
    }
    assert forall|i: int| 0 <= i < out2.len() implies 0 <= #[trigger] g(i) < out1.len()
        && out1[g(i)].name == out2[i].name by {
        let n = choose|n: Seq<char>| family_matches(out2[i], fams, p, com, n);
        assert(name_present(fams, n));
        let j = choose|j: int| 0 <= j < out1.len() && out1[j].name == prefixed(p, n);
        assert(out1[j].name == out2[i].name);
    }
    lemma_sorted_names_unique(out1, out2, f, g);
    assert forall|i: int| 0 <= i < out1.len() implies out1[i] == out2[i] by {
        let n1 = choose|n: Seq<char>| family_matches(out1[i], fams, p, com, n);
        let n2 = choose|n: Seq<char>| family_matches(out2[i], fams, p, com, n);
        assert(out1[i].name == out2[i].name);
        assert(prefixed(p, n1) == prefixed(p, n2));
        lemma_prefixed_injective(p, n1, n2);
        assert(out1[i] =~~= out2[i]);
    }
    assert(out1 =~= out2);
}

} // verus!
