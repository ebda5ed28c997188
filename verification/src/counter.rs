//! Counters: values that only ever go up.
//!
//! [`IntCounter`] couples an unsigned cell with its family descriptor and a
//! label-value tuple.  [`IntCounterVec`] partitions one family by label
//! values, filing each combination under its hash.  [`LocalIntCounter`] and
//! [`LocalIntCounterVec`] buffer deltas outside the shared cells and move
//! them over in one batched flush.  For the unsigned kind a negative delta
//! is not representable, so the monotonic guard of the increment path is
//! the type itself; what remains of it here is the wrapping bound stated by
//! [`lemma_counter_monotonic`].

use crate::atomic64::AtomicU64;
use crate::desc::{clone_strings, Desc, DescView};
use crate::errors::Error;
use crate::proto::{Metric, MetricFamily, MetricPayload, MetricType, SampleValue};
use crate::value::{build_label_pairs, hash_label_values, labels_hash, render_labels};
use vstd::prelude::*;

verus! {

/// What one wrapping increment leaves in a cell.
pub open spec fn inc_result(v: u64, delta: u64) -> u64 {
    vstd::wrapping::u64_specs::wrapping_add(v, delta)
}

/// Monotonic guard: as long as the exact sum still fits the cell, an
/// increment never decreases the observed value.  (On wraparound the value
/// does come down; that is the accepted overflow behaviour of the cell.)
pub proof fn lemma_counter_monotonic(v: u64, delta: u64)
    requires
        v + delta <= u64::MAX,
    ensures
        inc_result(v, delta) >= v,
{
}

/// The snapshot family a counter renders: one sample carrying its value.
pub open spec fn counter_family_view(c: IntCounter) -> crate::proto::MetricFamilyV {
    crate::proto::MetricFamilyV {
        name: c.desc_view().fq_name,
        help: c.desc_view().help,
        field_type: MetricType::Counter,
        metrics: seq![
            crate::proto::MetricV {
                labels: render_labels(c.desc_view(), c.labels()),
                payload: crate::proto::MetricPayloadV::Counter {
                    value: crate::proto::SampleValueV {
                        text: crate::numtext::uint_text(c.value() as int),
                        bits: crate::numtext::double_bits(c.value()),
                    },
                },
                timestamp_ms: 0,
            },
        ],
    }
}

/// The snapshot family a partitioned counter family renders: one sample per
/// combination, in creation order.
pub open spec fn counter_vec_family_view(v: IntCounterVec) -> crate::proto::MetricFamilyV {
    crate::proto::MetricFamilyV {
        name: v.desc_view().fq_name,
        help: v.desc_view().help,
        field_type: MetricType::Counter,
        metrics: Seq::new(
            v.n_children(),
            |i: int| crate::proto::MetricV {
                labels: render_labels(v.desc_view(), v.labels_at(i)),
                payload: crate::proto::MetricPayloadV::Counter {
                    value: crate::proto::SampleValueV {
                        text: crate::numtext::uint_text(v.value_at(i) as int),
                        bits: crate::numtext::double_bits(v.value_at(i)),
                    },
                },
                timestamp_ms: 0,
            },
        ),
    }
}

/// A counter over an unsigned 64-bit cell.
#[derive(Debug)]
pub struct IntCounter {
    desc: Desc,
    label_values: Vec<String>,
    cell: AtomicU64,
}

impl IntCounter {
    /// The current value.
    pub closed spec fn value(&self) -> u64 {
        self.cell@
    }

    /// The family descriptor.
    pub closed spec fn desc_view(&self) -> DescView {
        self.desc@
    }

    /// The variable-label values that single this counter out of its
    /// family.
    pub closed spec fn labels(&self) -> Seq<Seq<char>> {
        self.label_values.deep_view()
    }

    /// The descriptor is well formed and the label values match its arity.
    pub open spec fn wf(&self) -> bool {
        &&& self.desc_view().wf()
        &&& self.labels().len() == self.desc_view().variable_labels.len()
    }

    /// Create a counter with the `name` and `help` arguments and no labels,
    /// starting at zero.
    pub fn new(name: String, help: String) -> (r: Result<IntCounter, Error>)
        ensures
            r matches Ok(c) ==> {
                &&& c.wf()
                &&& c.value() == 0
                &&& c.desc_view().fq_name == name@
                &&& c.desc_view().help == help@
                &&& c.desc_view().variable_labels.len() == 0
                &&& c.desc_view().const_labels.len() == 0
                &&& c.labels().len() == 0
            },
            r is Ok,
    {
        let desc = Desc::new(name, help, Vec::new(), Vec::new())?;
        Ok(IntCounter { desc, label_values: Vec::new(), cell: AtomicU64::new(0) })
    }

    /// Create one labelled member of a family, starting at zero; fails when
    /// the number of label values does not match the descriptor's arity.
    pub fn with_desc_and_label_values(desc: &Desc, label_values: Vec<String>) -> (r: Result<
        IntCounter,
        Error,
    >)
        requires
            desc@.wf(),
        ensures
            r is Ok <==> label_values.deep_view().len() == desc@.variable_labels.len(),
            r is Err ==> r == Result::<IntCounter, Error>::Err(Error::LabelCardinalityMismatch),
            r matches Ok(c) ==> {
                &&& c.wf()
                &&& c.value() == 0
                &&& c.desc_view() == desc@
                &&& c.labels() == label_values.deep_view()
            },
    {
        if label_values.len() != desc.variable_labels.len() {
            return Err(Error::LabelCardinalityMismatch);
        }
        Ok(IntCounter { desc: desc.clone(), label_values, cell: AtomicU64::new(0) })
    }

    /// Increase the counter by the given amount, wrapping on overflow.
    pub fn inc_by(&mut self, v: u64)
        ensures
            final(self).value() == inc_result(old(self).value(), v),
            final(self).desc_view() == old(self).desc_view(),
            final(self).labels() == old(self).labels(),
    {
        self.cell.inc_by(v);
    }

    /// Increase the counter by one.
    pub fn inc(&mut self)
        ensures
            final(self).value() == inc_result(old(self).value(), 1),
            final(self).desc_view() == old(self).desc_view(),
            final(self).labels() == old(self).labels(),
    {
        self.cell.inc_by(1);
    }

    /// Return the counter value.
    pub fn get(&self) -> (v: u64)
        ensures
            v == self.value(),
    {
        self.cell.get()
    }

    /// Restart the counter, resetting its value back to zero.
    pub fn reset(&mut self)
        ensures
            final(self).value() == 0,
            final(self).desc_view() == old(self).desc_view(),
            final(self).labels() == old(self).labels(),
    {
        self.cell.set(0);
    }

    /// Set the counter to the given value.
    pub fn set(&mut self, v: u64)
        ensures
            final(self).value() == v,
            final(self).desc_view() == old(self).desc_view(),
            final(self).labels() == old(self).labels(),
    {
        self.cell.set(v);
    }

    /// Turn the counter into a local shadow for single-context buffering.
    pub fn local(self) -> (r: LocalIntCounter)
        ensures
            r.buffered() == 0,
            r.backing_value() == self.value(),
            r.desc_view() == self.desc_view(),
    {
        LocalIntCounter { counter: self, val: 0 }
    }

    /// The descriptors this counter exposes.
    pub fn desc(&self) -> (r: Vec<Desc>)
        ensures
            r.len() == 1,
            r[0]@ == self.desc_view(),
    {
        let mut r = Vec::new();
        r.push(self.desc.clone());
        r
    }

    /// Render the counter into one sample.
    pub fn metric(&self) -> (r: Metric)
        requires
            self.wf(),
        ensures
            r.deep_view().labels == render_labels(self.desc_view(), self.labels()),
            r.deep_view().payload matches crate::proto::MetricPayloadV::Counter { value } && value
                == (SampleValue::Uint(self.value())).deep_view(),
            r.timestamp_ms == 0,
    {
        let labels = build_label_pairs(&self.desc, &self.label_values);
        Metric {
            labels,
            payload: MetricPayload::Counter { value: SampleValue::Uint(self.cell.get()) },
            timestamp_ms: 0,
        }
    }

    /// Render the counter's whole family: one sample.
    pub fn collect(&self) -> (r: MetricFamily)
        requires
            self.wf(),
        ensures
            r.deep_view().name == self.desc_view().fq_name,
            r.deep_view().help == self.desc_view().help,
            r.field_type == MetricType::Counter,
            r.deep_view().metrics.len() == 1,
            r.deep_view().metrics[0].labels == render_labels(self.desc_view(), self.labels()),
            r.deep_view().metrics[0].payload matches crate::proto::MetricPayloadV::Counter {
                value,
            } && value == (SampleValue::Uint(self.value())).deep_view(),
            r.deep_view() == counter_family_view(*self),
    {
        let m = self.metric();
        let mut metrics = Vec::new();
        metrics.push(m);
        let fam = MetricFamily {
            name: self.desc.fq_name.clone(),
            help: self.desc.help.clone(),
            field_type: MetricType::Counter,
            metrics,
        };
        proof {
            assert(fam.deep_view() =~~= counter_family_view(*self));
        }
        fam
    }
}

impl Clone for IntCounter {
    /// A clone observes the same value, descriptor and labels; the copy's
    /// cell is its own.
    fn clone(&self) -> (r: Self)
        ensures
            r.value() == self.value(),
            r.desc_view() == self.desc_view(),
            r.labels() == self.labels(),
    {
        IntCounter {
            desc: self.desc.clone(),
            label_values: clone_strings(&self.label_values),
            cell: AtomicU64::new(self.cell.get()),
        }
    }
}

/// Within the cell's range an increment adds exactly its delta.
pub proof fn lemma_counter_exact_increment(v: u64, delta: u64)
    requires
        v + delta <= u64::MAX,
    ensures
        inc_result(v, delta) == v + delta,
{
}

/// What one flush of a local shadow leaves behind, as (buffer, backing).
pub open spec fn flush_result(buffered: u64, backing: u64) -> (u64, u64) {
    if buffered == 0 {
        (0, backing)
    } else {
        (0, inc_result(backing, buffered))
    }
}

/// Flush idempotence: a flush with an empty buffer changes nothing, a flush
/// with buffer `v` moves exactly `v` into the backing cell and clears the
/// buffer, and a second consecutive flush is a no-op.
pub proof fn lemma_flush_idempotent(buffered: u64, backing: u64)
    ensures
        buffered == 0 ==> flush_result(buffered, backing) == (0u64, backing),
        buffered != 0 ==> flush_result(buffered, backing) == (
            0u64,
            inc_result(backing, buffered),
        ),
        flush_result(flush_result(buffered, backing).0, flush_result(buffered, backing).1)
            == flush_result(buffered, backing),
{
}

/// Within the cell's range a flush adds exactly the buffered amount.
pub proof fn lemma_flush_exact(buffered: u64, backing: u64)
    requires
        backing + buffered <= u64::MAX,
    ensures
        flush_result(buffered, backing) == (0u64, (backing + buffered) as u64),
{
}

/// An unsynchronized shadow of one counter: deltas gather in a plain local
/// buffer and reach the backing cell only on flush.
#[derive(Debug)]
pub struct LocalIntCounter {
    counter: IntCounter,
    val: u64,
}

impl LocalIntCounter {
    /// The delta gathered since the last flush.
    pub closed spec fn buffered(&self) -> u64 {
        self.val
    }

    /// The backing counter's current value.
    pub closed spec fn backing_value(&self) -> u64 {
        self.counter.value()
    }

    /// The family descriptor.
    pub closed spec fn desc_view(&self) -> DescView {
        self.counter.desc_view()
    }

    /// Increase the buffer by the given amount, touching no shared state.
    pub fn inc_by(&mut self, v: u64)
        ensures
            final(self).buffered() == inc_result(old(self).buffered(), v),
            final(self).backing_value() == old(self).backing_value(),
            final(self).desc_view() == old(self).desc_view(),
    {
        self.val = self.val.wrapping_add(v);
    }

    /// Increase the buffer by one.
    pub fn inc(&mut self)
        ensures
            final(self).buffered() == inc_result(old(self).buffered(), 1),
            final(self).backing_value() == old(self).backing_value(),
            final(self).desc_view() == old(self).desc_view(),
    {
        self.val = self.val.wrapping_add(1);
    }

    /// Read the local buffer; the backing cell is not consulted.
    pub fn get(&self) -> (v: u64)
        ensures
            v == self.buffered(),
    {
        self.val
    }

    /// Clear the local buffer; the backing cell is not touched.
    pub fn reset(&mut self)
        ensures
            final(self).buffered() == 0,
            final(self).backing_value() == old(self).backing_value(),
            final(self).desc_view() == old(self).desc_view(),
    {
        self.val = 0;
    }

    /// Move the buffered delta into the backing cell in one batched
    /// increment; an empty buffer performs no write at all.
    pub fn flush(&mut self)
        ensures
            (final(self).buffered(), final(self).backing_value()) == flush_result(
                old(self).buffered(),
                old(self).backing_value(),
            ),
            final(self).desc_view() == old(self).desc_view(),
    {
        if self.val == 0 {
            return;
        }
        self.counter.inc_by(self.val);
        self.val = 0;
    }
}

/// A label-partitioned family of counters: one [`IntCounter`] per distinct
/// label-value combination, filed under the combination's hash.
#[derive(Debug)]
pub struct IntCounterVec {
    desc: Desc,
    children: Vec<(u64, IntCounter)>,
}

impl IntCounterVec {
    /// The family descriptor.
    pub closed spec fn desc_view(&self) -> DescView {
        self.desc@
    }

    /// The filed combinations, in creation order.
    pub closed spec fn entries(&self) -> Seq<(u64, IntCounter)> {
        self.children@
    }

    /// How many label-value combinations currently exist.
    pub open spec fn n_children(&self) -> nat {
        self.entries().len()
    }

    /// The hash filed at a position.
    pub open spec fn hash_at(&self, i: int) -> u64 {
        self.entries()[i].0
    }

    /// The value of the counter at a position.
    pub open spec fn value_at(&self, i: int) -> u64 {
        self.entries()[i].1.value()
    }

    /// The label values of the counter at a position.
    pub open spec fn labels_at(&self, i: int) -> Seq<Seq<char>> {
        self.entries()[i].1.labels()
    }

    /// Whether some combination is filed under the hash.
    pub open spec fn has_hash(&self, h: u64) -> bool {
        exists|i: int| 0 <= i < self.n_children() && self.hash_at(i) == h
    }

    /// The position filed under a present hash.
    pub open spec fn index_of(&self, h: u64) -> int {
        choose|i: int| 0 <= i < self.n_children() && self.hash_at(i) == h
    }

    /// The value filed under a present hash.
    pub open spec fn value_of(&self, h: u64) -> u64 {
        self.value_at(self.index_of(h))
    }

    /// The label values filed under a present hash.
    pub open spec fn labels_of(&self, h: u64) -> Seq<Seq<char>> {
        self.labels_at(self.index_of(h))
    }

    /// The descriptor is well formed and declares at least one variable
    /// label; every child belongs to this family, has the right arity and
    /// is filed under the hash of its label values; no hash is filed twice.
    pub open spec fn wf(&self) -> bool {
        &&& self.desc_view().wf()
        &&& self.desc_view().variable_labels.len() >= 1
        &&& forall|i: int, j: int|
            0 <= i < j < self.n_children() ==> self.hash_at(i) != self.hash_at(j)
        &&& forall|i: int| 0 <= i < self.n_children() ==> {
            &&& (#[trigger] self.labels_at(i)).len() == self.desc_view().variable_labels.len()
            &&& self.hash_at(i) == labels_hash(self.labels_at(i))
            &&& self.children_desc(i) == self.desc_view()
        }
    }

    /// Create a family partitioned by the given label names; at least one
    /// name is required.
    pub fn new(name: String, help: String, label_names: Vec<String>) -> (r: Result<
        IntCounterVec,
        Error,
    >)
        ensures
            label_names.deep_view().len() == 0 ==> r == Result::<IntCounterVec, Error>::Err(
                Error::NoVariableLabels,
            ),
            r is Ok <==> label_names.deep_view().len() > 0 && crate::desc::distinct_names(
                label_names.deep_view(),
            ),
            label_names.deep_view().len() > 0 && !crate::desc::distinct_names(
                label_names.deep_view(),
            ) ==> r == Result::<IntCounterVec, Error>::Err(Error::DuplicateLabel),
            r matches Ok(v) ==> {
                &&& v.wf()
                &&& v.n_children() == 0
                &&& v.desc_view().fq_name == name@
                &&& v.desc_view().help == help@
                &&& v.desc_view().variable_labels == label_names.deep_view()
                &&& v.desc_view().const_labels.len() == 0
            },
            r is Err ==> r == Result::<IntCounterVec, Error>::Err(Error::NoVariableLabels) || r
                == Result::<IntCounterVec, Error>::Err(Error::DuplicateLabel),
    {
        if label_names.len() == 0 {
            return Err(Error::NoVariableLabels);
        }
        let ghost names = label_names.deep_view();
        let consts: Vec<(String, String)> = Vec::new();
        proof {
            assert(crate::desc::all_label_names(consts.deep_view(), names) =~= names);
        }
        let desc = Desc::new(name, help, label_names, consts)?;
        Ok(IntCounterVec { desc, children: Vec::new() })
    }

    /// Find the position filed under a hash.
    fn find(&self, h: u64) -> (r: Option<usize>)
        ensures
            r matches Some(i) ==> i < self.n_children() && self.hash_at(i as int) == h,
            r is None ==> forall|i: int| 0 <= i < self.n_children() ==> self.hash_at(i) != h,
    {
        let mut i: usize = 0;
        while i < self.children.len()
            invariant
                i <= self.children.len(),
                forall|k: int| 0 <= k < i ==> self.hash_at(k) != h,
            decreases self.children.len() - i,
        {
            if self.children[i].0 == h {
                return Some(i);
            }
            i = i + 1;
        }
        None
    }

    /// Look up or lazily create the combination for the given label values,
    /// and increase its counter by `delta`.  On first access the
    /// combination starts at zero, so the counter then reads exactly
    /// `delta`.
    pub fn inc_by_label_values(&mut self, vals: &Vec<String>, delta: u64) -> (r: Result<(), Error>)
        requires
            old(self).wf(),
        ensures
            final(self).wf(),
            r is Ok <==> vals.deep_view().len() == old(self).desc_view().variable_labels.len(),
            r is Err ==> r == Result::<(), Error>::Err(Error::LabelCardinalityMismatch) && *final(self) == *old(self),
            r is Ok ==> {
                let h = labels_hash(vals.deep_view());
                &&& final(self).desc_view() == old(self).desc_view()
                &&& final(self).has_hash(h)
                &&& !old(self).has_hash(h) ==> final(self).labels_of(h) == vals.deep_view()
                &&& old(self).has_hash(h) ==> final(self).labels_of(h) == old(self).labels_of(h)
                &&& final(self).value_of(h) == inc_result(
                    if old(self).has_hash(h) {
                        old(self).value_of(h)
                    } else {
                        0
                    },
                    delta,
                )
                &&& forall|h2: u64| h2 != h ==> final(self).has_hash(h2) == old(self).has_hash(h2)
                &&& forall|h2: u64| h2 != h && old(self).has_hash(h2) ==> final(self).value_of(h2)
                    == old(self).value_of(h2) && final(self).labels_of(h2) == old(self).labels_of(
                    h2,
                )
            },
    {
        if vals.len() != self.desc.variable_labels.len() {
            return Err(Error::LabelCardinalityMismatch);
        }
        let h = hash_label_values(vals);
        let found = self.find(h);
        match found {
            Some(i) => {
                proof {
                    lemma_unique_index(*self, h, i as int);
                }
                let ghost pre = self.children@;
                let (hh, mut child) = self.children.remove(i);
                child.inc_by(delta);
                self.children.insert(i, (hh, child));
                proof {
                    assert(self.children@ =~= pre.update(
                        i as int,
                        (pre[i as int].0, self.children@[i as int].1),
                    ));
                    lemma_update_keeps(*old(self), *self, i as int, h);
                }
                Ok(())
            },
            None => {
                let child = match IntCounter::with_desc_and_label_values(
                    &self.desc,
                    crate::desc::clone_strings(vals),
                ) {
                    Ok(c) => c,
                    Err(e) => {
                        proof {
                            assert(false);
                        }
                        return Err(e);
                    },
                };
                let mut child = child;
                child.inc_by(delta);
                let ghost pre = self.children@;
                self.children.push((h, child));
                proof {
                    assert(self.children@ =~= pre.push(self.children@[pre.len() as int]));
                    lemma_push_keeps(*old(self), *self, h);
                }
                Ok(())
            },
        }
    }

    /// Look up or lazily create the combination for the given label values,
    /// without changing its value.
    pub fn with_label_values(&mut self, vals: &Vec<String>) -> (r: Result<(), Error>)
        requires
            old(self).wf(),
        ensures
            final(self).wf(),
            r is Ok <==> vals.deep_view().len() == old(self).desc_view().variable_labels.len(),
            r is Err ==> r == Result::<(), Error>::Err(Error::LabelCardinalityMismatch) && *final(self) == *old(self),
            r is Ok ==> {
                let h = labels_hash(vals.deep_view());
                &&& final(self).desc_view() == old(self).desc_view()
                &&& final(self).has_hash(h)
                &&& !old(self).has_hash(h) ==> final(self).labels_of(h) == vals.deep_view()
                &&& old(self).has_hash(h) ==> final(self).labels_of(h) == old(self).labels_of(h)
                &&& final(self).value_of(h) == if old(self).has_hash(h) {
                    old(self).value_of(h)
                } else {
                    0
                }
                &&& forall|h2: u64| h2 != h ==> final(self).has_hash(h2) == old(self).has_hash(h2)
                &&& forall|h2: u64| h2 != h && old(self).has_hash(h2) ==> final(self).value_of(h2)
                    == old(self).value_of(h2) && final(self).labels_of(h2) == old(self).labels_of(
                    h2,
                )
            },
    {
        let r = self.inc_by_label_values(vals, 0);
        r
    }

    /// Read the value filed under the given label values; fails when the
    /// combination was never created.
    pub fn get_label_values(&self, vals: &Vec<String>) -> (r: Result<u64, Error>)
        requires
            self.wf(),
        ensures
            vals.deep_view().len() != self.desc_view().variable_labels.len() ==> r
                == Result::<u64, Error>::Err(Error::LabelCardinalityMismatch),
            vals.deep_view().len() == self.desc_view().variable_labels.len() ==> {
                let h = labels_hash(vals.deep_view());
                if self.has_hash(h) {
                    r == Result::<u64, Error>::Ok(self.value_of(h))
                } else {
                    r == Result::<u64, Error>::Err(Error::MetricNotFound)
                }
            },
    {
        if vals.len() != self.desc.variable_labels.len() {
            return Err(Error::LabelCardinalityMismatch);
        }
        let h = hash_label_values(vals);
        match self.find(h) {
            Some(i) => {
                proof {
                    lemma_unique_index(*self, h, i as int);
                }
                Ok(self.children[i].1.get())
            },
            None => Err(Error::MetricNotFound),
        }
    }

    /// Remove the combination filed under the given label values; fails
    /// when it does not exist.
    pub fn remove_label_values(&mut self, vals: &Vec<String>) -> (r: Result<(), Error>)
        requires
            old(self).wf(),
        ensures
            final(self).wf(),
            final(self).desc_view() == old(self).desc_view(),
            vals.deep_view().len() != old(self).desc_view().variable_labels.len() ==> r
                == Result::<(), Error>::Err(Error::LabelCardinalityMismatch) && *final(self) == *old(self),
            vals.deep_view().len() == old(self).desc_view().variable_labels.len() ==> {
                let h = labels_hash(vals.deep_view());
                if old(self).has_hash(h) {
                    &&& r is Ok
                    &&& !final(self).has_hash(h)
                    &&& forall|h2: u64| h2 != h ==> final(self).has_hash(h2) == old(self).has_hash(h2)
                    &&& forall|h2: u64| h2 != h && old(self).has_hash(h2) ==> final(self).value_of(h2) == old(self).value_of(h2) && final(self).labels_of(h2) == old(self).labels_of(h2)
                } else {
                    r == Result::<(), Error>::Err(Error::MetricNotFound) && *final(self) == *old(self)
                }
            },
    {
        if vals.len() != self.desc.variable_labels.len() {
            return Err(Error::LabelCardinalityMismatch);
        }
        let h = hash_label_values(vals);
        match self.find(h) {
            Some(i) => {
                proof {
                    lemma_unique_index(*self, h, i as int);
                }
                let ghost pre = self.children@;
                let _ = self.children.remove(i);
                proof {
                    lemma_remove_keeps(*old(self), *self, i as int, h);
                }
                Ok(())
            },
            None => Err(Error::MetricNotFound),
        }
    }

    /// Render the family: one sample per combination, in creation order.
    pub fn collect(&self) -> (r: MetricFamily)
        requires
            self.wf(),
        ensures
            r.deep_view().name == self.desc_view().fq_name,
            r.deep_view().help == self.desc_view().help,
            r.field_type == MetricType::Counter,
            r.deep_view().metrics.len() == self.n_children(),
            forall|i: int| 0 <= i < self.n_children() ==> {
                &&& (#[trigger] r.deep_view().metrics[i]).labels == render_labels(
                    self.desc_view(),
                    self.labels_at(i),
                )
                &&& r.deep_view().metrics[i].payload matches crate::proto::MetricPayloadV::Counter {
                    value,
                } && value == (SampleValue::Uint(self.value_at(i))).deep_view()
                &&& r.deep_view().metrics[i].timestamp_ms == 0
            },
            r.deep_view() == counter_vec_family_view(*self),
    {
        let mut metrics: Vec<Metric> = Vec::new();
        let mut i: usize = 0;
        while i < self.children.len()
            invariant
                self.wf(),
                i <= self.children.len(),
                metrics.len() == i,
                forall|k: int| 0 <= k < i ==> {
                    &&& (#[trigger] metrics.deep_view()[k]).labels == render_labels(
                        self.desc_view(),
                        self.labels_at(k),
                    )
                    &&& metrics.deep_view()[k].payload
                        matches crate::proto::MetricPayloadV::Counter { value } && value == (
                    SampleValue::Uint(self.value_at(k))).deep_view()
                    &&& metrics.deep_view()[k].timestamp_ms == 0
                    &&& metrics.deep_view()[k] == counter_vec_family_view(*self).metrics[k]
                },
            decreases self.children.len() - i,
        {
            proof {
                assert(self.labels_at(i as int).len()
                    == self.desc_view().variable_labels.len());
                assert(self.children_desc(i as int) == self.desc_view());
            }
            let child = &self.children[i].1;
            let m = child.metric();
            let ghost pre = metrics.deep_view();
            metrics.push(m);
            proof {
                assert(metrics.deep_view() =~= pre.push(m.deep_view()));
            }
            i = i + 1;
        }
        let fam = MetricFamily {
            name: self.desc.fq_name.clone(),
            help: self.desc.help.clone(),
            field_type: MetricType::Counter,
            metrics,
        };
        proof {
            assert(fam.deep_view() =~~= counter_vec_family_view(*self));
        }
        fam
    }

    /// The descriptors this family exposes.
    pub fn desc(&self) -> (r: Vec<Desc>)
        ensures
            r.len() == 1,
            r[0]@ == self.desc_view(),
    {
        let mut r = Vec::new();
        r.push(self.desc.clone());
        r
    }

    /// Turn the family into a local shadow for single-context buffering.
    pub fn local(self) -> (r: LocalIntCounterVec)
        requires
            self.wf(),
        ensures
            r.vec_wf(),
            r.backing() == self,
            r.local_len() == 0,
            forall|h: u64| #[trigger] r.buffered_of(h) == 0,
    {
        let r = LocalIntCounterVec { vec: self, local: Vec::new() };
        proof {
            assert forall|h: u64| #[trigger] r.buffered_of(h) == 0 by {
                lemma_buf_absent(r.local@, h);
            }
        }
        r
    }
}

/// In a well-formed family a found position is the filed position.
proof fn lemma_unique_index(v: IntCounterVec, h: u64, i: int)
    requires
        v.wf(),
        0 <= i < v.n_children(),
        v.hash_at(i) == h,
    ensures
        v.has_hash(h),
        v.index_of(h) == i,
        v.value_of(h) == v.value_at(i),
        v.labels_of(h) == v.labels_at(i),
{
    assert(v.has_hash(h));
    let j = v.index_of(h);
    if j != i {
        if j < i {
            assert(v.hash_at(j) != v.hash_at(i));
        } else {
            assert(v.hash_at(i) != v.hash_at(j));
        }
    }
}

/// Updating one position in place keeps every other combination.
#[verifier::rlimit(50)]
proof fn lemma_update_keeps(pre: IntCounterVec, post: IntCounterVec, i: int, h: u64)
    requires
        pre.wf(),
        0 <= i < pre.n_children(),
        pre.hash_at(i) == h,
        post.n_children() == pre.n_children(),
        post.desc_view() == pre.desc_view(),
        forall|k: int| 0 <= k < pre.n_children() && k != i ==> post.entries()[k]
            == pre.entries()[k],
        post.hash_at(i) == h,
        post.labels_at(i) == pre.labels_at(i),
        post.children_desc(i) == pre.children_desc(i),
    ensures
        post.wf(),
        post.has_hash(h),
        post.index_of(h) == i,
        forall|h2: u64| h2 != h ==> post.has_hash(h2) == pre.has_hash(h2),
        forall|h2: u64| h2 != h && pre.has_hash(h2) ==> post.value_of(h2) == pre.value_of(h2)
            && post.labels_of(h2) == pre.labels_of(h2),
{
    assert forall|k: int| 0 <= k < post.n_children() implies {
        &&& (#[trigger] post.labels_at(k)).len() == post.desc_view().variable_labels.len()
        &&& post.hash_at(k) == labels_hash(post.labels_at(k))
        &&& post.children_desc(k) == post.desc_view()
    } by {
        assert(pre.labels_at(k).len() == pre.desc_view().variable_labels.len());
        if k != i {
            assert(post.entries()[k] == pre.entries()[k]);
        }
    }
    assert forall|k: int, l: int| 0 <= k < l < post.n_children() implies post.hash_at(k)
        != post.hash_at(l) by {
        assert(pre.hash_at(k) != pre.hash_at(l));
        if k != i {
            assert(post.entries()[k] == pre.entries()[k]);
        }
        if l != i {
            assert(post.entries()[l] == pre.entries()[l]);
        }
    }
    lemma_unique_index(post, h, i);
    assert forall|h2: u64| h2 != h implies post.has_hash(h2) == pre.has_hash(h2) by {
        if pre.has_hash(h2) {
            let k = pre.index_of(h2);
            assert(post.hash_at(k) == h2);
        }
        if post.has_hash(h2) {
            let k = post.index_of(h2);
            assert(pre.hash_at(k) == h2);
        }
    }
    assert forall|h2: u64| h2 != h && pre.has_hash(h2) implies post.value_of(h2) == pre.value_of(
        h2,
    ) && post.labels_of(h2) == pre.labels_of(h2) by {
        let k = pre.index_of(h2);
        assert(pre.hash_at(k) == h2);
        assert(k != i);
        lemma_unique_index(post, h2, k);
        lemma_unique_index(pre, h2, k);
    }
}

/// Appending a fresh combination keeps every present one.
#[verifier::rlimit(50)]
proof fn lemma_push_keeps(pre: IntCounterVec, post: IntCounterVec, h: u64)
    requires
        pre.wf(),
        !pre.has_hash(h),
        post.n_children() == pre.n_children() + 1,
        post.desc_view() == pre.desc_view(),
        forall|k: int| 0 <= k < pre.n_children() ==> post.entries()[k] == pre.entries()[k],
        post.hash_at(pre.n_children() as int) == h,
        post.labels_at(pre.n_children() as int).len() == post.desc_view().variable_labels.len(),
        post.hash_at(pre.n_children() as int) == labels_hash(
            post.labels_at(pre.n_children() as int),
        ),
        post.children_desc(pre.n_children() as int) == post.desc_view(),
    ensures
        post.wf(),
        post.has_hash(h),
        post.index_of(h) == pre.n_children(),
        forall|h2: u64| h2 != h ==> post.has_hash(h2) == pre.has_hash(h2),
        forall|h2: u64| h2 != h && pre.has_hash(h2) ==> post.value_of(h2) == pre.value_of(h2)
            && post.labels_of(h2) == pre.labels_of(h2),
{
    let n = pre.n_children() as int;
    assert forall|k: int, l: int| 0 <= k < l < post.n_children() implies post.hash_at(k)
        != post.hash_at(l) by {
        if l < n {
            assert(post.entries()[k] == pre.entries()[k]);
            assert(post.entries()[l] == pre.entries()[l]);
            assert(pre.hash_at(k) != pre.hash_at(l));
        } else {
            assert(post.entries()[k] == pre.entries()[k]);
            assert(post.hash_at(k) == pre.hash_at(k));
            if pre.hash_at(k) == h {
                assert(pre.has_hash(h));
            }
        }
    }
    assert forall|k: int| 0 <= k < post.n_children() implies {
        &&& (#[trigger] post.labels_at(k)).len() == post.desc_view().variable_labels.len()
        &&& post.hash_at(k) == labels_hash(post.labels_at(k))
        &&& post.children_desc(k) == post.desc_view()
    } by {
        if k < n {
            assert(post.entries()[k] == pre.entries()[k]);
            assert(pre.labels_at(k).len() == pre.desc_view().variable_labels.len());
        }
    }
    lemma_unique_index(post, h, n);
    assert forall|h2: u64| h2 != h implies post.has_hash(h2) == pre.has_hash(h2) by {
        if pre.has_hash(h2) {
            let k = pre.index_of(h2);
            assert(post.hash_at(k) == h2);
        }
        if post.has_hash(h2) {
            let k = post.index_of(h2);
            assert(k != n);
            assert(pre.hash_at(k) == h2);
        }
    }
    assert forall|h2: u64| h2 != h && pre.has_hash(h2) implies post.value_of(h2) == pre.value_of(
        h2,
    ) && post.labels_of(h2) == pre.labels_of(h2) by {
        let k = pre.index_of(h2);
        assert(pre.hash_at(k) == h2);
        lemma_unique_index(post, h2, k);
        lemma_unique_index(pre, h2, k);
    }
}

/// Removing one position keeps every other combination.
#[verifier::rlimit(50)]
proof fn lemma_remove_keeps(pre: IntCounterVec, post: IntCounterVec, i: int, h: u64)
    requires
        pre.wf(),
        0 <= i < pre.n_children(),
        pre.hash_at(i) == h,
        post.desc_view() == pre.desc_view(),
        post.entries() == pre.entries().remove(i),
    ensures
        post.wf(),
        !post.has_hash(h),
        forall|h2: u64| h2 != h ==> post.has_hash(h2) == pre.has_hash(h2),
        forall|h2: u64| h2 != h && pre.has_hash(h2) ==> post.value_of(h2) == pre.value_of(h2)
            && post.labels_of(h2) == pre.labels_of(h2),
{
    let n = pre.n_children() as int;
    assert(post.n_children() == n - 1);
    assert forall|k: int| 0 <= k < post.n_children() implies post.entries()[k] == pre.entries()[
        if k < i {
            k
        } else {
            k + 1
        }
    ] by {}
    assert forall|k: int, l: int| 0 <= k < l < post.n_children() implies post.hash_at(k)
        != post.hash_at(l) by {
        let pk = if k < i { k } else { k + 1 };
        let pl = if l < i { l } else { l + 1 };
        assert(pre.hash_at(pk) != pre.hash_at(pl));
    }
    assert forall|k: int| 0 <= k < post.n_children() implies {
        &&& (#[trigger] post.labels_at(k)).len() == post.desc_view().variable_labels.len()
        &&& post.hash_at(k) == labels_hash(post.labels_at(k))
        &&& post.children_desc(k) == post.desc_view()
    } by {
        let pk = if k < i { k } else { k + 1 };
        assert(pre.labels_at(pk).len() == pre.desc_view().variable_labels.len());
    }
    assert forall|k: int| 0 <= k < post.n_children() implies post.hash_at(k) != h by {
        let pk = if k < i { k } else { k + 1 };
        if pre.hash_at(pk) == h {
            if pk < i {
                assert(pre.hash_at(pk) != pre.hash_at(i));
            } else {
                assert(pre.hash_at(i) != pre.hash_at(pk));
            }
        }
    }
    assert forall|h2: u64| h2 != h implies post.has_hash(h2) == pre.has_hash(h2) by {
        if pre.has_hash(h2) {
            let k = pre.index_of(h2);
            assert(k != i);
            let nk = if k < i { k } else { k - 1 };
            assert(post.hash_at(nk) == h2);
        }
        if post.has_hash(h2) {
            let k = post.index_of(h2);
            let pk = if k < i { k } else { k + 1 };
            assert(pre.hash_at(pk) == h2);
        }
    }
    assert forall|h2: u64| h2 != h && pre.has_hash(h2) implies post.value_of(h2) == pre.value_of(
        h2,
    ) && post.labels_of(h2) == pre.labels_of(h2) by {
        let k = pre.index_of(h2);
        assert(pre.hash_at(k) == h2);
        assert(k != i);
        let nk = if k < i { k } else { k - 1 };
        assert(post.hash_at(nk) == h2);
        lemma_unique_index(post, h2, nk);
        lemma_unique_index(pre, h2, k);
    }
}

impl IntCounterVec {
    /// One filed entry, for relating states in proofs.
    pub open spec fn children_entry(&self, i: int) -> (u64, IntCounter) {
        self.entries()[i]
    }

    /// The descriptor of the child at a position.
    pub open spec fn children_desc(&self, i: int) -> DescView {
        self.entries()[i].1.desc_view()
    }
}

/// The buffered delta a local family files under a hash, zero when none
/// is filed.
pub open spec fn buf_of(ls: Seq<(u64, Vec<String>, u64)>, h: u64) -> u64 {
    if exists|i: int| 0 <= i < ls.len() && (#[trigger] ls[i]).0 == h {
        ls[choose|i: int| 0 <= i < ls.len() && (#[trigger] ls[i]).0 == h].2
    } else {
        0
    }
}

/// With unique hashes, the buffer filed at a position is the buffer of its
/// hash.
proof fn lemma_buf_at(ls: Seq<(u64, Vec<String>, u64)>, h: u64, i: int)
    requires
        forall|a: int, b: int| #![trigger ls[a], ls[b]] 0 <= a < b < ls.len() ==> ls[a].0
            != ls[b].0,
        0 <= i < ls.len(),
        ls[i].0 == h,
    ensures
        buf_of(ls, h) == ls[i].2,
{
    let j = choose|j: int| 0 <= j < ls.len() && (#[trigger] ls[j]).0 == h;
    if j != i {
        if j < i {
            assert(ls[j].0 != ls[i].0);
        } else {
            assert(ls[i].0 != ls[j].0);
        }
    }
}

/// A hash filed nowhere buffers zero.
proof fn lemma_buf_absent(ls: Seq<(u64, Vec<String>, u64)>, h: u64)
    requires
        forall|i: int| 0 <= i < ls.len() ==> (#[trigger] ls[i]).0 != h,
    ensures
        buf_of(ls, h) == 0,
{
    if exists|i: int| 0 <= i < ls.len() && (#[trigger] ls[i]).0 == h {
        let i = choose|i: int| 0 <= i < ls.len() && (#[trigger] ls[i]).0 == h;
        assert(ls[i].0 != h);
    }
}

/// An unsynchronized shadow of a whole family: one buffered delta per
/// label-value combination, moved into the backing family on flush.
#[derive(Debug)]
pub struct LocalIntCounterVec {
    vec: IntCounterVec,
    local: Vec<(u64, Vec<String>, u64)>,
}

impl LocalIntCounterVec {
    /// The backing family.
    pub closed spec fn backing(&self) -> IntCounterVec {
        self.vec
    }

    /// The backing family is well formed, every buffer is filed under the
    /// hash of its label values with the right arity, and no hash is filed
    /// twice.
    pub closed spec fn vec_wf(&self) -> bool {
        &&& self.vec.wf()
        &&& forall|i: int| 0 <= i < self.local@.len() ==> {
            &&& (#[trigger] self.local@[i]).0 == labels_hash(self.local@[i].1.deep_view())
            &&& self.local@[i].1.deep_view().len() == self.vec.desc_view().variable_labels.len()
        }
        &&& forall|a: int, b: int|
            #![trigger self.local@[a], self.local@[b]]
            0 <= a < b < self.local@.len() ==> self.local@[a].0 != self.local@[b].0
    }

    /// The family descriptor of the backing family.
    pub closed spec fn desc_view(&self) -> DescView {
        self.vec.desc_view()
    }

    /// The buffered delta filed under a hash, zero when none is.
    pub closed spec fn buffered_of(&self, h: u64) -> u64 {
        buf_of(self.local@, h)
    }

    /// How many combinations hold a buffer.
    pub closed spec fn local_len(&self) -> nat {
        self.local@.len()
    }

    /// Increase the buffer of one label-value combination, touching no
    /// shared state.
    pub fn inc_by_label_values(&mut self, vals: &Vec<String>, delta: u64) -> (r: Result<(), Error>)
        requires
            old(self).vec_wf(),
        ensures
            final(self).vec_wf(),
            final(self).backing() == old(self).backing(),
            r is Ok <==> vals.deep_view().len() == old(self).desc_view().variable_labels.len(),
            r is Err ==> r == Result::<(), Error>::Err(Error::LabelCardinalityMismatch) && *final(self) == *old(self),
            r is Ok ==> {
                let h = labels_hash(vals.deep_view());
                &&& final(self).buffered_of(h) == inc_result(old(self).buffered_of(h), delta)
                &&& forall|h2: u64| h2 != h ==> final(self).buffered_of(h2) == old(self).buffered_of(h2)
            },
    {
        if vals.len() != self.vec.desc.variable_labels.len() {
            return Err(Error::LabelCardinalityMismatch);
        }
        let h = hash_label_values(vals);
        let mut i: usize = 0;
        while i < self.local.len()
            invariant
                i <= self.local.len(),
                old(self).vec_wf(),
                *self == *old(self),
                h == labels_hash(vals.deep_view()),
                vals.deep_view().len() == old(self).desc_view().variable_labels.len(),
                forall|k: int| 0 <= k < i ==> (#[trigger] self.local@[k]).0 != h,
            decreases self.local.len() - i,
        {
            if self.local[i].0 == h {
                let ghost pre = self.local@;
                let (hh, vv, buffered) = self.local.remove(i);
                let next = buffered.wrapping_add(delta);
                self.local.insert(i, (hh, vv, next));
                proof {
                    assert(self.local@ =~= pre.update(
                        i as int,
                        (pre[i as int].0, pre[i as int].1, self.local@[i as int].2),
                    ));
                    assert forall|k: int| 0 <= k < self.local@.len() implies {
                        &&& (#[trigger] self.local@[k]).0 == labels_hash(
                            self.local@[k].1.deep_view(),
                        )
                        &&& self.local@[k].1.deep_view().len()
                            == self.vec.desc_view().variable_labels.len()
                    } by {
                        assert(pre[k].0 == labels_hash(pre[k].1.deep_view()));
                    }
                    assert forall|a: int, b: int|
                        #![trigger self.local@[a], self.local@[b]]
                        0 <= a < b < self.local@.len() implies self.local@[a].0
                        != self.local@[b].0 by {
                        assert(pre[a].0 != pre[b].0);
                    }
                    lemma_buf_at(pre, h, i as int);
                    lemma_buf_at(self.local@, h, i as int);
                    assert forall|h2: u64| h2 != h implies buf_of(self.local@, h2) == buf_of(
                        pre,
                        h2,
                    ) by {
                        if exists|k: int| 0 <= k < pre.len() && (#[trigger] pre[k]).0 == h2 {
                            let k = choose|k: int|
                                0 <= k < pre.len() && (#[trigger] pre[k]).0 == h2;
                            lemma_buf_at(pre, h2, k);
                            lemma_buf_at(self.local@, h2, k);
                        } else {
                            assert forall|k: int|
                                0 <= k < self.local@.len() implies (#[trigger] self.local@[k]).0
                                != h2 by {
                                assert(pre[k].0 != h2);
                            }
                            lemma_buf_absent(pre, h2);
                            lemma_buf_absent(self.local@, h2);
                        }
                    }
                }
                return Ok(());
            }
            i = i + 1;
        }
        let ghost pre = self.local@;
        self.local.push((h, crate::desc::clone_strings(vals), delta));
        proof {
            assert(self.local@ =~= pre.push(self.local@[pre.len() as int]));
            assert forall|k: int| 0 <= k < self.local@.len() implies {
                &&& (#[trigger] self.local@[k]).0 == labels_hash(self.local@[k].1.deep_view())
                &&& self.local@[k].1.deep_view().len()
                    == self.vec.desc_view().variable_labels.len()
            } by {
                if k < pre.len() {
                    assert(pre[k].0 == labels_hash(pre[k].1.deep_view()));
                }
            }
            assert forall|a: int, b: int|
                #![trigger self.local@[a], self.local@[b]]
                0 <= a < b < self.local@.len() implies self.local@[a].0 != self.local@[b].0 by {
                if b < pre.len() {
                    assert(pre[a].0 != pre[b].0);
                } else {
                    assert(pre[a].0 != h);
                }
            }
            lemma_buf_absent(pre, h);
            lemma_buf_at(self.local@, h, pre.len() as int);
            assert forall|h2: u64| h2 != h implies buf_of(self.local@, h2) == buf_of(pre, h2) by {
                if exists|k: int| 0 <= k < pre.len() && (#[trigger] pre[k]).0 == h2 {
                    let k = choose|k: int| 0 <= k < pre.len() && (#[trigger] pre[k]).0 == h2;
                    lemma_buf_at(pre, h2, k);
                    lemma_buf_at(self.local@, h2, k);
                } else {
                    assert forall|k: int|
                        0 <= k < self.local@.len() implies (#[trigger] self.local@[k]).0
                        != h2 by {
                        if k < pre.len() {
                            assert(pre[k].0 != h2);
                        }
                    }
                    lemma_buf_absent(pre, h2);
                    lemma_buf_absent(self.local@, h2);
                }
            }
        }
        Ok(())
    }

    /// Remove one combination from the buffer and from the backing family:
    /// its buffer is dropped either way, and the backing removal decides the
    /// result — `MetricNotFound` when the combination never existed there.
    pub fn remove_label_values(&mut self, vals: &Vec<String>) -> (r: Result<(), Error>)
        requires
            old(self).vec_wf(),
        ensures
            final(self).vec_wf(),
            final(self).desc_view() == old(self).desc_view(),
            vals.deep_view().len() != old(self).desc_view().variable_labels.len() ==> r
                == Result::<(), Error>::Err(Error::LabelCardinalityMismatch) && *final(self)
                == *old(self),
            vals.deep_view().len() == old(self).desc_view().variable_labels.len() ==> {
                let h = labels_hash(vals.deep_view());
                &&& final(self).buffered_of(h) == 0
                &&& forall|h2: u64| h2 != h ==> final(self).buffered_of(h2) == old(self).buffered_of(h2)
                &&& if old(self).backing().has_hash(h) {
                    &&& r is Ok
                    &&& !final(self).backing().has_hash(h)
                    &&& forall|h2: u64| h2 != h ==> final(self).backing().has_hash(h2) == old(self).backing().has_hash(h2)
                    &&& forall|h2: u64| h2 != h && old(self).backing().has_hash(h2) ==> final(self).backing().value_of(h2) == old(self).backing().value_of(h2)
                } else {
                    r == Result::<(), Error>::Err(Error::MetricNotFound) && final(self).backing()
                        == old(self).backing()
                }
            },
    {
        if vals.len() != self.vec.desc.variable_labels.len() {
            return Err(Error::LabelCardinalityMismatch);
        }
        let h = hash_label_values(vals);
        let mut i: usize = 0;
        while i < self.local.len()
            invariant
                i <= self.local.len(),
                old(self).vec_wf(),
                *self == *old(self),
                h == labels_hash(vals.deep_view()),
                vals.deep_view().len() == old(self).desc_view().variable_labels.len(),
                forall|k: int| 0 <= k < i ==> (#[trigger] self.local@[k]).0 != h,
            decreases self.local.len() - i,
        {
            if self.local[i].0 == h {
                let ghost pre = self.local@;
                let _ = self.local.remove(i);
                proof {
                    assert(self.local@ =~= pre.remove(i as int));
                    assert forall|k: int| 0 <= k < self.local@.len() implies {
                        &&& (#[trigger] self.local@[k]).0 == labels_hash(
                            self.local@[k].1.deep_view(),
                        )
                        &&& self.local@[k].1.deep_view().len()
                            == self.vec.desc_view().variable_labels.len()
                    } by {
                        let pk = if k < i { k } else { k + 1 };
                        assert(pre[pk].0 == labels_hash(pre[pk].1.deep_view()));
                    }
                    assert forall|a: int, b: int|
                        #![trigger self.local@[a], self.local@[b]]
                        0 <= a < b < self.local@.len() implies self.local@[a].0
                        != self.local@[b].0 by {
                        let pa = if a < i { a } else { a + 1 };
                        let pb = if b < i { b } else { b + 1 };
                        assert(pre[pa].0 != pre[pb].0);
                    }
                    // The one entry under the hash is gone; every other
                    // buffer keeps its place.
                    assert forall|k: int|
                        0 <= k < self.local@.len() implies (#[trigger] self.local@[k]).0
                        != h by {
                        let pk = if k < i { k } else { k + 1 };
                        if pre[pk].0 == h {
                            if pk < i {
                                assert(pre[pk].0 != pre[i as int].0);
                            } else {
                                assert(pre[i as int].0 != pre[pk].0);
                            }
                        }
                    }
                    lemma_buf_absent(self.local@, h);
                    assert forall|h2: u64| h2 != h implies buf_of(self.local@, h2) == buf_of(
                        pre,
                        h2,
                    ) by {
                        if exists|k: int| 0 <= k < pre.len() && (#[trigger] pre[k]).0 == h2 {
                            let k = choose|k: int|
                                0 <= k < pre.len() && (#[trigger] pre[k]).0 == h2;
                            assert(k != i);
                            let nk = if k < i { k } else { k - 1 };
                            assert(self.local@[nk].0 == h2);
                            lemma_buf_at(pre, h2, k);
                            lemma_buf_at(self.local@, h2, nk);
                        } else {
                            assert forall|k: int|
                                0 <= k < self.local@.len() implies (
                            #[trigger] self.local@[k]).0 != h2 by {
                                let pk = if k < i { k } else { k + 1 };
                                assert(pre[pk].0 != h2);
                            }
                            lemma_buf_absent(pre, h2);
                            lemma_buf_absent(self.local@, h2);
                        }
                    }
                }
                let r = self.vec.remove_label_values(vals);
                return r;
            }
            i = i + 1;
        }
        proof {
            lemma_buf_absent(self.local@, h);
        }
        let r = self.vec.remove_label_values(vals);
        r
    }

    /// Hand the backing family back, for collection or registration once
    /// the buffering context is done with it.
    pub fn into_inner(self) -> (r: IntCounterVec)
        ensures
            r == self.backing(),
    {
        self.vec
    }

    /// Move every buffered delta into the backing family in one pass: each
    /// combination's backing counter grows by exactly its buffer — created
    /// at the buffered amount when absent — a combination with an empty
    /// buffer is not touched, and the buffers are cleared.
    pub fn flush(&mut self)
        requires
            old(self).vec_wf(),
        ensures
            final(self).vec_wf(),
            final(self).local_len() == 0,
            forall|h: u64| #[trigger] final(self).buffered_of(h) == 0,
            final(self).desc_view() == old(self).desc_view(),
            forall|h: u64| #[trigger] old(self).buffered_of(h) != 0 ==> final(self).backing().has_hash(h) && final(self).backing().value_of(h) == inc_result(
                if old(self).backing().has_hash(h) {
                    old(self).backing().value_of(h)
                } else {
                    0
                },
                old(self).buffered_of(h),
            ),
            forall|h: u64| #[trigger] old(self).buffered_of(h) == 0 ==> final(self).backing().has_hash(h) == old(self).backing().has_hash(h) && (old(self).backing().has_hash(h) ==> final(self).backing().value_of(h) == old(self).backing().value_of(h)),
    {
        let ghost pre_vec = self.vec;
        let ghost ls = self.local@;
        let mut i: usize = 0;
        while i < self.local.len()
            invariant
                i <= self.local.len(),
                self.local@ == ls,
                old(self).vec_wf(),
                ls == old(self).local@,
                pre_vec == old(self).vec,
                self.vec.wf(),
                self.vec.desc_view() == pre_vec.desc_view(),
                forall|k: int| 0 <= k < i && (#[trigger] ls[k]).2 != 0 ==> self.vec.has_hash(
                    ls[k].0,
                ) && self.vec.value_of(ls[k].0) == inc_result(
                    if pre_vec.has_hash(ls[k].0) {
                        pre_vec.value_of(ls[k].0)
                    } else {
                        0
                    },
                    ls[k].2,
                ),
                forall|k: int| 0 <= k < i && (#[trigger] ls[k]).2 == 0 ==> self.vec.has_hash(
                    ls[k].0,
                ) == pre_vec.has_hash(ls[k].0) && (pre_vec.has_hash(ls[k].0)
                    ==> self.vec.value_of(ls[k].0) == pre_vec.value_of(ls[k].0)),
                forall|k: int| i <= k < ls.len() ==> self.vec.has_hash((#[trigger] ls[k]).0)
                    == pre_vec.has_hash(ls[k].0) && (pre_vec.has_hash(ls[k].0)
                    ==> self.vec.value_of(ls[k].0) == pre_vec.value_of(ls[k].0)),
                forall|h: u64|
                    (forall|k: int| 0 <= k < ls.len() ==> (#[trigger] ls[k]).0 != h)
                        ==> #[trigger] self.vec.has_hash(h) == pre_vec.has_hash(h) && (
                    pre_vec.has_hash(h) ==> self.vec.value_of(h) == pre_vec.value_of(h)),
            decreases self.local.len() - i,
        {
            let buffered = self.local[i].2;
            if buffered != 0 {
                let vals = crate::desc::clone_strings(&self.local[i].1);
                proof {
                    assert(ls[i as int].0 == labels_hash(ls[i as int].1.deep_view()));
                    assert(vals.deep_view() == ls[i as int].1.deep_view());
                }
                let r = self.vec.inc_by_label_values(&vals, buffered);
                proof {
                    let h = ls[i as int].0;
                    assert(r is Ok);
                    assert forall|k: int|
                        0 <= k < i && (#[trigger] ls[k]).2 != 0 implies self.vec.has_hash(
                        ls[k].0,
                    ) && self.vec.value_of(ls[k].0) == inc_result(
                        if pre_vec.has_hash(ls[k].0) {
                            pre_vec.value_of(ls[k].0)
                        } else {
                            0
                        },
                        ls[k].2,
                    ) by {
                        assert(ls[k].0 != h);
                    }
                    assert forall|k: int|
                        0 <= k < i && (#[trigger] ls[k]).2 == 0 implies self.vec.has_hash(
                        ls[k].0,
                    ) == pre_vec.has_hash(ls[k].0) && (pre_vec.has_hash(ls[k].0)
                        ==> self.vec.value_of(ls[k].0) == pre_vec.value_of(ls[k].0)) by {
                        assert(ls[k].0 != h);
                    }
                    assert forall|k: int|
                        i + 1 <= k < ls.len() implies self.vec.has_hash((#[trigger] ls[k]).0)
                        == pre_vec.has_hash(ls[k].0) && (pre_vec.has_hash(ls[k].0)
                        ==> self.vec.value_of(ls[k].0) == pre_vec.value_of(ls[k].0)) by {
                        assert(ls[i as int].0 != ls[k].0);
                    }
                }
            }
            i = i + 1;
        }
        self.local.clear();
        proof {
            assert forall|h: u64| #[trigger] buf_of(self.local@, h) == 0 by {
                lemma_buf_absent(self.local@, h);
            }
            assert forall|h: u64| #[trigger] buf_of(ls, h) != 0 implies self.vec.has_hash(h)
                && self.vec.value_of(h) == inc_result(
                if pre_vec.has_hash(h) {
                    pre_vec.value_of(h)
                } else {
                    0
                },
                buf_of(ls, h),
            ) by {
                if exists|k: int| 0 <= k < ls.len() && (#[trigger] ls[k]).0 == h {
                    let k = choose|k: int| 0 <= k < ls.len() && (#[trigger] ls[k]).0 == h;
                    lemma_buf_at(ls, h, k);
                } else {
                    assert forall|k: int| 0 <= k < ls.len() implies (#[trigger] ls[k]).0
                        != h by {}
                    lemma_buf_absent(ls, h);
                }
            }
            assert forall|h: u64| #[trigger] buf_of(ls, h) == 0 implies self.vec.has_hash(h)
                == pre_vec.has_hash(h) && (pre_vec.has_hash(h) ==> self.vec.value_of(h)
                == pre_vec.value_of(h)) by {
                if exists|k: int| 0 <= k < ls.len() && (#[trigger] ls[k]).0 == h {
                    let k = choose|k: int| 0 <= k < ls.len() && (#[trigger] ls[k]).0 == h;
                    lemma_buf_at(ls, h, k);
                } else {
                    assert forall|k: int| 0 <= k < ls.len() implies (#[trigger] ls[k]).0
                        != h by {}
                }
            }
        }
    }
}

} // verus!
