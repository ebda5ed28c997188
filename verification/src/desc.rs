//! Immutable descriptors identifying a metric family.
//!
//! A descriptor carries the family's fully-qualified name, its help text,
//! the ordered variable-label names and the constant label pairs, and two
//! derived hashes: the *identity hash*, which distinguishes one family plus
//! constant-label combination from every other, and the *dimension hash*,
//! which captures the family's shape (name, help and label names) so that
//! an incompatible re-registration under the same name can be detected.
//! Constant labels are kept sorted by name, which makes both hashes
//! independent of the order in which constant labels were supplied.

use crate::errors::Error;
use crate::lexical::{lemma_lex_le_total, lex_le, str_eq, str_le};
use vstd::multiset::Multiset;
use vstd::prelude::*;

verus! {

broadcast use vstd::seq_lib::group_to_multiset_ensures, vstd::multiset::group_multiset_axioms;

/// One mixing step of the 64-bit FNV-1a fold.
pub open spec fn fnv_mix(h: u64, v: u64) -> u64 {
    vstd::wrapping::u64_specs::wrapping_mul(h ^ v, 0x100000001b3)
}

/// The FNV-1a fold of a character sequence onto an accumulator.
pub open spec fn fnv_chars(h: u64, s: Seq<char>) -> u64
    decreases s.len(),
{
    if s.len() == 0 {
        h
    } else {
        fnv_chars(fnv_mix(h, s[0] as u64), s.drop_first())
    }
}

/// A string absorbed into the accumulator, closed with a terminator that no
/// character can be, so that neighbouring strings cannot run together.
pub open spec fn fnv_text(h: u64, s: Seq<char>) -> u64 {
    fnv_mix(fnv_chars(h, s), 0x110000)
}

/// A list of names absorbed in order.
pub open spec fn fnv_names(h: u64, names: Seq<Seq<char>>) -> u64
    decreases names.len(),
{
    if names.len() == 0 {
        h
    } else {
        fnv_names(fnv_text(h, names[0]), names.drop_first())
    }
}

/// A list of name/value pairs absorbed in order.
pub open spec fn fnv_pairs(h: u64, pairs: Seq<(Seq<char>, Seq<char>)>) -> u64
    decreases pairs.len(),
{
    if pairs.len() == 0 {
        h
    } else {
        fnv_pairs(fnv_text(fnv_text(h, pairs[0].0), pairs[0].1), pairs.drop_first())
    }
}

/// The names of a pair list, in order.
pub open spec fn pair_names(pairs: Seq<(Seq<char>, Seq<char>)>) -> Seq<Seq<char>> {
    Seq::new(pairs.len(), |i: int| pairs[i].0)
}

/// The identity hash of a family: its name, its constant label pairs in
/// canonical order, and its variable-label names in declared order.
pub open spec fn identity_hash(
    name: Seq<char>,
    consts: Seq<(Seq<char>, Seq<char>)>,
    vars: Seq<Seq<char>>,
) -> u64 {
    fnv_names(fnv_pairs(fnv_text(0xcbf29ce484222325, name), consts), vars)
}

/// The dimension hash of a family: its name, its help text, its constant
/// label names in canonical order, and its variable-label names in declared
/// order.
pub open spec fn dimension_hash(
    name: Seq<char>,
    help: Seq<char>,
    const_names: Seq<Seq<char>>,
    vars: Seq<Seq<char>>,
) -> u64 {
    fnv_names(fnv_names(fnv_text(fnv_text(0xcbf29ce484222325, name), help), const_names), vars)
}

/// No two of the given label names are equal.
pub open spec fn distinct_names(names: Seq<Seq<char>>) -> bool {
    forall|i: int, j: int| 0 <= i < j < names.len() ==> names[i] != names[j]
}

/// The pair list is sorted by name.
pub open spec fn sorted_by_name(pairs: Seq<(Seq<char>, Seq<char>)>) -> bool {
    forall|i: int, j: int| 0 <= i < j < pairs.len() ==> lex_le(pairs[i].0, pairs[j].0)
}

/// Every label name of a family, constant names first, then the declared
/// variable names.
pub open spec fn all_label_names(
    consts: Seq<(Seq<char>, Seq<char>)>,
    vars: Seq<Seq<char>>,
) -> Seq<Seq<char>> {
    pair_names(consts) + vars
}

/// The mathematical content of a descriptor.
pub struct DescView {
    /// The fully-qualified family name.
    pub fq_name: Seq<char>,
    /// The help text.
    pub help: Seq<char>,
    /// The declared variable-label names, in order.
    pub variable_labels: Seq<Seq<char>>,
    /// The constant label pairs, sorted by name.
    pub const_labels: Seq<(Seq<char>, Seq<char>)>,
    /// The derived identity hash.
    pub id: u64,
    /// The derived dimension hash.
    pub dim_hash: u64,
}

impl DescView {
    /// The derived fields agree with the canonical fields and the label
    /// names do not collide.
    pub open spec fn wf(&self) -> bool {
        &&& sorted_by_name(self.const_labels)
        &&& distinct_names(all_label_names(self.const_labels, self.variable_labels))
        &&& self.id == identity_hash(self.fq_name, self.const_labels, self.variable_labels)
        &&& self.dim_hash == dimension_hash(
            self.fq_name,
            self.help,
            pair_names(self.const_labels),
            self.variable_labels,
        )
    }
}

/// The immutable identity and shape record of a metric family.
#[derive(Debug)]
pub struct Desc {
    /// The fully-qualified family name.
    pub fq_name: String,
    /// The help text.
    pub help: String,
    /// The declared variable-label names, in order.
    pub variable_labels: Vec<String>,
    /// The constant label pairs, sorted by name.
    pub const_labels: Vec<(String, String)>,
    /// The derived identity hash.
    pub id: u64,
    /// The derived dimension hash.
    pub dim_hash: u64,
}

impl View for Desc {
    type V = DescView;

    open spec fn view(&self) -> DescView {
        DescView {
            fq_name: self.fq_name@,
            help: self.help@,
            variable_labels: self.variable_labels.deep_view(),
            const_labels: self.const_labels.deep_view(),
            id: self.id,
            dim_hash: self.dim_hash,
        }
    }
}

impl DeepView for Desc {
    type V = DescView;

    open spec fn deep_view(&self) -> DescView {
        self.view()
    }
}

impl Clone for Desc {
    /// A clone carries the same mathematical content.
    fn clone(&self) -> (r: Self)
        ensures
            r@ == self@,
    {
        let r = Desc {
            fq_name: self.fq_name.clone(),
            help: self.help.clone(),
            variable_labels: clone_strings(&self.variable_labels),
            const_labels: clone_pairs(&self.const_labels),
            id: self.id,
            dim_hash: self.dim_hash,
        };
        proof {
            assert(r@.variable_labels =~= self@.variable_labels);
            assert(r@.const_labels =~= self@.const_labels);
        }
        r
    }
}

/// Copy a vector of strings, keeping its content.
pub fn clone_strings(v: &Vec<String>) -> (r: Vec<String>)
    ensures
        r.deep_view() == v.deep_view(),
{
    let mut r: Vec<String> = Vec::new();
    let mut i: usize = 0;
    while i < v.len()
        invariant
            i <= v.len(),
            r.len() == i,
            forall|k: int| 0 <= k < i ==> r.deep_view()[k] == v.deep_view()[k],
        decreases v.len() - i,
    {
        r.push(v[i].clone());
        i = i + 1;
    }
    proof {
        assert(r.deep_view() =~= v.deep_view());
    }
    r
}

/// Copy a vector of string pairs, keeping its content.
pub fn clone_pairs(v: &Vec<(String, String)>) -> (r: Vec<(String, String)>)
    ensures
        r.deep_view() == v.deep_view(),
{
    let mut r: Vec<(String, String)> = Vec::new();
    let mut i: usize = 0;
    while i < v.len()
        invariant
            i <= v.len(),
            r.len() == i,
            forall|k: int| 0 <= k < i ==> r.deep_view()[k] == v.deep_view()[k],
        decreases v.len() - i,
    {
        let p = &v[i];
        r.push((p.0.clone(), p.1.clone()));
        i = i + 1;
    }
    proof {
        assert(r.deep_view() =~= v.deep_view());
    }
    r
}

/// Absorb one string into a running hash and close it with the terminator.
fn hash_text(h: u64, s: &str) -> (r: u64)
    ensures
        r == fnv_text(h, s@),
{
    let n = s.unicode_len();
    let mut acc = h;
    let mut i: usize = 0;
    proof {
        assert(s@.skip(0) =~= s@);
    }
    while i < n
        invariant
            i <= n,
            n == s@.len(),
            fnv_chars(acc, s@.skip(i as int)) == fnv_chars(h, s@),
        decreases n - i,
    {
        let c = s.get_char(i);
        proof {
            assert(s@.skip(i as int).drop_first() =~= s@.skip(i as int + 1));
        }
        acc = (acc ^ (c as u64)).wrapping_mul(0x100000001b3);
        i = i + 1;
    }
    proof {
        assert(s@.skip(n as int) =~= Seq::<char>::empty());
    }
    (acc ^ 0x110000).wrapping_mul(0x100000001b3)
}

/// Absorb a list of names.
pub(crate) fn hash_names(h: u64, names: &Vec<String>) -> (r: u64)
    ensures
        r == fnv_names(h, names.deep_view()),
{
    let mut acc = h;
    let mut i: usize = 0;
    proof {
        assert(names.deep_view().skip(0) =~= names.deep_view());
    }
    while i < names.len()
        invariant
            i <= names.len(),
            fnv_names(acc, names.deep_view().skip(i as int)) == fnv_names(h, names.deep_view()),
        decreases names.len() - i,
    {
        proof {
            assert(names.deep_view().skip(i as int).drop_first() =~= names.deep_view().skip(
                i as int + 1,
            ));
        }
        acc = hash_text(acc, names[i].as_str());
        i = i + 1;
    }
    proof {
        assert(names.deep_view().skip(names.len() as int) =~= Seq::<Seq<char>>::empty());
    }
    acc
}

/// Absorb a list of name/value pairs.
fn hash_pairs(h: u64, pairs: &Vec<(String, String)>) -> (r: u64)
    ensures
        r == fnv_pairs(h, pairs.deep_view()),
{
    let mut acc = h;
    let mut i: usize = 0;
    proof {
        assert(pairs.deep_view().skip(0) =~= pairs.deep_view());
    }
    while i < pairs.len()
        invariant
            i <= pairs.len(),
            fnv_pairs(acc, pairs.deep_view().skip(i as int)) == fnv_pairs(h, pairs.deep_view()),
        decreases pairs.len() - i,
    {
        proof {
            assert(pairs.deep_view().skip(i as int).drop_first() =~= pairs.deep_view().skip(
                i as int + 1,
            ));
        }
        acc = hash_text(acc, pairs[i].0.as_str());
        acc = hash_text(acc, pairs[i].1.as_str());
        i = i + 1;
    }
    proof {
        assert(pairs.deep_view().skip(pairs.len() as int) =~= Seq::<(Seq<char>, Seq<char>)>::empty());
    }
    acc
}

/// Absorb the names of a pair list.
fn hash_pair_names(h: u64, pairs: &Vec<(String, String)>) -> (r: u64)
    ensures
        r == fnv_names(h, pair_names(pairs.deep_view())),
{
    let mut acc = h;
    let mut i: usize = 0;
    proof {
        assert(pair_names(pairs.deep_view()).skip(0) =~= pair_names(pairs.deep_view()));
    }
    while i < pairs.len()
        invariant
            i <= pairs.len(),
            fnv_names(acc, pair_names(pairs.deep_view()).skip(i as int)) == fnv_names(
                h,
                pair_names(pairs.deep_view()),
            ),
        decreases pairs.len() - i,
    {
        proof {
            assert(pair_names(pairs.deep_view()).skip(i as int).drop_first() =~= pair_names(
                pairs.deep_view(),
            ).skip(i as int + 1));
        }
        acc = hash_text(acc, pairs[i].0.as_str());
        i = i + 1;
    }
    proof {
        assert(pair_names(pairs.deep_view()).skip(pairs.len() as int) =~= Seq::<
            Seq<char>,
        >::empty());
    }
    acc
}

/// Sort label pairs by name into canonical order, keeping the collection of
/// pairs.
fn sort_pairs(pairs: Vec<(String, String)>) -> (r: Vec<(String, String)>)
    ensures
        sorted_by_name(r.deep_view()),
        r.deep_view().to_multiset() == pairs.deep_view().to_multiset(),
        r.deep_view().len() == pairs.deep_view().len(),
{

    let ghost orig = pairs.deep_view();
    let mut src = pairs;
    let mut out: Vec<(String, String)> = Vec::new();
    while src.len() > 0
        invariant
            sorted_by_name(out.deep_view()),
            out.deep_view().to_multiset().add(src.deep_view().to_multiset())
                == orig.to_multiset(),
            forall|a: int, b: int|
                0 <= a < out.deep_view().len() && 0 <= b < src.deep_view().len() ==> lex_le(
                    out.deep_view()[a].0,
                    src.deep_view()[b].0,
                ),
        decreases src.len(),
    {
        let mut m: usize = 0;
        let mut j: usize = 1;
        proof {
            crate::lexical::lemma_lex_le_refl(src.deep_view()[0].0);
        }
        while j < src.len()
            invariant
                m < j <= src.len(),
                src.len() > 0,
                forall|k: int| 0 <= k < j ==> lex_le(src.deep_view()[m as int].0, src.deep_view()[k].0),
            decreases src.len() - j,
        {
            if !str_le(src[m].0.as_str(), src[j].0.as_str()) {
                proof {
                    lemma_lex_le_total(src.deep_view()[m as int].0, src.deep_view()[j as int].0);
                    assert forall|k: int| 0 <= k < j + 1 implies lex_le(
                        src.deep_view()[j as int].0,
                        src.deep_view()[k].0,
                    ) by {
                        if k == j {
                            crate::lexical::lemma_lex_le_refl(src.deep_view()[k].0);
                        } else {
                            crate::lexical::lemma_lex_le_trans(
                                src.deep_view()[j as int].0,
                                src.deep_view()[m as int].0,
                                src.deep_view()[k].0,
                            );
                        }
                    }
                }
                m = j;
            }
            j = j + 1;
        }
        let ghost pre = src.deep_view();
        let p = src.remove(m);
        proof {
            assert(src.deep_view() =~= pre.remove(m as int));
            assert(p.deep_view() == pre[m as int]);
        }
        let ghost pre_out = out.deep_view();
        let ghost picked = pre[m as int];
        out.push(p);
        proof {
            assert(out.deep_view() =~= pre_out.push(picked));
            assert(out.deep_view() == pre_out.push(picked));
            assert(pre_out.push(picked).to_multiset() =~= pre_out.to_multiset().insert(picked));
            assert(pre.contains(picked));
            assert(pre.to_multiset().count(picked) > 0);
            assert(src.deep_view() == pre.remove(m as int));
            assert(pre.remove(m as int).to_multiset() == pre.to_multiset().remove(picked));
            assert(out.deep_view().to_multiset().add(src.deep_view().to_multiset())
                =~= pre_out.to_multiset().add(pre.to_multiset()));
        }
    }
    proof {
        assert(src.deep_view() =~= Seq::<(Seq<char>, Seq<char>)>::empty());
        assert(src.deep_view().to_multiset() =~= Multiset::<(Seq<char>, Seq<char>)>::empty());
        assert(out.deep_view().to_multiset() =~= orig.to_multiset());
        assert(out.deep_view().to_multiset().len() == out.deep_view().len());
        assert(orig.to_multiset().len() == orig.len());
    }
    out
}

impl Desc {
    /// Build a descriptor from a family name, its help text, the declared
    /// variable-label names and the constant labels.  The constant labels
    /// are brought into canonical order and the two hashes are derived;
    /// construction fails exactly when two label names collide.
    pub fn new(
        fq_name: String,
        help: String,
        variable_labels: Vec<String>,
        const_labels: Vec<(String, String)>,
    ) -> (r: Result<Desc, Error>)
        ensures
            r is Ok <==> distinct_names(
                all_label_names(const_labels.deep_view(), variable_labels.deep_view()),
            ),
            r is Err ==> r == Result::<Desc, Error>::Err(Error::DuplicateLabel),
            r matches Ok(d) ==> {
                &&& d@.fq_name == fq_name@
                &&& d@.help == help@
                &&& d@.variable_labels == variable_labels.deep_view()
                &&& d@.const_labels.to_multiset() == const_labels.deep_view().to_multiset()
                &&& d@.const_labels.len() == const_labels.deep_view().len()
                &&& d@.wf()
            },
    {
        let ghost given_names = all_label_names(
            const_labels.deep_view(),
            variable_labels.deep_view(),
        );
        // Gather every label name, constant names first.
        let mut names: Vec<String> = Vec::new();
        let mut i: usize = 0;
        while i < const_labels.len()
            invariant
                given_names == all_label_names(const_labels.deep_view(), variable_labels.deep_view()),
                i <= const_labels.len(),
                names.len() == i,
                forall|k: int| 0 <= k < i ==> names.deep_view()[k] == given_names[k],
            decreases const_labels.len() - i,
        {
            names.push(const_labels[i].0.clone());
            proof {
                assert(given_names[i as int] == const_labels.deep_view()[i as int].0);
                assert(names.deep_view()[i as int] == const_labels.deep_view()[i as int].0);
            }
            i = i + 1;
        }
        let cn = const_labels.len();
        let mut i: usize = 0;
        while i < variable_labels.len()
            invariant
                given_names == all_label_names(const_labels.deep_view(), variable_labels.deep_view()),
                i <= variable_labels.len(),
                names.len() == cn + i,
                cn == const_labels.len(),
                forall|k: int| 0 <= k < cn + i ==> names.deep_view()[k] == given_names[k],
            decreases variable_labels.len() - i,
        {
            names.push(variable_labels[i].clone());
            proof {
                assert(given_names[cn + i as int] == variable_labels.deep_view()[i as int]);
                assert(names.deep_view()[cn + i as int] == variable_labels.deep_view()[
                    i as int
                ]);
            }
            i = i + 1;
        }
        proof {
            assert(names.deep_view() =~= given_names);
        }
        // Reject colliding label names.
        let mut i: usize = 0;
        while i < names.len()
            invariant
                given_names == all_label_names(const_labels.deep_view(), variable_labels.deep_view()),
                i <= names.len(),
                names.deep_view() == given_names,
                forall|a: int, b: int| 0 <= a < b < names.len() && a < i ==> given_names[a]
                    != given_names[b],
            decreases names.len() - i,
        {
            let mut j: usize = i + 1;
            while j < names.len()
                invariant
                    given_names == all_label_names(const_labels.deep_view(), variable_labels.deep_view()),
                    i < j <= names.len(),
                    names.deep_view() == given_names,
                    forall|b: int| i < b < j ==> given_names[i as int] != given_names[b],
                decreases names.len() - j,
            {
                if str_eq(names[i].as_str(), names[j].as_str()) {
                    proof {
                        assert(given_names[i as int] == given_names[j as int]);
                        assert(!distinct_names(given_names));
                    }
                    return Err(Error::DuplicateLabel);
                }
                j = j + 1;
            }
            i = i + 1;
        }
        // Canonical constant-label order, then the derived hashes.
        let consts = sort_pairs(const_labels);
        proof {
            lemma_sorted_multiset_names(consts.deep_view(), given_names, variable_labels.deep_view());
        }
        let h = hash_text(0xcbf29ce484222325, fq_name.as_str());
        let id = hash_names(hash_pairs(h, &consts), &variable_labels);
        let dim_hash = hash_names(
            hash_pair_names(hash_text(h, help.as_str()), &consts),
            &variable_labels,
        );
        Ok(Desc { fq_name, help, variable_labels, const_labels: consts, id, dim_hash })
    }
}

/// Reordering the constant labels reorders their names, so distinctness of
/// the combined label names survives the canonical sort.
proof fn lemma_sorted_multiset_names(
    consts: Seq<(Seq<char>, Seq<char>)>,
    given_names: Seq<Seq<char>>,
    vars: Seq<Seq<char>>,
)
    requires
        exists|before: Seq<(Seq<char>, Seq<char>)>|
            consts.to_multiset() == before.to_multiset() && given_names == all_label_names(
                before,
                vars,
            ),
        distinct_names(given_names),
    ensures
        distinct_names(all_label_names(consts, vars)),
{

    let before = choose|before: Seq<(Seq<char>, Seq<char>)>|
        consts.to_multiset() == before.to_multiset() && given_names == all_label_names(
            before,
            vars,
        );
    assert(consts.len() == before.len()) by {
        assert(consts.to_multiset().len() == consts.len());
        assert(before.to_multiset().len() == before.len());
    }
    assert forall|i: int, j: int|
        0 <= i < j < all_label_names(consts, vars).len() implies all_label_names(consts, vars)[i]
        != all_label_names(consts, vars)[j] by {
        let now = all_label_names(consts, vars);
        if now[i] == now[j] {
            let x = now[i];
            // Two occurrences of the name now mean two occurrences before,
            // contradicting the distinctness that was checked.
            lemma_name_count(consts, before, given_names, vars, x, i, j);
            let (b1, b2) = choose|b1: int, b2: int|
                0 <= b1 < given_names.len() && 0 <= b2 < given_names.len() && b1 != b2
                    && given_names[b1] == x && given_names[b2] == x;
            if b1 < b2 {
                assert(given_names[b1] != given_names[b2]);
            } else {
                assert(given_names[b2] != given_names[b1]);
            }
        }
    }
}

/// Helper for [`lemma_sorted_multiset_names`]: a name occurring at two
/// positions after the sort occurred at two positions before it.
proof fn lemma_name_count(
    consts: Seq<(Seq<char>, Seq<char>)>,
    before: Seq<(Seq<char>, Seq<char>)>,
    given_names: Seq<Seq<char>>,
    vars: Seq<Seq<char>>,
    x: Seq<char>,
    i: int,
    j: int,
)
    requires
        consts.to_multiset() == before.to_multiset(),
        given_names == all_label_names(before, vars),
        consts.len() == before.len(),
        0 <= i < j < all_label_names(consts, vars).len(),
        all_label_names(consts, vars)[i] == x,
        all_label_names(consts, vars)[j] == x,
    ensures
        exists|b1: int, b2: int|
            0 <= b1 < given_names.len() && 0 <= b2 < given_names.len() && b1 != b2
                && given_names[b1] == x && given_names[b2] == x,
{

    let cn = consts.len() as int;
    if i >= cn {
        // Both positions fall among the variable names, which the sort did
        // not touch.
        assert(given_names[before.len() + (i - cn)] == x);
        assert(given_names[before.len() + (j - cn)] == x);
    } else if j >= cn {
        // One constant name and one variable name: the constant pair also
        // occurs somewhere before the sort.
        let p = consts[i];
        assert(consts.to_multiset().count(p) > 0);
        assert(before.contains(p));
        let bi = choose|bi: int| 0 <= bi < before.len() && before[bi] == p;
        assert(given_names[bi] == x);
        assert(given_names[before.len() + (j - cn)] == x);
    } else {
        // Two constant names.  The two pairs are distinct positions of the
        // sorted list; find them both in the unsorted list.
        let p = consts[i];
        let q = consts[j];
        if p == q {
            // The same pair occurs twice in the multiset, so twice before.
            assert(consts.remove(j).to_multiset() == consts.to_multiset().remove(q));
            assert(consts.remove(j)[i] == p);
            assert(consts.remove(j).to_multiset().count(p) > 0);
            assert(before.to_multiset().count(p) >= 2);
            lemma_two_occurrences(before, p);
            let (b1, b2) = choose|b1: int, b2: int|
                0 <= b1 < b2 < before.len() && before[b1] == p && before[b2] == p;
            assert(given_names[b1] == x);
            assert(given_names[b2] == x);
        } else {
            assert(consts.to_multiset().count(p) > 0);
            assert(before.contains(p));
            assert(consts.to_multiset().count(q) > 0);
            assert(before.contains(q));
            let b1 = choose|b1: int| 0 <= b1 < before.len() && before[b1] == p;
            let b2 = choose|b2: int| 0 <= b2 < before.len() && before[b2] == q;
            assert(given_names[b1] == x);
            assert(given_names[b2] == x);
            assert(b1 != b2);
        }
    }
}

/// A multiset count of at least two yields two distinct positions.
proof fn lemma_two_occurrences<T>(s: Seq<T>, x: T)
    requires
        s.to_multiset().count(x) >= 2,
    ensures
        exists|b1: int, b2: int| 0 <= b1 < b2 < s.len() && s[b1] == x && s[b2] == x,
    decreases s.len(),
{

    assert(s.contains(x));
    let b1 = choose|b1: int| 0 <= b1 < s.len() && s[b1] == x;
    assert(s.remove(b1).to_multiset() == s.to_multiset().remove(x));
    assert(s.remove(b1).to_multiset().count(x) >= 1);
    assert(s.remove(b1).contains(x));
    let r = choose|r: int| 0 <= r < s.remove(b1).len() && s.remove(b1)[r] == x;
    if r < b1 {
        assert(s[r] == x);
    } else {
        assert(s[r + 1] == x);
    }
}

} // verus!
