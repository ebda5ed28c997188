//! Pieces shared by every concrete metric value: the rendering of a
//! sample's label pairs from its family descriptor and its variable-label
//! values, and the hash under which a label-partitioned container files one
//! label-value combination.

use crate::desc::{fnv_names, Desc, DescView};
use crate::proto::{LabelPair, LabelPairV};
use vstd::prelude::*;

verus! {

/// The label pairs of a sample: the family's constant labels in canonical
/// order, then the declared variable labels with the sample's values.
pub open spec fn render_labels(d: DescView, vals: Seq<Seq<char>>) -> Seq<LabelPairV> {
    Seq::new(
        d.const_labels.len(),
        |i: int| LabelPairV { name: d.const_labels[i].0, value: d.const_labels[i].1 },
    ) + Seq::new(vals.len(), |i: int| LabelPairV { name: d.variable_labels[i], value: vals[i] })
}

/// The hash under which a container files one label-value combination.
pub open spec fn labels_hash(vals: Seq<Seq<char>>) -> u64 {
    fnv_names(0xcbf29ce484222325, vals)
}

/// Build a sample's label pairs from its descriptor and its variable-label
/// values.
pub fn build_label_pairs(desc: &Desc, vals: &Vec<String>) -> (r: Vec<LabelPair>)
    requires
        vals.deep_view().len() == desc@.variable_labels.len(),
    ensures
        r.deep_view() == render_labels(desc@, vals.deep_view()),
{
    let mut r: Vec<LabelPair> = Vec::new();
    let mut i: usize = 0;
    while i < desc.const_labels.len()
        invariant
            i <= desc.const_labels.len(),
            r.len() == i,
            forall|k: int| 0 <= k < i ==> r.deep_view()[k] == render_labels(
                desc@,
                vals.deep_view(),
            )[k],
        decreases desc.const_labels.len() - i,
    {
        let ghost pre = r.deep_view();
        let p = &desc.const_labels[i];
        r.push(LabelPair { name: p.0.clone(), value: p.1.clone() });
        proof {
            let pair = LabelPairV {
                name: desc@.const_labels[i as int].0,
                value: desc@.const_labels[i as int].1,
            };
            assert(r.deep_view() =~= pre.push(pair));
            assert(render_labels(desc@, vals.deep_view())[i as int] == pair);
        }
        i = i + 1;
    }
    let cn = desc.const_labels.len();
    let mut i: usize = 0;
    while i < vals.len()
        invariant
            i <= vals.len(),
            cn == desc@.const_labels.len(),
            vals.deep_view().len() == desc@.variable_labels.len(),
            r.len() == cn + i,
            forall|k: int| 0 <= k < cn + i ==> r.deep_view()[k] == render_labels(
                desc@,
                vals.deep_view(),
            )[k],
        decreases vals.len() - i,
    {
        let ghost pre = r.deep_view();
        r.push(LabelPair { name: desc.variable_labels[i].clone(), value: vals[i].clone() });
        proof {
            let pair = LabelPairV {
                name: desc@.variable_labels[i as int],
                value: vals.deep_view()[i as int],
            };
            assert(r.deep_view() =~= pre.push(pair));
            assert(render_labels(desc@, vals.deep_view())[cn + i as int] == pair);
        }
        i = i + 1;
    }
    proof {
        assert(r.deep_view() =~= render_labels(desc@, vals.deep_view()));
    }
    r
}

/// Hash one label-value combination.
pub fn hash_label_values(vals: &Vec<String>) -> (r: u64)
    ensures
        r == labels_hash(vals.deep_view()),
{
    crate::desc::hash_names(0xcbf29ce484222325, vals)
}

} // verus!
