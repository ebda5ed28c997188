//! Gauges: signed values that go up and down freely.

use crate::atomic64::AtomicI64;
use crate::desc::{clone_strings, Desc, DescView};
use crate::errors::Error;
use crate::proto::{Metric, MetricFamily, MetricPayload, MetricType, SampleValue};
use crate::value::{build_label_pairs, render_labels};
use vstd::prelude::*;

verus! {

/// What one wrapping signed increment leaves in a cell.
pub open spec fn gauge_add_result(v: i64, delta: i64) -> i64 {
    vstd::wrapping::i64_specs::wrapping_add(v, delta)
}

/// What one wrapping signed decrement leaves in a cell.
pub open spec fn gauge_sub_result(v: i64, delta: i64) -> i64 {
    vstd::wrapping::i64_specs::wrapping_sub(v, delta)
}

/// The snapshot family a gauge renders: one sample carrying its value.
pub open spec fn gauge_family_view(g: IntGauge) -> crate::proto::MetricFamilyV {
    crate::proto::MetricFamilyV {
        name: g.desc_view().fq_name,
        help: g.desc_view().help,
        field_type: MetricType::Gauge,
        metrics: seq![
            crate::proto::MetricV {
                labels: render_labels(g.desc_view(), g.labels()),
                payload: crate::proto::MetricPayloadV::Gauge {
                    value: crate::proto::SampleValueV {
                        text: crate::numtext::int_text(g.value() as int),
                        bits: crate::numtext::double_bits_signed(g.value()),
                    },
                },
                timestamp_ms: 0,
            },
        ],
    }
}

/// A gauge over a signed 64-bit cell.
#[derive(Debug)]
pub struct IntGauge {
    desc: Desc,
    label_values: Vec<String>,
    cell: AtomicI64,
}

impl IntGauge {
    /// The current value.
    pub closed spec fn value(&self) -> i64 {
        self.cell@
    }

    /// The family descriptor.
    pub closed spec fn desc_view(&self) -> DescView {
        self.desc@
    }

    /// The variable-label values that single this gauge out of its family.
    pub closed spec fn labels(&self) -> Seq<Seq<char>> {
        self.label_values.deep_view()
    }

    /// The descriptor is well formed and the label values match its arity.
    pub open spec fn wf(&self) -> bool {
        &&& self.desc_view().wf()
        &&& self.labels().len() == self.desc_view().variable_labels.len()
    }

    /// Create a gauge with the `name` and `help` arguments and no labels,
    /// starting at zero.
    pub fn new(name: String, help: String) -> (r: Result<IntGauge, Error>)
        ensures
            r is Ok,
            r matches Ok(g) ==> {
                &&& g.wf()
                &&& g.value() == 0
                &&& g.desc_view().fq_name == name@
                &&& g.desc_view().help == help@
                &&& g.desc_view().variable_labels.len() == 0
                &&& g.desc_view().const_labels.len() == 0
                &&& g.labels().len() == 0
            },
    {
        let vars: Vec<String> = Vec::new();
        let consts: Vec<(String, String)> = Vec::new();
        let desc = match Desc::new(name, help, vars, consts) {
            Ok(d) => d,
            Err(e) => {
                proof {
                    assert(false);
                }
                return Err(e);
            },
        };
        Ok(IntGauge { desc, label_values: Vec::new(), cell: AtomicI64::new(0) })
    }

    /// Set the gauge to the given value.
    pub fn set(&mut self, v: i64)
        ensures
            final(self).value() == v,
            final(self).desc_view() == old(self).desc_view(),
            final(self).labels() == old(self).labels(),
    {
        self.cell.set(v);
    }

    /// Return the gauge value.
    pub fn get(&self) -> (v: i64)
        ensures
            v == self.value(),
    {
        self.cell.get()
    }

    /// Increase the gauge by one.
    pub fn inc(&mut self)
        ensures
            final(self).value() == gauge_add_result(old(self).value(), 1),
            final(self).desc_view() == old(self).desc_view(),
            final(self).labels() == old(self).labels(),
    {
        self.cell.inc_by(1);
    }

    /// Decrease the gauge by one.
    pub fn dec(&mut self)
        ensures
            final(self).value() == gauge_sub_result(old(self).value(), 1),
            final(self).desc_view() == old(self).desc_view(),
            final(self).labels() == old(self).labels(),
    {
        self.cell.dec_by(1);
    }

    /// Increase the gauge by the given amount.
    pub fn add(&mut self, v: i64)
        ensures
            final(self).value() == gauge_add_result(old(self).value(), v),
            final(self).desc_view() == old(self).desc_view(),
            final(self).labels() == old(self).labels(),
    {
        self.cell.inc_by(v);
    }

    /// Decrease the gauge by the given amount.
    pub fn sub(&mut self, v: i64)
        ensures
            final(self).value() == gauge_sub_result(old(self).value(), v),
            final(self).desc_view() == old(self).desc_view(),
            final(self).labels() == old(self).labels(),
    {
        self.cell.dec_by(v);
    }

    /// The descriptors this gauge exposes.
    pub fn desc(&self) -> (r: Vec<Desc>)
        ensures
            r.len() == 1,
            r[0]@ == self.desc_view(),
    {
        let mut r = Vec::new();
        r.push(self.desc.clone());
        r
    }

    /// Render the gauge into one sample.
    pub fn metric(&self) -> (r: Metric)
        requires
            self.wf(),
        ensures
            r.deep_view().labels == render_labels(self.desc_view(), self.labels()),
            r.deep_view().payload matches crate::proto::MetricPayloadV::Gauge { value } && value
                == (SampleValue::Int(self.value())).deep_view(),
            r.timestamp_ms == 0,
    {
        let labels = build_label_pairs(&self.desc, &self.label_values);
        Metric {
            labels,
            payload: MetricPayload::Gauge { value: SampleValue::Int(self.cell.get()) },
            timestamp_ms: 0,
        }
    }

    /// Render the gauge's whole family: one sample.
    pub fn collect(&self) -> (r: MetricFamily)
        requires
            self.wf(),
        ensures
            r.deep_view().name == self.desc_view().fq_name,
            r.deep_view().help == self.desc_view().help,
            r.field_type == MetricType::Gauge,
            r.deep_view().metrics.len() == 1,
            r.deep_view().metrics[0].labels == render_labels(self.desc_view(), self.labels()),
            r.deep_view().metrics[0].payload matches crate::proto::MetricPayloadV::Gauge { value }
                && value == (SampleValue::Int(self.value())).deep_view(),
            r.deep_view() == gauge_family_view(*self),
    {
        let m = self.metric();
        let mut metrics = Vec::new();
        metrics.push(m);
        let fam = MetricFamily {
            name: self.desc.fq_name.clone(),
            help: self.desc.help.clone(),
            field_type: MetricType::Gauge,
            metrics,
        };
        proof {
            assert(fam.deep_view() =~~= gauge_family_view(*self));
        }
        fam
    }
}

impl Clone for IntGauge {
    /// A clone observes the same value, descriptor and labels; the copy's
    /// cell is its own.
    fn clone(&self) -> (r: Self)
        ensures
            r.value() == self.value(),
            r.desc_view() == self.desc_view(),
            r.labels() == self.labels(),
    {
        IntGauge {
            desc: self.desc.clone(),
            label_values: clone_strings(&self.label_values),
            cell: AtomicI64::new(self.cell.get()),
        }
    }
}

} // verus!
