//! The wire-neutral snapshot model that both exposition encoders consume.
//!
//! A gather produces an ordered sequence of [`MetricFamily`] records; each
//! family carries a name, help text, a type tag and its samples.  Every
//! numeric value in the model is a [`SampleValue`]: integer kinds carry
//! their exact 64-bit value, and binary64 quantities (histogram bounds and
//! sums, summary quantiles, values from float-kind collectors) carry their
//! raw bit pattern together with the decimal text the text format shows for
//! them, since this crate computes no floating-point arithmetic of its own.

use crate::numtext::{
    double_bits, double_bits_signed, int_text, uint_text,
    i64_double_bits, i64_text, u64_double_bits, u64_text,
};
use vstd::prelude::*;

verus! {

/// One numeric sample value.
#[derive(Debug)]
pub enum SampleValue {
    /// A signed integer-kind value.
    Int(i64),
    /// An unsigned integer-kind value.
    Uint(u64),
    /// A binary64 quantity: its bit pattern, and the decimal text it shows
    /// as in the text format.
    Dbl { bits: u64, text: String },
}

/// What a value looks like on the wire: its text rendering and its binary64
/// bit pattern.
#[verifier::ext_equal]
pub struct SampleValueV {
    /// The decimal text the text format shows.
    pub text: Seq<char>,
    /// The binary64 bit pattern the binary format carries.
    pub bits: u64,
}

/// The decimal text of a value.
pub open spec fn value_text(v: SampleValue) -> Seq<char> {
    match v {
        SampleValue::Int(n) => int_text(n as int),
        SampleValue::Uint(n) => uint_text(n as int),
        SampleValue::Dbl { bits, text } => text@,
    }
}

/// The binary64 bit pattern of a value.
pub open spec fn value_bits(v: SampleValue) -> u64 {
    match v {
        SampleValue::Int(n) => double_bits_signed(n),
        SampleValue::Uint(n) => double_bits(n),
        SampleValue::Dbl { bits, text } => bits,
    }
}

impl DeepView for SampleValue {
    type V = SampleValueV;

    open spec fn deep_view(&self) -> SampleValueV {
        SampleValueV { text: value_text(*self), bits: value_bits(*self) }
    }
}

/// The bit pattern of the positive binary64 infinity.
pub open spec fn is_pos_inf_bits(bits: u64) -> bool {
    bits == 0x7ff0000000000000
}

impl SampleValue {
    /// Render the value's decimal text.
    pub fn render_text(&self) -> (r: String)
        ensures
            r@ == value_text(*self),
    {
        match self {
            SampleValue::Int(n) => i64_text(*n),
            SampleValue::Uint(n) => u64_text(*n),
            SampleValue::Dbl { bits, text } => text.clone(),
        }
    }

    /// Produce the value's binary64 bit pattern.
    pub fn render_bits(&self) -> (r: u64)
        ensures
            r == value_bits(*self),
    {
        match self {
            SampleValue::Int(n) => i64_double_bits(*n),
            SampleValue::Uint(n) => u64_double_bits(*n),
            SampleValue::Dbl { bits, text } => *bits,
        }
    }

    /// Whether the value is the positive infinity.
    pub fn is_pos_inf(&self) -> (r: bool)
        ensures
            r == is_pos_inf_bits(value_bits(*self)),
    {
        match self {
            SampleValue::Int(n) => {
                proof {
                    crate::numtext::lemma_double_bits_finite((-(*n as int)) as u64);
                    crate::numtext::lemma_double_bits_finite(*n as u64);
                }
                false
            },
            SampleValue::Uint(n) => {
                proof {
                    crate::numtext::lemma_double_bits_finite(*n);
                }
                false
            },
            SampleValue::Dbl { bits, text } => *bits == 0x7ff0000000000000,
        }
    }
}

impl Clone for SampleValue {
    /// A clone renders identically.
    fn clone(&self) -> (r: Self)
        ensures
            r.deep_view() == self.deep_view(),
    {
        match self {
            SampleValue::Int(n) => SampleValue::Int(*n),
            SampleValue::Uint(n) => SampleValue::Uint(*n),
            SampleValue::Dbl { bits, text } => SampleValue::Dbl {
                bits: *bits,
                text: text.clone(),
            },
        }
    }
}

/// One label name/value pair of a sample.
#[derive(Debug)]
pub struct LabelPair {
    /// The label name.
    pub name: String,
    /// The label value.
    pub value: String,
}

/// The content of a label pair.
#[verifier::ext_equal]
pub struct LabelPairV {
    /// The label name.
    pub name: Seq<char>,
    /// The label value.
    pub value: Seq<char>,
}

impl DeepView for LabelPair {
    type V = LabelPairV;

    open spec fn deep_view(&self) -> LabelPairV {
        LabelPairV { name: self.name@, value: self.value@ }
    }
}

impl Clone for LabelPair {
    /// A clone carries the same name and value.
    fn clone(&self) -> (r: Self)
        ensures
            r.deep_view() == self.deep_view(),
    {
        LabelPair { name: self.name.clone(), value: self.value.clone() }
    }
}

/// One cumulative histogram bucket.
#[derive(Debug)]
pub struct Bucket {
    /// How many observations fell at or below the bound.
    pub cumulative_count: u64,
    /// The bucket's upper bound.
    pub upper_bound: SampleValue,
}

/// The content of a bucket.
#[verifier::ext_equal]
pub struct BucketV {
    /// How many observations fell at or below the bound.
    pub cumulative_count: u64,
    /// The bucket's upper bound.
    pub upper_bound: SampleValueV,
}

impl DeepView for Bucket {
    type V = BucketV;

    open spec fn deep_view(&self) -> BucketV {
        BucketV {
            cumulative_count: self.cumulative_count,
            upper_bound: self.upper_bound.deep_view(),
        }
    }
}

/// One summary quantile.
#[derive(Debug)]
pub struct Quantile {
    /// The quantile rank.
    pub quantile: SampleValue,
    /// The observed value at that rank.
    pub value: SampleValue,
}

/// The content of a quantile.
#[verifier::ext_equal]
pub struct QuantileV {
    /// The quantile rank.
    pub quantile: SampleValueV,
    /// The observed value at that rank.
    pub value: SampleValueV,
}

impl DeepView for Quantile {
    type V = QuantileV;

    open spec fn deep_view(&self) -> QuantileV {
        QuantileV { quantile: self.quantile.deep_view(), value: self.value.deep_view() }
    }
}

/// The type-specific part of a sample.
#[derive(Debug)]
pub enum MetricPayload {
    /// A counter's current value.
    Counter {
        /// The current value.
        value: SampleValue,
    },
    /// A gauge's current value.
    Gauge {
        /// The current value.
        value: SampleValue,
    },
    /// A histogram's observation count, observation sum and buckets.
    Histogram {
        /// How many observations were made.
        sample_count: u64,
        /// The sum of all observations.
        sample_sum: SampleValue,
        /// The cumulative buckets, in ascending bound order.
        buckets: Vec<Bucket>,
    },
    /// A summary's observation count, observation sum and quantiles.
    Summary {
        /// How many observations were made.
        sample_count: u64,
        /// The sum of all observations.
        sample_sum: SampleValue,
        /// The tracked quantiles.
        quantiles: Vec<Quantile>,
    },
}

/// The content of a payload.
#[verifier::ext_equal]
pub enum MetricPayloadV {
    /// A counter's current value.
    Counter { value: SampleValueV },
    /// A gauge's current value.
    Gauge { value: SampleValueV },
    /// A histogram's observation count, observation sum and buckets.
    Histogram { sample_count: u64, sample_sum: SampleValueV, buckets: Seq<BucketV> },
    /// A summary's observation count, observation sum and quantiles.
    Summary { sample_count: u64, sample_sum: SampleValueV, quantiles: Seq<QuantileV> },
}

impl DeepView for MetricPayload {
    type V = MetricPayloadV;

    open spec fn deep_view(&self) -> MetricPayloadV {
        match self {
            MetricPayload::Counter { value } => MetricPayloadV::Counter {
                value: value.deep_view(),
            },
            MetricPayload::Gauge { value } => MetricPayloadV::Gauge { value: value.deep_view() },
            MetricPayload::Histogram { sample_count, sample_sum, buckets } => {
                MetricPayloadV::Histogram {
                    sample_count: *sample_count,
                    sample_sum: sample_sum.deep_view(),
                    buckets: buckets.deep_view(),
                }
            },
            MetricPayload::Summary { sample_count, sample_sum, quantiles } => {
                MetricPayloadV::Summary {
                    sample_count: *sample_count,
                    sample_sum: sample_sum.deep_view(),
                    quantiles: quantiles.deep_view(),
                }
            },
        }
    }
}

/// One sample of a family: its label pairs, its type-specific values and an
/// optional millisecond timestamp, zero meaning absent.
#[derive(Debug)]
pub struct Metric {
    /// The sample's label pairs, in rendering order.
    pub labels: Vec<LabelPair>,
    /// The type-specific values.
    pub payload: MetricPayload,
    /// The sample's timestamp in milliseconds; zero means absent.
    pub timestamp_ms: i64,
}

/// The content of a sample.
#[verifier::ext_equal]
pub struct MetricV {
    /// The sample's label pairs, in rendering order.
    pub labels: Seq<LabelPairV>,
    /// The type-specific values.
    pub payload: MetricPayloadV,
    /// The sample's timestamp in milliseconds; zero means absent.
    pub timestamp_ms: i64,
}

impl DeepView for Metric {
    type V = MetricV;

    open spec fn deep_view(&self) -> MetricV {
        MetricV {
            labels: self.labels.deep_view(),
            payload: self.payload.deep_view(),
            timestamp_ms: self.timestamp_ms,
        }
    }
}

/// The type tag of a family.
#[derive(Debug, Clone, Copy, PartialEq, Eq, Structural)]
pub enum MetricType {
    /// A monotonically increasing value.
    Counter,
    /// A value that can go up and down.
    Gauge,
    /// A bucketed distribution of observations.
    Histogram,
    /// A quantile summary of observations.
    Summary,
}

impl DeepView for MetricType {
    type V = MetricType;

    open spec fn deep_view(&self) -> MetricType {
        *self
    }
}

/// One metric family of a snapshot: its name, help text, type tag and
/// samples.
#[derive(Debug)]
pub struct MetricFamily {
    /// The family's fully-qualified name.
    pub name: String,
    /// The family's help text.
    pub help: String,
    /// The family's type tag.
    pub field_type: MetricType,
    /// The family's samples.
    pub metrics: Vec<Metric>,
}

/// The content of a family.
#[verifier::ext_equal]
pub struct MetricFamilyV {
    /// The family's fully-qualified name.
    pub name: Seq<char>,
    /// The family's help text.
    pub help: Seq<char>,
    /// The family's type tag.
    pub field_type: MetricType,
    /// The family's samples.
    pub metrics: Seq<MetricV>,
}

impl DeepView for MetricFamily {
    type V = MetricFamilyV;

    open spec fn deep_view(&self) -> MetricFamilyV {
        MetricFamilyV {
            name: self.name@,
            help: self.help@,
            field_type: self.field_type,
            metrics: self.metrics.deep_view(),
        }
    }
}

} // verus!

verus! {

impl Clone for Bucket {
    /// A clone carries the same count and bound.
    fn clone(&self) -> (r: Self)
        ensures
            r.deep_view() == self.deep_view(),
    {
        Bucket {
            cumulative_count: self.cumulative_count,
            upper_bound: self.upper_bound.clone(),
        }
    }
}

impl Clone for Quantile {
    /// A clone carries the same rank and value.
    fn clone(&self) -> (r: Self)
        ensures
            r.deep_view() == self.deep_view(),
    {
        Quantile { quantile: self.quantile.clone(), value: self.value.clone() }
    }
}

/// Copy a label list, keeping its content.
pub fn clone_labels(v: &Vec<LabelPair>) -> (r: Vec<LabelPair>)
    ensures
        r.deep_view() == v.deep_view(),
{
    let mut r: Vec<LabelPair> = Vec::new();
    let mut i: usize = 0;
    while i < v.len()
        invariant
            i <= v.len(),
            r.len() == i,
            forall|k: int| 0 <= k < i ==> r.deep_view()[k] == v.deep_view()[k],
        decreases v.len() - i,
    {
        r.push(v[i].clone());
        i = i + 1;
    }
    proof {
        assert(r.deep_view() =~= v.deep_view());
    }
    r
}

/// Copy a bucket list, keeping its content.
pub fn clone_buckets(v: &Vec<Bucket>) -> (r: Vec<Bucket>)
    ensures
        r.deep_view() == v.deep_view(),
{
    let mut r: Vec<Bucket> = Vec::new();
    let mut i: usize = 0;
    while i < v.len()
        invariant
            i <= v.len(),
            r.len() == i,
            forall|k: int| 0 <= k < i ==> r.deep_view()[k] == v.deep_view()[k],
        decreases v.len() - i,
    {
        r.push(v[i].clone());
        i = i + 1;
    }
    proof {
        assert(r.deep_view() =~= v.deep_view());
    }
    r
}

/// Copy a quantile list, keeping its content.
pub fn clone_quantiles(v: &Vec<Quantile>) -> (r: Vec<Quantile>)
    ensures
        r.deep_view() == v.deep_view(),
{
    let mut r: Vec<Quantile> = Vec::new();
    let mut i: usize = 0;
    while i < v.len()
        invariant
            i <= v.len(),
            r.len() == i,
            forall|k: int| 0 <= k < i ==> r.deep_view()[k] == v.deep_view()[k],
        decreases v.len() - i,
    {
        r.push(v[i].clone());
        i = i + 1;
    }
    proof {
        assert(r.deep_view() =~= v.deep_view());
    }
    r
}

impl Clone for MetricPayload {
    /// A clone carries the same values.
    fn clone(&self) -> (r: Self)
        ensures
            r.deep_view() == self.deep_view(),
    {
        match self {
            MetricPayload::Counter { value } => MetricPayload::Counter { value: value.clone() },
            MetricPayload::Gauge { value } => MetricPayload::Gauge { value: value.clone() },
            MetricPayload::Histogram { sample_count, sample_sum, buckets } => {
                MetricPayload::Histogram {
                    sample_count: *sample_count,
                    sample_sum: sample_sum.clone(),
                    buckets: clone_buckets(buckets),
                }
            },
            MetricPayload::Summary { sample_count, sample_sum, quantiles } => {
                MetricPayload::Summary {
                    sample_count: *sample_count,
                    sample_sum: sample_sum.clone(),
                    quantiles: clone_quantiles(quantiles),
                }
            },
        }
    }
}

impl Clone for Metric {
    /// A clone carries the same labels, values and timestamp.
    fn clone(&self) -> (r: Self)
        ensures
            r.deep_view() == self.deep_view(),
    {
        Metric {
            labels: clone_labels(&self.labels),
            payload: self.payload.clone(),
            timestamp_ms: self.timestamp_ms,
        }
    }
}

/// Copy a sample list, keeping its content.
pub fn clone_metrics(v: &Vec<Metric>) -> (r: Vec<Metric>)
    ensures
        r.deep_view() == v.deep_view(),
{
    let mut r: Vec<Metric> = Vec::new();
    let mut i: usize = 0;
    while i < v.len()
        invariant
            i <= v.len(),
            r.len() == i,
            forall|k: int| 0 <= k < i ==> r.deep_view()[k] == v.deep_view()[k],
        decreases v.len() - i,
    {
        r.push(v[i].clone());
        i = i + 1;
    }
    proof {
        assert(r.deep_view() =~= v.deep_view());
    }
    r
}

impl Clone for MetricFamily {
    /// A clone carries the same name, help, type tag and samples.
    fn clone(&self) -> (r: Self)
        ensures
            r.deep_view() == self.deep_view(),
    {
        MetricFamily {
            name: self.name.clone(),
            help: self.help.clone(),
            field_type: self.field_type,
            metrics: clone_metrics(&self.metrics),
        }
    }
}

/// Copy a family list, keeping its content.
pub fn clone_families(v: &Vec<MetricFamily>) -> (r: Vec<MetricFamily>)
    ensures
        r.deep_view() == v.deep_view(),
{
    let mut r: Vec<MetricFamily> = Vec::new();
    let mut i: usize = 0;
    while i < v.len()
        invariant
            i <= v.len(),
            r.len() == i,
            forall|k: int| 0 <= k < i ==> r.deep_view()[k] == v.deep_view()[k],
        decreases v.len() - i,
    {
        r.push(v[i].clone());
        i = i + 1;
    }
    proof {
        assert(r.deep_view() =~= v.deep_view());
    }
    r
}

} // verus!
