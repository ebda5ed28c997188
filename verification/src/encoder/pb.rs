//! The binary exposition format: length-delimited records of a fixed
//! schema.
//!
//! Each family serializes as one record of the exposition schema — name,
//! help, type tag and samples, each sample carrying its label pairs and its
//! type-specific values — preceded by the record's length as a varint.
//! Numeric values travel as the 8 little-endian bytes of their binary64
//! bit pattern; counts and the type tag travel as varints.

use crate::encoder::{family_check, first_failure, Encoder};
use crate::errors::Error;
use crate::proto::{
    LabelPair, LabelPairV, Metric, MetricFamily, MetricFamilyV, MetricPayload, MetricType,
    MetricV, SampleValueV,
};
use vstd::prelude::*;

verus! {

/// The format's media type.
pub const PROTOBUF_FORMAT: &'static str = "application/vnd.google.protobuf; proto=io.prometheus.client.MetricFamily; encoding=delimited";

/// A base-128 varint, least significant group first.
pub open spec fn varint(n: u64) -> Seq<u8>
    decreases n,
{
    if n < 128 {
        seq![n as u8]
    } else {
        seq![(n % 128 + 128) as u8] + varint(n / 128)
    }
}

/// The 8 little-endian bytes of a binary64 bit pattern.
pub open spec fn le8(bits: u64) -> Seq<u8> {
    Seq::new(8, |i: int| ((bits >> ((8 * i) as u64)) & 0xff) as u8)
}

/// A field key: field number and wire type.
pub open spec fn key(field: u64, wire: u64) -> Seq<u8>
    recommends
        field < 16,
        wire < 8,
{
    varint((field * 8 + wire) as u64)
}

/// A length-delimited field.
pub open spec fn bytes_field(field: u64, payload: Seq<u8>) -> Seq<u8> {
    key(field, 2) + varint(payload.len() as u64) + payload
}

/// A varint field.
pub open spec fn uint_field(field: u64, v: u64) -> Seq<u8> {
    key(field, 0) + varint(v)
}

/// A binary64 field.
pub open spec fn dbl_field(field: u64, bits: u64) -> Seq<u8> {
    key(field, 1) + le8(bits)
}

/// A string field: the UTF-8 bytes of the text, length-delimited.
pub open spec fn str_field(field: u64, s: Seq<char>) -> Seq<u8> {
    bytes_field(field, vstd::utf8::encode_utf8(s))
}

/// A list of byte chunks in one piece.
pub open spec fn join_bytes(ls: Seq<Seq<u8>>) -> Seq<u8>
    decreases ls.len(),
{
    if ls.len() == 0 {
        Seq::empty()
    } else {
        join_bytes(ls.drop_last()) + ls.last()
    }
}

/// One label pair's record: name, then value.
pub open spec fn label_msg(p: LabelPairV) -> Seq<u8> {
    str_field(1, p.name) + str_field(2, p.value)
}

/// A sample's label pairs, each as one length-delimited record.
pub open spec fn labels_part(ps: Seq<LabelPairV>) -> Seq<u8> {
    join_bytes(Seq::new(ps.len(), |i: int| bytes_field(1, label_msg(ps[i]))))
}

/// A plain value record: one binary64 field.
pub open spec fn value_msg(v: SampleValueV) -> Seq<u8> {
    dbl_field(1, v.bits)
}

/// One bucket's record: cumulative count, then upper bound.
pub open spec fn bucket_msg(b: crate::proto::BucketV) -> Seq<u8> {
    uint_field(1, b.cumulative_count) + dbl_field(2, b.upper_bound.bits)
}

/// One quantile's record: rank, then value.
pub open spec fn quantile_msg(q: crate::proto::QuantileV) -> Seq<u8> {
    dbl_field(1, q.quantile.bits) + dbl_field(2, q.value.bits)
}

/// A histogram's record: count, sum, then its buckets.
pub open spec fn histogram_msg(
    sample_count: u64,
    sum_bits: u64,
    bs: Seq<crate::proto::BucketV>,
) -> Seq<u8> {
    uint_field(1, sample_count) + dbl_field(2, sum_bits) + join_bytes(
        Seq::new(bs.len(), |i: int| bytes_field(3, bucket_msg(bs[i]))),
    )
}

/// A summary's record: count, sum, then its quantiles.
pub open spec fn summary_msg(
    sample_count: u64,
    sum_bits: u64,
    qs: Seq<crate::proto::QuantileV>,
) -> Seq<u8> {
    uint_field(1, sample_count) + dbl_field(2, sum_bits) + join_bytes(
        Seq::new(qs.len(), |i: int| bytes_field(3, quantile_msg(qs[i]))),
    )
}

/// The sample fields below the timestamp's field number: the gauge,
/// counter or summary record.
pub open spec fn pre_ts_payload(m: MetricV) -> Seq<u8> {
    match m.payload {
        crate::proto::MetricPayloadV::Gauge { value } => bytes_field(2, value_msg(value)),
        crate::proto::MetricPayloadV::Counter { value } => bytes_field(3, value_msg(value)),
        crate::proto::MetricPayloadV::Summary { sample_count, sample_sum, quantiles } => {
            bytes_field(4, summary_msg(sample_count, sample_sum.bits, quantiles))
        },
        crate::proto::MetricPayloadV::Histogram { .. } => Seq::empty(),
    }
}

/// The sample fields above the timestamp's field number: the histogram
/// record.
pub open spec fn post_ts_payload(m: MetricV) -> Seq<u8> {
    match m.payload {
        crate::proto::MetricPayloadV::Histogram { sample_count, sample_sum, buckets } => {
            bytes_field(7, histogram_msg(sample_count, sample_sum.bits, buckets))
        },
        _ => Seq::empty(),
    }
}

/// The timestamp field, absent when zero.
pub open spec fn ts_part(ts: i64) -> Seq<u8> {
    if ts == 0 {
        Seq::empty()
    } else {
        uint_field(6, ts as u64)
    }
}

/// One sample's record, fields in field-number order.
pub open spec fn metric_msg(m: MetricV) -> Seq<u8> {
    labels_part(m.labels) + pre_ts_payload(m) + ts_part(m.timestamp_ms) + post_ts_payload(m)
}

/// The wire number of a family's type tag.
pub open spec fn type_num(t: MetricType) -> u64 {
    match t {
        MetricType::Counter => 0,
        MetricType::Gauge => 1,
        MetricType::Summary => 2,
        MetricType::Histogram => 4,
    }
}

/// One family's record: name, help, type tag, then its samples.
pub open spec fn family_msg(f: MetricFamilyV) -> Seq<u8> {
    str_field(1, f.name) + str_field(2, f.help) + uint_field(3, type_num(f.field_type))
        + join_bytes(Seq::new(f.metrics.len(), |i: int| bytes_field(4, metric_msg(f.metrics[i]))))
}

/// One family's length-delimited record.
pub open spec fn delimited(f: MetricFamilyV) -> Seq<u8> {
    varint(family_msg(f).len() as u64) + family_msg(f)
}

/// The whole snapshot's bytes: families in order until the first one that
/// fails its check.
pub open spec fn pb_encoding(fams: Seq<MetricFamilyV>) -> Seq<u8>
    decreases fams.len(),
{
    if fams.len() == 0 {
        Seq::empty()
    } else if family_check(fams[0]) is Some {
        Seq::empty()
    } else {
        delimited(fams[0]) + pb_encoding(fams.drop_first())
    }
}

/// Append a varint.
fn put_varint(out: &mut Vec<u8>, n: u64)
    ensures
        final(out)@ == old(out)@ + varint(n),
{
    let mut cur = n;
    while cur >= 128
        invariant
            old(out)@ + varint(n) == out@ + varint(cur),
        decreases cur,
    {
        out.push((cur % 128 + 128) as u8);
        cur = cur / 128;
    }
    out.push(cur as u8);
    proof {
        assert(out@ =~= old(out)@ + varint(n));
    }
}

/// Append the 8 little-endian bytes of a bit pattern.
fn put_le8(out: &mut Vec<u8>, bits: u64)
    ensures
        final(out)@ == old(out)@ + le8(bits),
{
    let mut i: usize = 0;
    while i < 8
        invariant
            i <= 8,
            out@ == old(out)@ + le8(bits).subrange(0, i as int),
        decreases 8 - i,
    {
        let shift: u64 = 8 * (i as u64);
        let b = ((bits >> shift) & 0xff) as u8;
        out.push(b);
        proof {
            assert(le8(bits)[i as int] == b);
            assert(out@ =~= old(out)@ + le8(bits).subrange(0, i as int + 1));
        }
        i = i + 1;
    }
    proof {
        assert(le8(bits).subrange(0, 8) =~= le8(bits));
    }
}

/// Append a length-delimited field holding the given bytes.
fn put_bytes_field(out: &mut Vec<u8>, k: u64, payload: &Vec<u8>)
    requires
        k < 16,
    ensures
        final(out)@ == old(out)@ + bytes_field(k, payload@),
{
    put_varint(out, k * 8 + 2);
    put_varint(out, payload.len() as u64);
    out.extend_from_slice(payload.as_slice());
    proof {
        assert(out@ =~= old(out)@ + bytes_field(k, payload@));
    }
}

/// Append a string field.
fn put_str_field(out: &mut Vec<u8>, k: u64, s: &str)
    requires
        k < 16,
    ensures
        final(out)@ == old(out)@ + str_field(k, s@),
{
    put_varint(out, k * 8 + 2);
    let bytes = s.as_bytes();
    put_varint(out, bytes.len() as u64);
    out.extend_from_slice(bytes);
    proof {
        assert(bytes@ == vstd::utf8::encode_utf8(s@));
        assert(out@ =~= old(out)@ + str_field(k, s@));
    }
}

/// Append a varint field.
fn put_uint_field(out: &mut Vec<u8>, k: u64, v: u64)
    requires
        k < 16,
    ensures
        final(out)@ == old(out)@ + uint_field(k, v),
{
    put_varint(out, k * 8);
    put_varint(out, v);
    proof {
        assert(out@ =~= old(out)@ + uint_field(k, v));
    }
}

/// Append a binary64 field.
fn put_dbl_field(out: &mut Vec<u8>, k: u64, bits: u64)
    requires
        k < 16,
    ensures
        final(out)@ == old(out)@ + dbl_field(k, bits),
{
    put_varint(out, k * 8 + 1);
    put_le8(out, bits);
    proof {
        assert(out@ =~= old(out)@ + dbl_field(k, bits));
    }
}

/// Build one label pair's record.
fn encode_label(p: &LabelPair) -> (r: Vec<u8>)
    ensures
        r@ == label_msg(p.deep_view()),
{
    let mut out: Vec<u8> = Vec::new();
    put_str_field(&mut out, 1, p.name.as_str());
    put_str_field(&mut out, 2, p.value.as_str());
    proof {
        assert(out@ =~= label_msg(p.deep_view()));
    }
    out
}

/// Build one sample's record.
fn encode_metric(m: &Metric) -> (r: Vec<u8>)
    ensures
        r@ == metric_msg(m.deep_view()),
{
    let ghost mv = m.deep_view();
    let mut out: Vec<u8> = Vec::new();
    let ghost chunks = Seq::new(
        mv.labels.len(),
        |i: int| bytes_field(1, label_msg(mv.labels[i])),
    );
    let mut i: usize = 0;
    proof {
        assert(chunks.subrange(0, 0) =~= Seq::<Seq<u8>>::empty());
    }
    while i < m.labels.len()
        invariant
            i <= m.labels.len(),
            mv == m.deep_view(),
            chunks == Seq::new(
                mv.labels.len(),
                |k: int| bytes_field(1, label_msg(mv.labels[k])),
            ),
            out@ == join_bytes(chunks.subrange(0, i as int)),
        decreases m.labels.len() - i,
    {
        let lp = encode_label(&m.labels[i]);
        put_bytes_field(&mut out, 1, &lp);
        proof {
            assert(chunks.subrange(0, i as int + 1).drop_last() =~= chunks.subrange(0, i as int));
            assert(out@ =~= join_bytes(chunks.subrange(0, i as int + 1)));
        }
        i = i + 1;
    }
    proof {
        assert(chunks.subrange(0, m.labels.len() as int) =~= chunks);
        assert(out@ == labels_part(mv.labels));
    }
    match &m.payload {
        MetricPayload::Gauge { value } => {
            let msg = encode_value(value);
            put_bytes_field(&mut out, 2, &msg);
        },
        MetricPayload::Counter { value } => {
            let msg = encode_value(value);
            put_bytes_field(&mut out, 3, &msg);
        },
        MetricPayload::Summary { sample_count, sample_sum, quantiles } => {
            let msg = encode_summary(*sample_count, sample_sum.render_bits(), quantiles);
            put_bytes_field(&mut out, 4, &msg);
        },
        MetricPayload::Histogram { .. } => {},
    }
    proof {
        assert(out@ =~= labels_part(mv.labels) + pre_ts_payload(mv));
    }
    if m.timestamp_ms != 0 {
        put_uint_field(&mut out, 6, m.timestamp_ms as u64);
    }
    proof {
        assert(out@ =~= labels_part(mv.labels) + pre_ts_payload(mv) + ts_part(mv.timestamp_ms));
    }
    match &m.payload {
        MetricPayload::Histogram { sample_count, sample_sum, buckets } => {
            let msg = encode_histogram(*sample_count, sample_sum.render_bits(), buckets);
            put_bytes_field(&mut out, 7, &msg);
        },
        _ => {},
    }
    proof {
        assert(out@ =~= metric_msg(mv));
    }
    out
}

/// Build a plain value record.
fn encode_value(v: &crate::proto::SampleValue) -> (r: Vec<u8>)
    ensures
        r@ == value_msg(v.deep_view()),
{
    let mut out: Vec<u8> = Vec::new();
    put_dbl_field(&mut out, 1, v.render_bits());
    proof {
        assert(out@ =~= value_msg(v.deep_view()));
    }
    out
}

/// Build a histogram record.
fn encode_histogram(sample_count: u64, sum_bits: u64, buckets: &Vec<crate::proto::Bucket>) -> (r:
    Vec<u8>)
    ensures
        r@ == histogram_msg(sample_count, sum_bits, buckets.deep_view()),
{
    let mut out: Vec<u8> = Vec::new();
    put_uint_field(&mut out, 1, sample_count);
    put_dbl_field(&mut out, 2, sum_bits);
    let ghost head = out@;
    let ghost chunks = Seq::new(
        buckets.deep_view().len(),
        |i: int| bytes_field(3, bucket_msg(buckets.deep_view()[i])),
    );
    let mut i: usize = 0;
    proof {
        assert(chunks.subrange(0, 0) =~= Seq::<Seq<u8>>::empty());
        assert(out@ =~= head + join_bytes(chunks.subrange(0, 0)));
    }
    while i < buckets.len()
        invariant
            i <= buckets.len(),
            chunks == Seq::new(
                buckets.deep_view().len(),
                |k: int| bytes_field(3, bucket_msg(buckets.deep_view()[k])),
            ),
            out@ == head + join_bytes(chunks.subrange(0, i as int)),
        decreases buckets.len() - i,
    {
        let b = &buckets[i];
        let mut msg: Vec<u8> = Vec::new();
        put_uint_field(&mut msg, 1, b.cumulative_count);
        put_dbl_field(&mut msg, 2, b.upper_bound.render_bits());
        proof {
            assert(msg@ =~= bucket_msg(buckets.deep_view()[i as int]));
        }
        put_bytes_field(&mut out, 3, &msg);
        proof {
            assert(chunks.subrange(0, i as int + 1).drop_last() =~= chunks.subrange(0, i as int));
            assert(out@ =~= head + join_bytes(chunks.subrange(0, i as int + 1)));
        }
        i = i + 1;
    }
    proof {
        assert(chunks.subrange(0, buckets.len() as int) =~= chunks);
        assert(out@ =~= histogram_msg(sample_count, sum_bits, buckets.deep_view()));
    }
    out
}

/// Build a summary record.
fn encode_summary(sample_count: u64, sum_bits: u64, quantiles: &Vec<crate::proto::Quantile>) -> (r:
    Vec<u8>)
    ensures
        r@ == summary_msg(sample_count, sum_bits, quantiles.deep_view()),
{
    let mut out: Vec<u8> = Vec::new();
    put_uint_field(&mut out, 1, sample_count);
    put_dbl_field(&mut out, 2, sum_bits);
    let ghost head = out@;
    let ghost chunks = Seq::new(
        quantiles.deep_view().len(),
        |i: int| bytes_field(3, quantile_msg(quantiles.deep_view()[i])),
    );
    let mut i: usize = 0;
    proof {
        assert(chunks.subrange(0, 0) =~= Seq::<Seq<u8>>::empty());
        assert(out@ =~= head + join_bytes(chunks.subrange(0, 0)));
    }
    while i < quantiles.len()
        invariant
            i <= quantiles.len(),
            chunks == Seq::new(
                quantiles.deep_view().len(),
                |k: int| bytes_field(3, quantile_msg(quantiles.deep_view()[k])),
            ),
            out@ == head + join_bytes(chunks.subrange(0, i as int)),
        decreases quantiles.len() - i,
    {
        let q = &quantiles[i];
        let mut msg: Vec<u8> = Vec::new();
        put_dbl_field(&mut msg, 1, q.quantile.render_bits());
        put_dbl_field(&mut msg, 2, q.value.render_bits());
        proof {
            assert(msg@ =~= quantile_msg(quantiles.deep_view()[i as int]));
        }
        put_bytes_field(&mut out, 3, &msg);
        proof {
            assert(chunks.subrange(0, i as int + 1).drop_last() =~= chunks.subrange(0, i as int));
            assert(out@ =~= head + join_bytes(chunks.subrange(0, i as int + 1)));
        }
        i = i + 1;
    }
    proof {
        assert(chunks.subrange(0, quantiles.len() as int) =~= chunks);
        assert(out@ =~= summary_msg(sample_count, sum_bits, quantiles.deep_view()));
    }
    out
}

/// Build one family's record, without its length prefix.
fn encode_family_msg(mf: &MetricFamily) -> (r: Vec<u8>)
    ensures
        r@ == family_msg(mf.deep_view()),
{
    let ghost fv = mf.deep_view();
    let mut out: Vec<u8> = Vec::new();
    put_str_field(&mut out, 1, mf.name.as_str());
    put_str_field(&mut out, 2, mf.help.as_str());
    let tn: u64 = match mf.field_type {
        MetricType::Counter => 0,
        MetricType::Gauge => 1,
        MetricType::Summary => 2,
        MetricType::Histogram => 4,
    };
    put_uint_field(&mut out, 3, tn);
    let ghost head = out@;
    let ghost chunks = Seq::new(
        fv.metrics.len(),
        |i: int| bytes_field(4, metric_msg(fv.metrics[i])),
    );
    let mut i: usize = 0;
    proof {
        assert(chunks.subrange(0, 0) =~= Seq::<Seq<u8>>::empty());
        assert(out@ =~= head + join_bytes(chunks.subrange(0, 0)));
    }
    while i < mf.metrics.len()
        invariant
            i <= mf.metrics.len(),
            fv == mf.deep_view(),
            chunks == Seq::new(fv.metrics.len(), |k: int| bytes_field(4, metric_msg(fv.metrics[k]))),
            out@ == head + join_bytes(chunks.subrange(0, i as int)),
        decreases mf.metrics.len() - i,
    {
        let msg = encode_metric(&mf.metrics[i]);
        put_bytes_field(&mut out, 4, &msg);
        proof {
            assert(chunks.subrange(0, i as int + 1).drop_last() =~= chunks.subrange(0, i as int));
            assert(out@ =~= head + join_bytes(chunks.subrange(0, i as int + 1)));
        }
        i = i + 1;
    }
    proof {
        assert(chunks.subrange(0, mf.metrics.len() as int) =~= chunks);
        assert(out@ =~= family_msg(fv));
    }
    out
}

/// The first failing family decides the snapshot's bytes and failure.
proof fn lemma_pb_prefix(fams: Seq<MetricFamilyV>, i: int)
    requires
        0 <= i <= fams.len(),
        forall|k: int| 0 <= k < i ==> family_check(#[trigger] fams[k]) is None,
    ensures
        pb_encoding(fams) == join_bytes(Seq::new(i as nat, |k: int| delimited(fams[k])))
            + pb_encoding(fams.skip(i)),
        first_failure(fams) == first_failure(fams.skip(i)),
    decreases i,
{
    if i == 0 {
        assert(fams.skip(0) =~= fams);
        assert(Seq::new(0, |k: int| delimited(fams[k])) =~= Seq::<Seq<u8>>::empty());
        assert(join_bytes(Seq::new(0, |k: int| delimited(fams[k]))) + pb_encoding(fams)
            =~= pb_encoding(fams));
    } else {
        lemma_pb_prefix(fams, i - 1);
        let prev = fams.skip(i - 1);
        assert(prev[0] == fams[i - 1]);
        assert(family_check(prev[0]) is None);
        assert(prev.drop_first() =~= fams.skip(i));
        assert(pb_encoding(prev) == delimited(fams[i - 1]) + pb_encoding(fams.skip(i)));
        let upto_prev = Seq::new((i - 1) as nat, |k: int| delimited(fams[k]));
        let upto = Seq::new(i as nat, |k: int| delimited(fams[k]));
        assert(upto.drop_last() =~= upto_prev);
        assert(upto.last() == delimited(fams[i - 1]));
        assert(join_bytes(upto_prev) + (delimited(fams[i - 1]) + pb_encoding(fams.skip(i)))
            =~= join_bytes(upto) + pb_encoding(fams.skip(i)));
    }
}

/// An implementation of an [`Encoder`] that renders a snapshot in the
/// length-delimited binary record format.
#[derive(Debug, Default)]
pub struct ProtobufEncoder;

impl ProtobufEncoder {
    /// Create a new binary encoder.
    pub fn new() -> (r: ProtobufEncoder) {
        ProtobufEncoder
    }
}

impl Encoder for ProtobufEncoder {
    /// The length-delimited binary records of the snapshot.
    open spec fn wire_bytes(fams: Seq<MetricFamilyV>) -> Seq<u8> {
        pb_encoding(fams)
    }

    /// The binary format's media type.
    open spec fn media_type() -> Seq<char> {
        PROTOBUF_FORMAT@
    }

    fn encode(&self, mfs: &Vec<MetricFamily>, writer: &mut Vec<u8>) -> (r: Result<(), Error>) {
        let ghost dv = mfs.deep_view();
        let ghost records = Seq::new(dv.len(), |k: int| delimited(dv[k]));
        let mut i: usize = 0;
        proof {
            assert(records.subrange(0, 0) =~= Seq::<Seq<u8>>::empty());
        }
        while i < mfs.len()
            invariant
                i <= mfs.len(),
                dv == mfs.deep_view(),
                records == Seq::new(dv.len(), |k: int| delimited(dv[k])),
                forall|k: int| 0 <= k < i ==> family_check(#[trigger] dv[k]) is None,
                writer@ == old(writer)@ + join_bytes(records.subrange(0, i as int)),
            decreases mfs.len() - i,
        {
            let mf = &mfs[i];
            proof {
                assert(mf.deep_view() == dv[i as int]);
            }
            let checked = crate::encoder::check_metric_family(mf);
            match checked {
                Err(e) => {
                    proof {
                        lemma_pb_prefix(dv, i as int);
                        assert(dv.skip(i as int)[0] == dv[i as int]);
                        assert(pb_encoding(dv.skip(i as int)) =~= Seq::<u8>::empty());
                        assert(records.subrange(0, i as int) =~= Seq::new(
                            i as nat,
                            |k: int| delimited(dv[k]),
                        ));
                        assert(writer@ =~= old(writer)@ + pb_encoding(dv));
                    }
                    return Err(e);
                },
                Ok(_) => {},
            }
            let msg = encode_family_msg(mf);
            put_varint(writer, msg.len() as u64);
            writer.extend_from_slice(msg.as_slice());
            proof {
                assert(records.subrange(0, i as int + 1).drop_last() =~= records.subrange(
                    0,
                    i as int,
                ));
                assert(records.subrange(0, i as int + 1).last() == delimited(dv[i as int]));
                assert(writer@ =~= old(writer)@ + join_bytes(records.subrange(0, i as int + 1)));
            }
            i = i + 1;
        }
        proof {
            lemma_pb_prefix(dv, dv.len() as int);
            assert(dv.skip(dv.len() as int) =~= Seq::<MetricFamilyV>::empty());
            assert(pb_encoding(dv.skip(dv.len() as int)) =~= Seq::<u8>::empty());
            assert(records.subrange(0, dv.len() as int) =~= Seq::new(
                dv.len(),
                |k: int| delimited(dv[k]),
            ));
            assert(writer@ =~= old(writer)@ + pb_encoding(dv));
        }
        Ok(())
    }

    fn format_type(&self) -> (r: &'static str) {
        PROTOBUF_FORMAT
    }
}

} // verus!
