//! The plain-text exposition format.
//!
//! Every family renders as an optional `# HELP` line, a `# TYPE` line and
//! one line per sample; histograms render one cumulative `_bucket` line per
//! declared bucket — with a synthetic `+Inf` bucket appended when none of
//! the declared bounds is the positive infinity — followed by `_sum` and
//! `_count` lines, and summaries render analogously with their quantiles.
//! Help text and label values are escaped: a backslash as `\\`, a newline
//! as `\n`, and, in label values only, a double quote as `\"`.

use crate::encoder::{family_check, first_failure, Encoder};
use crate::errors::Error;
use crate::numtext::{i64_text, int_text, u64_text, uint_text};
use crate::proto::{
    is_pos_inf_bits, LabelPair, LabelPairV, Metric, MetricFamily, MetricFamilyV, MetricPayload,
    MetricType, MetricV,
};
use vstd::prelude::*;

verus! {

/// The format's media type.
pub const TEXT_FORMAT: &'static str = "text/plain; version=0.0.4";

/// Whether the text format escapes this character here.
pub open spec fn escapable(c: char, quote: bool) -> bool {
    c == '\\' || c == '\n' || (quote && c == '"')
}

/// What one character escapes to: a backslash doubles, a newline becomes
/// `\n`, a double quote becomes `\"` where quotes are escaped, and every
/// other character stands for itself.
pub open spec fn escape_char(c: char, quote: bool) -> Seq<char> {
    if c == '\\' {
        seq!['\\', '\\']
    } else if c == '\n' {
        seq!['\\', 'n']
    } else if c == '"' && quote {
        seq!['\\', '"']
    } else {
        seq![c]
    }
}

/// A text escaped character by character.
pub open spec fn escape_text(s: Seq<char>, quote: bool) -> Seq<char>
    decreases s.len(),
{
    if s.len() == 0 {
        Seq::empty()
    } else {
        escape_char(s[0], quote) + escape_text(s.drop_first(), quote)
    }
}

/// Escaping distributes over concatenation.
pub proof fn lemma_escape_concat(a: Seq<char>, b: Seq<char>, quote: bool)
    ensures
        escape_text(a + b, quote) == escape_text(a, quote) + escape_text(b, quote),
    decreases a.len(),
{
    if a.len() == 0 {
        assert(a + b =~= b);
        assert(escape_text(a, quote) + escape_text(b, quote) =~= escape_text(b, quote));
    } else {
        lemma_escape_concat(a.drop_first(), b, quote);
        assert((a + b).drop_first() =~= a.drop_first() + b);
        assert(escape_char(a[0], quote) + (escape_text(a.drop_first(), quote) + escape_text(
            b,
            quote,
        )) =~= (escape_char(a[0], quote) + escape_text(a.drop_first(), quote)) + escape_text(
            b,
            quote,
        ));
    }
}

/// One more character extends an escaped text by that character's escape.
proof fn lemma_escape_push(s: Seq<char>, c: char, quote: bool)
    ensures
        escape_text(s.push(c), quote) == escape_text(s, quote) + escape_char(c, quote),
{
    reveal_with_fuel(escape_text, 3);
    assert(s.push(c) =~= s + seq![c]);
    lemma_escape_concat(s, seq![c], quote);
    assert(seq![c].drop_first() =~= Seq::<char>::empty());
    assert(escape_text(seq![c], quote) =~= escape_char(c, quote));
}

/// Escaping rewrites exactly the three escapable characters: a backslash
/// becomes `\\`, a newline becomes `\n`, a double quote becomes `\"`
/// where quotes are escaped, and every other character stands for itself.
pub proof fn lemma_escape_characters(c: char, quote: bool)
    ensures
        escape_char('\\', quote) == seq!['\\', '\\'],
        escape_char('\n', quote) == seq!['\\', 'n'],
        quote ==> escape_char('"', quote) == seq!['\\', '"'],
        !escapable(c, quote) ==> escape_char(c, quote) == seq![c],
{
}

/// Escaping a text without escapable characters copies it unchanged.
pub proof fn lemma_escape_untouched(s: Seq<char>, quote: bool)
    requires
        forall|i: int| 0 <= i < s.len() ==> !escapable(#[trigger] s[i], quote),
    ensures
        escape_text(s, quote) == s,
    decreases s.len(),
{
    if s.len() > 0 {
        assert(!escapable(s[0], quote));
        assert forall|i: int| 0 <= i < s.drop_first().len() implies !escapable(
            #[trigger] s.drop_first()[i],
            quote,
        ) by {
            assert(s.drop_first()[i] == s[i + 1]);
        }
        lemma_escape_untouched(s.drop_first(), quote);
        assert(escape_text(s, quote) =~= s);
    }
}

/// Find the position of the first character the text format would escape.
pub fn find_first_occurence(v: &str, include_double_quote: bool) -> (r: Option<usize>)
    ensures
        r matches Some(i) ==> i < v@.len() && escapable(v@[i as int], include_double_quote)
            && forall|j: int| 0 <= j < i ==> !escapable(#[trigger] v@[j], include_double_quote),
        r is None ==> forall|j: int| 0 <= j < v@.len() ==> !escapable(
            #[trigger] v@[j],
            include_double_quote,
        ),
{
    let n = v.unicode_len();
    let mut i: usize = 0;
    while i < n
        invariant
            i <= n,
            n == v@.len(),
            forall|j: int| 0 <= j < i ==> !escapable(#[trigger] v@[j], include_double_quote),
        decreases n - i,
    {
        let c = v.get_char(i);
        if c == '\\' || c == '\n' || (include_double_quote && c == '"') {
            return Some(i);
        }
        i = i + 1;
    }
    None
}

/// Escape a text for the exposition format; without an escapable character
/// the text passes through in one piece.
pub fn escape_string(v: &str, include_double_quote: bool) -> (r: String)
    ensures
        r@ == escape_text(v@, include_double_quote),
{
    let first = find_first_occurence(v, include_double_quote);
    match first {
        None => {
            proof {
                lemma_escape_untouched(v@, include_double_quote);
            }
            v.to_owned()
        },
        Some(_) => {
            let n = v.unicode_len();
            let mut out = String::new();
            let mut i: usize = 0;
            proof {
                assert(v@.subrange(0, 0) =~= Seq::<char>::empty());
            }
            while i < n
                invariant
                    i <= n,
                    n == v@.len(),
                    out@ == escape_text(v@.subrange(0, i as int), include_double_quote),
                decreases n - i,
            {
                let c = v.get_char(i);
                proof {
                    assert(v@.subrange(0, i as int + 1) =~= v@.subrange(0, i as int).push(
                        v@[i as int],
                    ));
                    lemma_escape_push(v@.subrange(0, i as int), v@[i as int], include_double_quote);
                }
                if c == '\\' {
                    out.push('\\');
                    out.push('\\');
                } else if c == '\n' {
                    out.push('\\');
                    out.push('n');
                } else if include_double_quote && c == '"' {
                    out.push('\\');
                    out.push('"');
                } else {
                    out.push(c);
                }
                proof {
                    assert(out@ =~= escape_text(
                        v@.subrange(0, i as int + 1),
                        include_double_quote,
                    ));
                }
                i = i + 1;
            }
            proof {
                assert(v@.subrange(0, n as int) =~= v@);
            }
            out
        },
    }
}

/// The lowercase text of a family's type tag.
pub open spec fn type_text(t: MetricType) -> Seq<char> {
    match t {
        MetricType::Counter => seq!['c', 'o', 'u', 'n', 't', 'e', 'r'],
        MetricType::Gauge => seq!['g', 'a', 'u', 'g', 'e'],
        MetricType::Histogram => seq!['h', 'i', 's', 't', 'o', 'g', 'r', 'a', 'm'],
        MetricType::Summary => seq!['s', 'u', 'm', 'm', 'a', 'r', 'y'],
    }
}

/// One rendered label pair: `name="escaped value"`.
pub open spec fn label_item(p: LabelPairV) -> Seq<char> {
    p.name + seq!['=', '"'] + escape_text(p.value, true) + seq!['"']
}

/// Label pairs with their separators: `{` before the first, `,` before
/// each further one.
pub open spec fn pairs_chunked(ps: Seq<LabelPairV>) -> Seq<char>
    decreases ps.len(),
{
    if ps.len() == 0 {
        Seq::empty()
    } else {
        pairs_chunked(ps.drop_last()) + seq![
            if ps.len() == 1 {
                '{'
            } else {
                ','
            },
        ] + label_item(ps.last())
    }
}

/// An optional extra pair as a sequence.
pub open spec fn opt_pair(extra: Option<LabelPairV>) -> Seq<LabelPairV> {
    match extra {
        Some(p) => seq![p],
        None => Seq::empty(),
    }
}

/// The label block of a sample line: empty without any pair, else the
/// pairs in braces.
pub open spec fn labels_text(ps: Seq<LabelPairV>, extra: Option<LabelPairV>) -> Seq<char> {
    let all = ps + opt_pair(extra);
    if all.len() == 0 {
        Seq::empty()
    } else {
        pairs_chunked(all) + seq!['}']
    }
}

/// The timestamp tail of a sample line: nothing when absent.
pub open spec fn ts_text(ts: i64) -> Seq<char> {
    if ts == 0 {
        Seq::empty()
    } else {
        seq![' '] + int_text(ts as int)
    }
}

/// One sample line.
pub open spec fn sample_line(
    name: Seq<char>,
    postfix: Seq<char>,
    ps: Seq<LabelPairV>,
    extra: Option<LabelPairV>,
    value: Seq<char>,
    ts: i64,
) -> Seq<char> {
    name + postfix + labels_text(ps, extra) + seq![' '] + value + ts_text(ts) + seq!['\n']
}

/// A list of rendered lines in one piece.
pub open spec fn join_lines(ls: Seq<Seq<char>>) -> Seq<char>
    decreases ls.len(),
{
    if ls.len() == 0 {
        Seq::empty()
    } else {
        join_lines(ls.drop_last()) + ls.last()
    }
}

/// The value a counter-tagged sample shows: its counter payload, or the
/// unsigned zero when the sample carries none.
pub open spec fn counter_value_text(m: MetricV) -> Seq<char> {
    match m.payload {
        crate::proto::MetricPayloadV::Counter { value } => value.text,
        _ => uint_text(0),
    }
}

/// The value a gauge-tagged sample shows.
pub open spec fn gauge_value_text(m: MetricV) -> Seq<char> {
    match m.payload {
        crate::proto::MetricPayloadV::Gauge { value } => value.text,
        _ => uint_text(0),
    }
}

/// The histogram data of a sample: observation count, sum text and
/// buckets; a sample without a histogram payload reads as an empty one.
pub open spec fn histo_of(m: MetricV) -> (u64, Seq<char>, Seq<crate::proto::BucketV>) {
    match m.payload {
        crate::proto::MetricPayloadV::Histogram { sample_count, sample_sum, buckets } => (
            sample_count,
            sample_sum.text,
            buckets,
        ),
        _ => (0, uint_text(0), Seq::empty()),
    }
}

/// The summary data of a sample.
pub open spec fn summary_of(m: MetricV) -> (u64, Seq<char>, Seq<crate::proto::QuantileV>) {
    match m.payload {
        crate::proto::MetricPayloadV::Summary { sample_count, sample_sum, quantiles } => (
            sample_count,
            sample_sum.text,
            quantiles,
        ),
        _ => (0, uint_text(0), Seq::empty()),
    }
}

/// Whether some declared bucket bound is the positive infinity.
pub open spec fn has_pos_inf(bs: Seq<crate::proto::BucketV>) -> bool {
    exists|i: int| 0 <= i < bs.len() && is_pos_inf_bits((#[trigger] bs[i]).upper_bound.bits)
}

/// The `le` label of a bucket bound given as text.
pub open spec fn le_pair(bound: Seq<char>) -> LabelPairV {
    LabelPairV { name: seq!['l', 'e'], value: bound }
}

/// The bound text of the synthetic bucket.
pub open spec fn pos_inf_text() -> Seq<char> {
    seq!['+', 'I', 'n', 'f']
}

/// The `_bucket` suffix.
pub open spec fn bucket_suffix() -> Seq<char> {
    seq!['_', 'b', 'u', 'c', 'k', 'e', 't']
}

/// The `_sum` suffix.
pub open spec fn sum_suffix() -> Seq<char> {
    seq!['_', 's', 'u', 'm']
}

/// The `_count` suffix.
pub open spec fn count_suffix() -> Seq<char> {
    seq!['_', 'c', 'o', 'u', 'n', 't']
}

/// The `quantile` label of a summary line.
pub open spec fn quantile_pair(q: Seq<char>) -> LabelPairV {
    LabelPairV { name: seq!['q', 'u', 'a', 'n', 't', 'i', 'l', 'e'], value: q }
}

/// The `_bucket` lines of a histogram sample: one per declared bucket in
/// declared order, and a synthetic `+Inf` bucket carrying the observation
/// count when no declared bound is the positive infinity.
pub open spec fn histogram_bucket_lines(name: Seq<char>, m: MetricV) -> Seq<Seq<char>> {
    let (count, sum, bs) = histo_of(m);
    Seq::new(
        bs.len(),
        |i: int| sample_line(
            name,
            bucket_suffix(),
            m.labels,
            Some(le_pair(bs[i].upper_bound.text)),
            uint_text(bs[i].cumulative_count as int),
            m.timestamp_ms,
        ),
    ) + if has_pos_inf(bs) {
        Seq::empty()
    } else {
        seq![
            sample_line(
                name,
                bucket_suffix(),
                m.labels,
                Some(le_pair(pos_inf_text())),
                uint_text(count as int),
                m.timestamp_ms,
            ),
        ]
    }
}

/// Histogram synthetic bucket: a histogram whose declared buckets carry no
/// positive-infinite bound renders exactly one `_bucket` line per declared
/// bucket plus one more, and that last line carries the `+Inf` bound and
/// the sample's total observation count.
pub proof fn lemma_histogram_synthetic_bucket(name: Seq<char>, m: MetricV)
    requires
        !has_pos_inf(histo_of(m).2),
    ensures
        histogram_bucket_lines(name, m).len() == histo_of(m).2.len() + 1,
        histogram_bucket_lines(name, m).last() == sample_line(
            name,
            bucket_suffix(),
            m.labels,
            Some(le_pair(pos_inf_text())),
            uint_text(histo_of(m).0 as int),
            m.timestamp_ms,
        ),
        forall|i: int| 0 <= i < histo_of(m).2.len() ==> histogram_bucket_lines(name, m)[i]
            == sample_line(
            name,
            bucket_suffix(),
            m.labels,
            Some(le_pair(histo_of(m).2[i].upper_bound.text)),
            uint_text(histo_of(m).2[i].cumulative_count as int),
            m.timestamp_ms,
        ),
{
}

/// The lines of one sample under its family's type tag.
pub open spec fn metric_text(name: Seq<char>, t: MetricType, m: MetricV) -> Seq<char> {
    match t {
        MetricType::Counter => sample_line(
            name,
            Seq::empty(),
            m.labels,
            None,
            counter_value_text(m),
            m.timestamp_ms,
        ),
        MetricType::Gauge => sample_line(
            name,
            Seq::empty(),
            m.labels,
            None,
            gauge_value_text(m),
            m.timestamp_ms,
        ),
        MetricType::Histogram => {
            let (count, sum, bs) = histo_of(m);
            join_lines(histogram_bucket_lines(name, m)) + sample_line(
                name,
                sum_suffix(),
                m.labels,
                None,
                sum,
                m.timestamp_ms,
            ) + sample_line(
                name,
                count_suffix(),
                m.labels,
                None,
                uint_text(count as int),
                m.timestamp_ms,
            )
        },
        MetricType::Summary => {
            let (count, sum, qs) = summary_of(m);
            join_lines(
                Seq::new(
                    qs.len(),
                    |i: int| sample_line(
                        name,
                        Seq::empty(),
                        m.labels,
                        Some(quantile_pair(qs[i].quantile.text)),
                        qs[i].value.text,
                        m.timestamp_ms,
                    ),
                ),
            ) + sample_line(name, sum_suffix(), m.labels, None, sum, m.timestamp_ms)
                + sample_line(
                name,
                count_suffix(),
                m.labels,
                None,
                uint_text(count as int),
                m.timestamp_ms,
            )
        },
    }
}

/// The `# HELP` line of a family; empty help renders no line.
pub open spec fn help_line(f: MetricFamilyV) -> Seq<char> {
    if f.help.len() == 0 {
        Seq::empty()
    } else {
        seq!['#', ' ', 'H', 'E', 'L', 'P', ' '] + f.name + seq![' '] + escape_text(f.help, false)
            + seq!['\n']
    }
}

/// The `# TYPE` line of a family.
pub open spec fn type_line(f: MetricFamilyV) -> Seq<char> {
    seq!['#', ' ', 'T', 'Y', 'P', 'E', ' '] + f.name + seq![' '] + type_text(f.field_type)
        + seq!['\n']
}

/// All of one family's text: headers, then one block per sample.
pub open spec fn family_text(f: MetricFamilyV) -> Seq<char> {
    help_line(f) + type_line(f) + join_lines(
        Seq::new(f.metrics.len(), |i: int| metric_text(f.name, f.field_type, f.metrics[i])),
    )
}

/// The whole snapshot's text: families in order until the first one that
/// fails its check.
pub open spec fn text_encoding(fams: Seq<MetricFamilyV>) -> Seq<char>
    decreases fams.len(),
{
    if fams.len() == 0 {
        Seq::empty()
    } else if family_check(fams[0]) is Some {
        Seq::empty()
    } else {
        family_text(fams[0]) + text_encoding(fams.drop_first())
    }
}


/// Append a plain string.
fn put_str(buf: &mut String, s: &str)
    ensures
        final(buf)@ == old(buf)@ + s@,
{
    buf.append(s);
}

/// Append one rendered label pair.
fn put_label_item(buf: &mut String, p: &LabelPair)
    ensures
        final(buf)@ == old(buf)@ + label_item(p.deep_view()),
{
    buf.append(p.name.as_str());
    buf.append("=\"");
    let escaped = escape_string(p.value.as_str(), true);
    buf.append(escaped.as_str());
    buf.append("\"");
    proof {
        reveal_strlit("=\"");
        reveal_strlit("\"");
        assert("=\""@ =~= seq!['=', '"']);
        assert("\""@ =~= seq!['"']);
        assert(buf@ =~= old(buf)@ + label_item(p.deep_view()));
    }
}

/// Append a sample's label block: the pairs and the optional extra pair,
/// escaped and braced; nothing at all without any pair.
fn label_pairs_to_text(buf: &mut String, pairs: &Vec<LabelPair>, extra: Option<&LabelPair>)
    ensures
        final(buf)@ == old(buf)@ + labels_text(
            pairs.deep_view(),
            match extra {
                Some(p) => Some(p.deep_view()),
                None => None,
            },
        ),
{
    let ghost extra_v = match extra {
        Some(p) => Some(p.deep_view()),
        None => None,
    };
    let ghost all = pairs.deep_view() + opt_pair(extra_v);
    proof {
        assert(all.subrange(0, 0) =~= Seq::<LabelPairV>::empty());
    }
    let mut k: usize = 0;
    while k < pairs.len()
        invariant
            k <= pairs.len(),
            all == pairs.deep_view() + opt_pair(extra_v),
            buf@ == old(buf)@ + pairs_chunked(all.subrange(0, k as int)),
        decreases pairs.len() - k,
    {
        if k == 0 {
            buf.push('{');
        } else {
            buf.push(',');
        }
        put_label_item(buf, &pairs[k]);
        proof {
            assert(all[k as int] == pairs.deep_view()[k as int]);
            assert(all.subrange(0, k as int + 1).drop_last() =~= all.subrange(0, k as int));
            assert(all.subrange(0, k as int + 1).last() == all[k as int]);
            assert(buf@ =~= old(buf)@ + pairs_chunked(all.subrange(0, k as int + 1)));
        }
        k = k + 1;
    }
    let mut any = pairs.len() > 0;
    match extra {
        Some(p) => {
            if pairs.len() == 0 {
                buf.push('{');
            } else {
                buf.push(',');
            }
            put_label_item(buf, p);
            any = true;
            proof {
                assert(all[pairs.deep_view().len() as int] == p.deep_view());
                assert(all.drop_last() =~= all.subrange(0, pairs.len() as int));
                assert(all.last() == all[pairs.len() as int]);
                assert(buf@ =~= old(buf)@ + pairs_chunked(all));
            }
        },
        None => {
            proof {
                assert(all =~= all.subrange(0, pairs.len() as int));
            }
        },
    }
    if any {
        buf.push('}');
    }
    proof {
        assert(buf@ =~= old(buf)@ + labels_text(pairs.deep_view(), extra_v));
    }
}

/// Append one sample line.
fn write_sample(
    buf: &mut String,
    name: &str,
    postfix: Option<&str>,
    pairs: &Vec<LabelPair>,
    extra: Option<&LabelPair>,
    value: &str,
    ts: i64,
)
    ensures
        final(buf)@ == old(buf)@ + sample_line(
            name@,
            match postfix {
                Some(p) => p@,
                None => Seq::empty(),
            },
            pairs.deep_view(),
            match extra {
                Some(p) => Some(p.deep_view()),
                None => None,
            },
            value@,
            ts,
        ),
{
    buf.append(name);
    match postfix {
        Some(p) => {
            buf.append(p);
        },
        None => {},
    }
    label_pairs_to_text(buf, pairs, extra);
    buf.push(' ');
    buf.append(value);
    if ts != 0 {
        buf.push(' ');
        let t = i64_text(ts);
        buf.append(t.as_str());
    }
    buf.push('\n');
    proof {
        assert(buf@ =~= old(buf)@ + sample_line(
            name@,
            match postfix {
                Some(p) => p@,
                None => Seq::<char>::empty(),
            },
            pairs.deep_view(),
            match extra {
                Some(p) => Some(p.deep_view()),
                None => None,
            },
            value@,
            ts,
        ));
    }
}

/// Append every line of one sample under its family's type tag.
fn put_metric(buf: &mut String, name: &str, t: MetricType, m: &Metric)
    ensures
        final(buf)@ == old(buf)@ + metric_text(name@, t, m.deep_view()),
{
    match t {
        MetricType::Counter => {
            let v = match &m.payload {
                MetricPayload::Counter { value } => value.render_text(),
                _ => u64_text(0),
            };
            proof {
                assert(v@ == counter_value_text(m.deep_view()));
            }
            write_sample(buf, name, None, &m.labels, None, v.as_str(), m.timestamp_ms);
        },
        MetricType::Gauge => {
            let v = match &m.payload {
                MetricPayload::Gauge { value } => value.render_text(),
                _ => u64_text(0),
            };
            proof {
                assert(v@ == gauge_value_text(m.deep_view()));
            }
            write_sample(buf, name, None, &m.labels, None, v.as_str(), m.timestamp_ms);
        },
        MetricType::Histogram => {
            put_histogram(buf, name, m);
        },
        MetricType::Summary => {
            put_summary(buf, name, m);
        },
    }
}

/// Append a histogram sample's `_bucket`, `_sum` and `_count` lines.
#[verifier::rlimit(60)]
fn put_histogram(buf: &mut String, name: &str, m: &Metric)
    ensures
        final(buf)@ == old(buf)@ + metric_text(name@, MetricType::Histogram, m.deep_view()),
{
    let ghost mv = m.deep_view();
    let ghost lines = histogram_bucket_lines(name@, mv);
    match &m.payload {
        MetricPayload::Histogram { sample_count, sample_sum, buckets } => {
            proof {
                assert(histo_of(mv).2 == buckets.deep_view());
                assert(histo_of(mv).0 == *sample_count);
            }
            let mut inf_seen = false;
            let mut i: usize = 0;
            proof {
                assert(lines.subrange(0, 0) =~= Seq::<Seq<char>>::empty());
            }
            while i < buckets.len()
                invariant
                    i <= buckets.len(),
                    mv == m.deep_view(),
                    lines == histogram_bucket_lines(name@, mv),
                    histo_of(mv).2 == buckets.deep_view(),
                    lines.len() >= buckets.len(),
                    buf@ == old(buf)@ + join_lines(lines.subrange(0, i as int)),
                    inf_seen == exists|k: int|
                        0 <= k < i && is_pos_inf_bits(
                            (#[trigger] buckets.deep_view()[k]).upper_bound.bits,
                        ),
                decreases buckets.len() - i,
            {
                let b = &buckets[i];
                let bound = b.upper_bound.render_text();
                let le = LabelPair { name: new_string("le"), value: bound };
                let count_text = u64_text(b.cumulative_count);
                proof {
                    reveal_strlit("le");
                    assert("le"@ =~= seq!['l', 'e']);
                    assert(le.deep_view() == le_pair(
                        buckets.deep_view()[i as int].upper_bound.text,
                    ));
                    assert(lines[i as int] == sample_line(
                        name@,
                        bucket_suffix(),
                        mv.labels,
                        Some(le_pair(buckets.deep_view()[i as int].upper_bound.text)),
                        uint_text(buckets.deep_view()[i as int].cumulative_count as int),
                        mv.timestamp_ms,
                    ));
                    reveal_strlit("_bucket");
                    assert("_bucket"@ =~= bucket_suffix());
                }
                write_sample(
                    buf,
                    name,
                    Some("_bucket"),
                    &m.labels,
                    Some(&le),
                    count_text.as_str(),
                    m.timestamp_ms,
                );
                let is_inf = b.upper_bound.is_pos_inf();
                inf_seen = inf_seen || is_inf;
                proof {
                    assert(lines.subrange(0, i as int + 1).drop_last() =~= lines.subrange(
                        0,
                        i as int,
                    ));
                    assert(buf@ =~= old(buf)@ + join_lines(lines.subrange(0, i as int + 1)));
                }
                i = i + 1;
            }
            proof {
                assert(inf_seen == has_pos_inf(histo_of(mv).2));
            }
            if !inf_seen {
                let le = LabelPair { name: new_string("le"), value: new_string("+Inf") };
                let count_text = u64_text(*sample_count);
                proof {
                    reveal_strlit("le");
                    reveal_strlit("+Inf");
                    assert("le"@ =~= seq!['l', 'e']);
                    assert("+Inf"@ =~= pos_inf_text());
                    reveal_strlit("_bucket");
                    assert("_bucket"@ =~= bucket_suffix());
                    assert(lines.len() == buckets.len() + 1);
                    assert(lines.last() == sample_line(
                        name@,
                        bucket_suffix(),
                        mv.labels,
                        Some(le_pair(pos_inf_text())),
                        uint_text(histo_of(mv).0 as int),
                        mv.timestamp_ms,
                    ));
                }
                write_sample(
                    buf,
                    name,
                    Some("_bucket"),
                    &m.labels,
                    Some(&le),
                    count_text.as_str(),
                    m.timestamp_ms,
                );
                proof {
                    assert(lines.drop_last() =~= lines.subrange(0, buckets.len() as int));
                    assert(buf@ =~= old(buf)@ + join_lines(lines));
                }
            } else {
                proof {
                    assert(lines =~= lines.subrange(0, buckets.len() as int));
                }
            }
            let sum_text = sample_sum.render_text();
            proof {
                reveal_strlit("_sum");
                assert("_sum"@ =~= sum_suffix());
            }
            write_sample(buf, name, Some("_sum"), &m.labels, None, sum_text.as_str(), m.timestamp_ms);
            let count_text = u64_text(*sample_count);
            proof {
                reveal_strlit("_count");
                assert("_count"@ =~= count_suffix());
            }
            write_sample(
                buf,
                name,
                Some("_count"),
                &m.labels,
                None,
                count_text.as_str(),
                m.timestamp_ms,
            );
            proof {
                assert(buf@ =~= old(buf)@ + metric_text(name@, MetricType::Histogram, mv));
            }
        },
        _ => {
            // A histogram-tagged sample without histogram data reads as an
            // empty histogram: one synthetic bucket, zero sum, zero count.
            proof {
                assert(histo_of(mv).2 =~= Seq::<crate::proto::BucketV>::empty());
                assert(!has_pos_inf(histo_of(mv).2));
                assert(lines.len() == 1);
                assert(lines.drop_last() =~= Seq::<Seq<char>>::empty());
            }
            let le = LabelPair { name: new_string("le"), value: new_string("+Inf") };
            let zero = u64_text(0);
            proof {
                reveal_strlit("le");
                reveal_strlit("+Inf");
                assert("le"@ =~= seq!['l', 'e']);
                assert("+Inf"@ =~= pos_inf_text());
                reveal_strlit("_bucket");
                assert("_bucket"@ =~= bucket_suffix());
            }
            write_sample(
                buf,
                name,
                Some("_bucket"),
                &m.labels,
                Some(&le),
                zero.as_str(),
                m.timestamp_ms,
            );
            proof {
                assert(histo_of(mv).0 == 0);
                assert(lines.last() == sample_line(
                    name@,
                    bucket_suffix(),
                    mv.labels,
                    Some(le_pair(pos_inf_text())),
                    uint_text(0),
                    mv.timestamp_ms,
                ));
                assert(le.deep_view() == le_pair(pos_inf_text()));
                assert(buf@ =~= old(buf)@ + join_lines(lines.drop_last()) + lines.last());
                assert(buf@ =~= old(buf)@ + join_lines(lines));
                reveal_strlit("_sum");
                assert("_sum"@ =~= sum_suffix());
            }
            let zero2 = u64_text(0);
            write_sample(buf, name, Some("_sum"), &m.labels, None, zero2.as_str(), m.timestamp_ms);
            proof {
                reveal_strlit("_count");
                assert("_count"@ =~= count_suffix());
            }
            let zero3 = u64_text(0);
            write_sample(buf, name, Some("_count"), &m.labels, None, zero3.as_str(), m.timestamp_ms);
            proof {
                assert(buf@ =~= old(buf)@ + metric_text(name@, MetricType::Histogram, mv));
            }
        },
    }
}

/// Append a summary sample's quantile, `_sum` and `_count` lines.
fn put_summary(buf: &mut String, name: &str, m: &Metric)
    ensures
        final(buf)@ == old(buf)@ + metric_text(name@, MetricType::Summary, m.deep_view()),
{
    let ghost mv = m.deep_view();
    let ghost lines = Seq::new(
        summary_of(mv).2.len(),
        |i: int| sample_line(
            name@,
            Seq::empty(),
            mv.labels,
            Some(quantile_pair(summary_of(mv).2[i].quantile.text)),
            summary_of(mv).2[i].value.text,
            mv.timestamp_ms,
        ),
    );
    match &m.payload {
        MetricPayload::Summary { sample_count, sample_sum, quantiles } => {
            proof {
                assert(summary_of(mv).2 == quantiles.deep_view());
                assert(summary_of(mv).0 == *sample_count);
            }
            let mut i: usize = 0;
            proof {
                assert(lines.subrange(0, 0) =~= Seq::<Seq<char>>::empty());
            }
            while i < quantiles.len()
                invariant
                    i <= quantiles.len(),
                    mv == m.deep_view(),
                    summary_of(mv).2 == quantiles.deep_view(),
                    lines == Seq::new(
                        summary_of(mv).2.len(),
                        |k: int| sample_line(
                            name@,
                            Seq::empty(),
                            mv.labels,
                            Some(quantile_pair(summary_of(mv).2[k].quantile.text)),
                            summary_of(mv).2[k].value.text,
                            mv.timestamp_ms,
                        ),
                    ),
                    buf@ == old(buf)@ + join_lines(lines.subrange(0, i as int)),
                decreases quantiles.len() - i,
            {
                let q = &quantiles[i];
                let rank = q.quantile.render_text();
                let qp = LabelPair { name: new_string("quantile"), value: rank };
                let v = q.value.render_text();
                proof {
                    reveal_strlit("quantile");
                    assert("quantile"@ =~= seq!['q', 'u', 'a', 'n', 't', 'i', 'l', 'e']);
                    assert(qp.deep_view() == quantile_pair(
                        quantiles.deep_view()[i as int].quantile.text,
                    ));
                    assert(lines[i as int] == sample_line(
                        name@,
                        Seq::<char>::empty(),
                        mv.labels,
                        Some(quantile_pair(quantiles.deep_view()[i as int].quantile.text)),
                        quantiles.deep_view()[i as int].value.text,
                        mv.timestamp_ms,
                    ));
                }
                write_sample(buf, name, None, &m.labels, Some(&qp), v.as_str(), m.timestamp_ms);
                proof {
                    assert(lines.subrange(0, i as int + 1).drop_last() =~= lines.subrange(
                        0,
                        i as int,
                    ));
                    assert(buf@ =~= old(buf)@ + join_lines(lines.subrange(0, i as int + 1)));
                }
                i = i + 1;
            }
            proof {
                assert(lines =~= lines.subrange(0, quantiles.len() as int));
            }
            let sum_text = sample_sum.render_text();
            proof {
                reveal_strlit("_sum");
                assert("_sum"@ =~= sum_suffix());
            }
            write_sample(buf, name, Some("_sum"), &m.labels, None, sum_text.as_str(), m.timestamp_ms);
            let count_text = u64_text(*sample_count);
            proof {
                reveal_strlit("_count");
                assert("_count"@ =~= count_suffix());
            }
            write_sample(
                buf,
                name,
                Some("_count"),
                &m.labels,
                None,
                count_text.as_str(),
                m.timestamp_ms,
            );
            proof {
                assert(buf@ =~= old(buf)@ + metric_text(name@, MetricType::Summary, mv));
            }
        },
        _ => {
            proof {
                assert(summary_of(mv).2 =~= Seq::<crate::proto::QuantileV>::empty());
                assert(lines.len() == 0);
                assert(join_lines(lines) =~= Seq::<char>::empty());
                reveal_strlit("_sum");
                assert("_sum"@ =~= sum_suffix());
            }
            let zero = u64_text(0);
            write_sample(buf, name, Some("_sum"), &m.labels, None, zero.as_str(), m.timestamp_ms);
            proof {
                reveal_strlit("_count");
                assert("_count"@ =~= count_suffix());
            }
            let zero2 = u64_text(0);
            write_sample(buf, name, Some("_count"), &m.labels, None, zero2.as_str(), m.timestamp_ms);
            proof {
                assert(buf@ =~= old(buf)@ + metric_text(name@, MetricType::Summary, mv));
            }
        },
    }
}

/// Make an owned copy of a string slice.
fn new_string(s: &str) -> (r: String)
    ensures
        r@ == s@,
{
    s.to_owned()
}

/// Append one family: its headers, then every sample's lines.
#[verifier::rlimit(60)]
fn put_family(buf: &mut String, mf: &MetricFamily)
    ensures
        final(buf)@ == old(buf)@ + family_text(mf.deep_view()),
{
    let ghost fv = mf.deep_view();
    if mf.help.as_str().unicode_len() != 0 {
        buf.append("# HELP ");
        buf.append(mf.name.as_str());
        buf.push(' ');
        let escaped = escape_string(mf.help.as_str(), false);
        buf.append(escaped.as_str());
        buf.push('\n');
        proof {
            reveal_strlit("# HELP ");
            assert("# HELP "@ =~= seq!['#', ' ', 'H', 'E', 'L', 'P', ' ']);
            assert(buf@ =~= old(buf)@ + help_line(fv));
        }
    } else {
        proof {
            assert(help_line(fv) =~= Seq::<char>::empty());
            assert(buf@ =~= old(buf)@ + help_line(fv));
        }
    }
    buf.append("# TYPE ");
    buf.append(mf.name.as_str());
    buf.push(' ');
    match mf.field_type {
        MetricType::Counter => buf.append("counter"),
        MetricType::Gauge => buf.append("gauge"),
        MetricType::Histogram => buf.append("histogram"),
        MetricType::Summary => buf.append("summary"),
    }
    buf.push('\n');
    proof {
        reveal_strlit("# TYPE ");
        reveal_strlit("counter");
        reveal_strlit("gauge");
        reveal_strlit("histogram");
        reveal_strlit("summary");
        assert("# TYPE "@ =~= seq!['#', ' ', 'T', 'Y', 'P', 'E', ' ']);
        assert("counter"@ =~= type_text(MetricType::Counter));
        assert("gauge"@ =~= type_text(MetricType::Gauge));
        assert("histogram"@ =~= type_text(MetricType::Histogram));
        assert("summary"@ =~= type_text(MetricType::Summary));
        assert(buf@ =~= old(buf)@ + help_line(fv) + type_line(fv));
    }
    let ghost mlines = Seq::new(
        fv.metrics.len(),
        |i: int| metric_text(fv.name, fv.field_type, fv.metrics[i]),
    );
    let ghost after_headers = buf@;
    let mut i: usize = 0;
    proof {
        assert(mlines.subrange(0, 0) =~= Seq::<Seq<char>>::empty());
        assert(buf@ =~= after_headers + join_lines(mlines.subrange(0, 0)));
    }
    while i < mf.metrics.len()
        invariant
            i <= mf.metrics.len(),
            fv == mf.deep_view(),
            mlines == Seq::new(
                fv.metrics.len(),
                |k: int| metric_text(fv.name, fv.field_type, fv.metrics[k]),
            ),
            buf@ == after_headers + join_lines(mlines.subrange(0, i as int)),
        decreases mf.metrics.len() - i,
    {
        proof {
            assert(mf.metrics[i as int].deep_view() == fv.metrics[i as int]);
        }
        put_metric(buf, mf.name.as_str(), mf.field_type, &mf.metrics[i]);
        proof {
            assert(mlines.subrange(0, i as int + 1).drop_last() =~= mlines.subrange(0, i as int));
            assert(buf@ =~= after_headers + join_lines(mlines.subrange(0, i as int + 1)));
        }
        i = i + 1;
    }
    proof {
        assert(mlines =~= mlines.subrange(0, mf.metrics.len() as int));
        assert(buf@ =~= old(buf)@ + family_text(fv));
    }
}

/// Whatever a snapshot's prefix of passing families encodes to, the rest
/// of the text and the first failure live in the remaining families.
proof fn lemma_text_prefix(fams: Seq<MetricFamilyV>, i: int)
    requires
        0 <= i <= fams.len(),
        forall|k: int| 0 <= k < i ==> family_check(#[trigger] fams[k]) is None,
    ensures
        text_encoding(fams) == join_lines(Seq::new(i as nat, |k: int| family_text(fams[k])))
            + text_encoding(fams.skip(i)),
        first_failure(fams) == first_failure(fams.skip(i)),
    decreases i,
{
    if i == 0 {
        assert(fams.skip(0) =~= fams);
        assert(Seq::new(0, |k: int| family_text(fams[k])) =~= Seq::<Seq<char>>::empty());
        assert(join_lines(Seq::new(0, |k: int| family_text(fams[k]))) + text_encoding(fams)
            =~= text_encoding(fams));
    } else {
        lemma_text_prefix(fams, i - 1);
        let prev = fams.skip(i - 1);
        assert(prev[0] == fams[i - 1]);
        assert(family_check(prev[0]) is None);
        assert(prev.drop_first() =~= fams.skip(i));
        assert(text_encoding(prev) == family_text(fams[i - 1]) + text_encoding(fams.skip(i)));
        let upto_prev = Seq::new((i - 1) as nat, |k: int| family_text(fams[k]));
        let upto = Seq::new(i as nat, |k: int| family_text(fams[k]));
        assert(upto.drop_last() =~= upto_prev);
        assert(upto.last() == family_text(fams[i - 1]));
        assert(join_lines(upto_prev) + (family_text(fams[i - 1]) + text_encoding(fams.skip(i)))
            =~= join_lines(upto) + text_encoding(fams.skip(i)));
    }
}

/// An implementation of an [`Encoder`] that renders a snapshot in the
/// plain-text exposition format.
#[derive(Debug, Default)]
pub struct TextEncoder;

impl TextEncoder {
    /// Create a new text encoder.
    pub fn new() -> (r: TextEncoder) {
        TextEncoder
    }

    /// Append a snapshot's text to a given `String` buffer: families in
    /// order until the first one that fails its check, whose failure is
    /// the result.
    pub fn encode_utf8(&self, metric_families: &Vec<MetricFamily>, buf: &mut String) -> (r: Result<
        (),
        Error,
    >)
        ensures
            final(buf)@ == old(buf)@ + text_encoding(metric_families.deep_view()),
            r == match first_failure(metric_families.deep_view()) {
                Some(e) => Result::<(), Error>::Err(e),
                None => Result::<(), Error>::Ok(()),
            },
    {
        let ghost dv = metric_families.deep_view();
        let ghost texts = Seq::new(dv.len(), |k: int| family_text(dv[k]));
        let mut i: usize = 0;
        proof {
            assert(texts.subrange(0, 0) =~= Seq::<Seq<char>>::empty());
        }
        while i < metric_families.len()
            invariant
                i <= metric_families.len(),
                dv == metric_families.deep_view(),
                texts == Seq::new(dv.len(), |k: int| family_text(dv[k])),
                forall|k: int| 0 <= k < i ==> family_check(#[trigger] dv[k]) is None,
                buf@ == old(buf)@ + join_lines(texts.subrange(0, i as int)),
            decreases metric_families.len() - i,
        {
            let mf = &metric_families[i];
            proof {
                assert(mf.deep_view() == dv[i as int]);
            }
            let checked = crate::encoder::check_metric_family(mf);
            match checked {
                Err(e) => {
                    proof {
                        lemma_text_prefix(dv, i as int);
                        assert(dv.skip(i as int)[0] == dv[i as int]);
                        assert(text_encoding(dv.skip(i as int)) =~= Seq::<char>::empty());
                        assert(texts.subrange(0, i as int) =~= Seq::new(
                            i as nat,
                            |k: int| family_text(dv[k]),
                        ));
                    }
                    return Err(e);
                },
                Ok(_) => {},
            }
            put_family(buf, mf);
            proof {
                assert(texts.subrange(0, i as int + 1).drop_last() =~= texts.subrange(
                    0,
                    i as int,
                ));
                assert(texts.subrange(0, i as int + 1).last() == family_text(dv[i as int]));
                assert(buf@ =~= old(buf)@ + join_lines(texts.subrange(0, i as int + 1)));
            }
            i = i + 1;
        }
        proof {
            lemma_text_prefix(dv, dv.len() as int);
            assert(dv.skip(dv.len() as int) =~= Seq::<MetricFamilyV>::empty());
            assert(text_encoding(dv.skip(dv.len() as int)) =~= Seq::<char>::empty());
            assert(texts.subrange(0, dv.len() as int) =~= Seq::new(
                dv.len(),
                |k: int| family_text(dv[k]),
            ));
            assert(buf@ =~= old(buf)@ + text_encoding(dv));
        }
        Ok(())
    }

    /// Render a snapshot's text as a fresh `String`.
    pub fn encode_to_string(&self, metric_families: &Vec<MetricFamily>) -> (r: Result<
        String,
        Error,
    >)
        ensures
            r matches Ok(s) ==> s@ == text_encoding(metric_families.deep_view())
                && first_failure(metric_families.deep_view()) is None,
            r matches Err(e) ==> first_failure(metric_families.deep_view()) == Some(e),
    {
        let mut buf = String::new();
        match self.encode_utf8(metric_families, &mut buf) {
            Ok(_) => Ok(buf),
            Err(e) => Err(e),
        }
    }
}

impl Encoder for TextEncoder {
    /// The UTF-8 bytes of the snapshot's text.
    open spec fn wire_bytes(fams: Seq<MetricFamilyV>) -> Seq<u8> {
        vstd::utf8::encode_utf8(text_encoding(fams))
    }

    /// The text format's media type.
    open spec fn media_type() -> Seq<char> {
        TEXT_FORMAT@
    }

    fn encode(&self, mfs: &Vec<MetricFamily>, writer: &mut Vec<u8>) -> (r: Result<(), Error>) {
        let mut buf = String::new();
        let r = self.encode_utf8(mfs, &mut buf);
        let bytes = buf.as_str().as_bytes();
        writer.extend_from_slice(bytes);
        proof {
            assert(writer@ =~= old(writer)@ + Self::wire_bytes(mfs.deep_view()));
        }
        r
    }

    fn format_type(&self) -> (r: &'static str) {
        TEXT_FORMAT
    }
}

} // verus!
