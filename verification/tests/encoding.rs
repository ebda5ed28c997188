//! The two exposition formats and the numeric renderings behind them.

use prometheus::counter::IntCounter;
use prometheus::encoder::pb::ProtobufEncoder;
use prometheus::encoder::text::{escape_string, find_first_occurence, TextEncoder, TEXT_FORMAT};
use prometheus::encoder::Encoder;
use prometheus::errors::Error;
use prometheus::numtext::{i64_double_bits, i64_text, u64_double_bits, u64_text};
use prometheus::proto::{
    Bucket, LabelPair, Metric, MetricFamily, MetricPayload, MetricType, Quantile, SampleValue,
};
use prometheus::registry::{Collector, Registry};

fn dbl(v: f64) -> SampleValue {
    SampleValue::Dbl {
        bits: v.to_bits(),
        text: v.to_string(),
    }
}

// Text round-trip: a counter named req_total with value 3 and help
// "requests" encodes to exactly the expected text.
#[test]
fn text_round_trip() {
    let mut reg = Registry::new();
    let mut c = IntCounter::new("req_total".to_string(), "requests".to_string()).unwrap();
    c.inc_by(3);
    reg.register(Collector::Counter(c)).unwrap();
    let mfs = reg.gather();
    let encoder = TextEncoder::new();
    let out = encoder.encode_to_string(&mfs).unwrap();
    assert_eq!(
        out,
        "# HELP req_total requests\n# TYPE req_total counter\nreq_total 3\n"
    );
}

#[test]
fn first_escapable_position() {
    assert_eq!(find_first_occurence("plain", true), None);
    assert_eq!(find_first_occurence("ab\\cd", false), Some(2));
    assert_eq!(find_first_occurence("ab\"cd", false), None);
    assert_eq!(find_first_occurence("ab\"cd", true), Some(2));
    assert_eq!(find_first_occurence("\n", false), Some(0));
}

#[test]
fn text_format_type() {
    let encoder = TextEncoder::new();
    assert_eq!(encoder.format_type(), TEXT_FORMAT);
    assert_eq!(encoder.format_type(), "text/plain; version=0.0.4");
}

// Escaping: backslash, newline and double quote map to their escapes, all
// other characters stay untouched, and a clean value passes through.
#[test]
fn escaping_rewrites_the_three_characters() {
    assert_eq!(escape_string("a\\b\nc\"d", true), "a\\\\b\\nc\\\"d");
    assert_eq!(escape_string("a\\b\nc\"d", false), "a\\\\b\\nc\"d");
    assert_eq!(escape_string("plain value", true), "plain value");
    assert_eq!(escape_string("", true), "");
}

#[test]
fn labelled_sample_renders_escaped_value() {
    let mf = MetricFamily {
        name: "m".to_string(),
        help: String::new(),
        field_type: MetricType::Gauge,
        metrics: vec![Metric {
            labels: vec![LabelPair {
                name: "path".to_string(),
                value: "a\"b".to_string(),
            }],
            payload: MetricPayload::Gauge {
                value: SampleValue::Int(1),
            },
            timestamp_ms: 0,
        }],
    };
    let encoder = TextEncoder::new();
    let out = encoder.encode_to_string(&vec![mf]).unwrap();
    assert_eq!(out, "# TYPE m gauge\nm{path=\"a\\\"b\"} 1\n");
}

// Histogram synthetic bucket: declared buckets [1.0, 5.0] without a +Inf
// bound produce exactly three _bucket lines, the last carrying le="+Inf"
// and the family's total count.
#[test]
fn histogram_synthetic_bucket() {
    let mf = MetricFamily {
        name: "h".to_string(),
        help: String::new(),
        field_type: MetricType::Histogram,
        metrics: vec![Metric {
            labels: Vec::new(),
            payload: MetricPayload::Histogram {
                sample_count: 6,
                sample_sum: dbl(7.5),
                buckets: vec![
                    Bucket {
                        cumulative_count: 1,
                        upper_bound: dbl(1.0),
                    },
                    Bucket {
                        cumulative_count: 4,
                        upper_bound: dbl(5.0),
                    },
                ],
            },
            timestamp_ms: 0,
        }],
    };
    let encoder = TextEncoder::new();
    let out = encoder.encode_to_string(&vec![mf]).unwrap();
    let bucket_lines: Vec<&str> = out
        .lines()
        .filter(|l| l.starts_with("h_bucket"))
        .collect();
    assert_eq!(bucket_lines.len(), 3);
    assert_eq!(bucket_lines[0], "h_bucket{le=\"1\"} 1");
    assert_eq!(bucket_lines[1], "h_bucket{le=\"5\"} 4");
    assert_eq!(bucket_lines[2], "h_bucket{le=\"+Inf\"} 6");
    assert!(out.contains("h_sum 7.5\n"));
    assert!(out.contains("h_count 6\n"));
}

#[test]
fn histogram_keeps_declared_inf_bucket() {
    let mf = MetricFamily {
        name: "h".to_string(),
        help: String::new(),
        field_type: MetricType::Histogram,
        metrics: vec![Metric {
            labels: Vec::new(),
            payload: MetricPayload::Histogram {
                sample_count: 2,
                sample_sum: dbl(0.5),
                buckets: vec![Bucket {
                    cumulative_count: 2,
                    upper_bound: dbl(f64::INFINITY),
                }],
            },
            timestamp_ms: 0,
        }],
    };
    let encoder = TextEncoder::new();
    let out = encoder.encode_to_string(&vec![mf]).unwrap();
    let bucket_lines: Vec<&str> = out
        .lines()
        .filter(|l| l.starts_with("h_bucket"))
        .collect();
    assert_eq!(bucket_lines.len(), 1);
}

#[test]
fn summary_renders_quantiles() {
    let mf = MetricFamily {
        name: "s".to_string(),
        help: String::new(),
        field_type: MetricType::Summary,
        metrics: vec![Metric {
            labels: Vec::new(),
            payload: MetricPayload::Summary {
                sample_count: 4,
                sample_sum: dbl(10.0),
                quantiles: vec![Quantile {
                    quantile: dbl(0.5),
                    value: dbl(2.5),
                }],
            },
            timestamp_ms: 0,
        }],
    };
    let encoder = TextEncoder::new();
    let out = encoder.encode_to_string(&vec![mf]).unwrap();
    assert_eq!(
        out,
        "# TYPE s summary\ns{quantile=\"0.5\"} 2.5\ns_sum 10\ns_count 4\n"
    );
}

#[test]
fn sample_timestamp_rendered_when_set() {
    let mf = MetricFamily {
        name: "t".to_string(),
        help: String::new(),
        field_type: MetricType::Gauge,
        metrics: vec![Metric {
            labels: Vec::new(),
            payload: MetricPayload::Gauge {
                value: SampleValue::Int(2),
            },
            timestamp_ms: 1234,
        }],
    };
    let encoder = TextEncoder::new();
    let out = encoder.encode_to_string(&vec![mf]).unwrap();
    assert_eq!(out, "# TYPE t gauge\nt 2 1234\n");
}

#[test]
fn encoders_reject_empty_and_unnamed_families() {
    let empty = MetricFamily {
        name: "e".to_string(),
        help: String::new(),
        field_type: MetricType::Gauge,
        metrics: Vec::new(),
    };
    let unnamed = MetricFamily {
        name: String::new(),
        help: String::new(),
        field_type: MetricType::Gauge,
        metrics: vec![Metric {
            labels: Vec::new(),
            payload: MetricPayload::Gauge {
                value: SampleValue::Int(0),
            },
            timestamp_ms: 0,
        }],
    };
    let text = TextEncoder::new();
    assert_eq!(
        text.encode_to_string(&vec![empty.clone()]).unwrap_err(),
        Error::EmptyFamily
    );
    assert_eq!(
        text.encode_to_string(&vec![unnamed.clone()]).unwrap_err(),
        Error::UnnamedFamily
    );
    let pb = ProtobufEncoder::new();
    let mut buf: Vec<u8> = Vec::new();
    assert_eq!(pb.encode(&vec![empty], &mut buf).unwrap_err(), Error::EmptyFamily);
    assert!(buf.is_empty());
    assert_eq!(
        pb.encode(&vec![unnamed], &mut buf).unwrap_err(),
        Error::UnnamedFamily
    );
}

// The binary record of a plain counter family, byte for byte.
#[test]
fn binary_counter_record() {
    let mf = MetricFamily {
        name: "c".to_string(),
        help: String::new(),
        field_type: MetricType::Counter,
        metrics: vec![Metric {
            labels: Vec::new(),
            payload: MetricPayload::Counter {
                value: SampleValue::Uint(3),
            },
            timestamp_ms: 0,
        }],
    };
    let pb = ProtobufEncoder::new();
    let mut buf: Vec<u8> = Vec::new();
    pb.encode(&vec![mf], &mut buf).unwrap();
    let mut expected: Vec<u8> = Vec::new();
    let mut msg: Vec<u8> = Vec::new();
    msg.extend_from_slice(&[0x0a, 1, b'c']); // name
    msg.extend_from_slice(&[0x12, 0]); // help
    msg.extend_from_slice(&[0x18, 0]); // type: counter
    let mut metric: Vec<u8> = Vec::new();
    metric.push(0x1a); // counter record
    metric.push(9);
    metric.push(0x09); // its value field
    metric.extend_from_slice(&3.0f64.to_bits().to_le_bytes());
    msg.push(0x22); // one sample record
    msg.push(metric.len() as u8);
    msg.extend_from_slice(&metric);
    expected.push(msg.len() as u8); // the record's length prefix
    expected.extend_from_slice(&msg);
    assert_eq!(buf, expected);
}

#[test]
fn binary_format_type() {
    let pb = ProtobufEncoder::new();
    assert_eq!(
        pb.format_type(),
        "application/vnd.google.protobuf; proto=io.prometheus.client.MetricFamily; encoding=delimited"
    );
}

// The decimal renderings are the exact integer forms.
#[test]
fn decimal_text_is_exact() {
    assert_eq!(u64_text(0), "0");
    assert_eq!(u64_text(3), "3");
    assert_eq!(u64_text(10), "10");
    assert_eq!(u64_text(u64::MAX), u64::MAX.to_string());
    assert_eq!(i64_text(0), "0");
    assert_eq!(i64_text(-1), "-1");
    assert_eq!(i64_text(i64::MIN), i64::MIN.to_string());
    assert_eq!(i64_text(i64::MAX), i64::MAX.to_string());
}

// The integer-to-binary64 conversion agrees with the hardware rounding,
// also beyond the exactly representable range.
#[test]
fn double_bits_match_hardware() {
    let cases: [u64; 9] = [
        0,
        1,
        3,
        (1u64 << 53) - 1,
        1u64 << 53,
        (1u64 << 53) + 1,
        (1u64 << 53) + 3,
        u64::MAX,
        12345678901234567890,
    ];
    for v in cases {
        assert_eq!(u64_double_bits(v), (v as f64).to_bits(), "for {}", v);
    }
    let signed: [i64; 7] = [0, 1, -1, i64::MAX, i64::MIN, -987654321987654321, 42];
    for v in signed {
        assert_eq!(i64_double_bits(v), (v as f64).to_bits(), "for {}", v);
    }
}
