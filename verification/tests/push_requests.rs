//! Push-gateway request building and validation.

use prometheus::counter::IntCounter;
use prometheus::errors::Error;
use prometheus::proto::{LabelPair, Metric, MetricFamily, MetricPayload, MetricType, SampleValue};
use prometheus::encoder::pb::ProtobufEncoder;
use prometheus::encoder::Encoder;
use prometheus::push::{
    push_add_metrics, push_collector, push_metrics, status_accepted, PushMethod,
};
use prometheus::registry::{Collector, Registry};

fn one_family(label_name: &str) -> MetricFamily {
    MetricFamily {
        name: "m".to_string(),
        help: String::new(),
        field_type: MetricType::Gauge,
        metrics: vec![Metric {
            labels: vec![LabelPair {
                name: label_name.to_string(),
                value: "v".to_string(),
            }],
            payload: MetricPayload::Gauge {
                value: SampleValue::Int(1),
            },
            timestamp_ms: 0,
        }],
    }
}

#[test]
fn push_builds_full_url() {
    let req = push_metrics("job1", &Vec::new(), "example.test:9091", &Vec::new(), None).unwrap();
    assert_eq!(req.method, PushMethod::Put);
    assert_eq!(req.url, "http://example.test:9091/metrics/job/job1");
    assert!(req.body.is_empty());
}

#[test]
fn push_keeps_scheme_and_trims_slash() {
    let req = push_metrics("j", &Vec::new(), "https://gw.test/", &Vec::new(), None).unwrap();
    assert_eq!(req.url, "https://gw.test/metrics/job/j");
}

#[test]
fn push_appends_grouping_components() {
    let grouping = vec![("zone".to_string(), "eu".to_string())];
    let req = push_metrics("j", &grouping, "gw.test", &Vec::new(), None).unwrap();
    assert_eq!(req.url, "http://gw.test/metrics/job/j/zone/eu");
}

#[test]
fn push_add_uses_post() {
    let req = push_add_metrics("j", &Vec::new(), "gw.test", &Vec::new(), None).unwrap();
    assert_eq!(req.method, PushMethod::Post);
}

#[test]
fn push_rejects_job_with_slash() {
    let err = push_metrics("a/b", &Vec::new(), "gw.test", &Vec::new(), None).unwrap_err();
    assert_eq!(err, Error::InvalidJob);
}

#[test]
fn push_rejects_grouping_value_with_slash() {
    let grouping = vec![("zone".to_string(), "e/u".to_string())];
    let err = push_metrics("j", &grouping, "gw.test", &Vec::new(), None).unwrap_err();
    assert_eq!(err, Error::InvalidGroupingValue);
}

#[test]
fn push_rejects_job_label_on_metrics() {
    let mfs = vec![one_family("job")];
    let err = push_metrics("j", &Vec::new(), "gw.test", &mfs, None).unwrap_err();
    assert_eq!(err, Error::ReservedLabel);
}

#[test]
fn push_rejects_grouping_label_on_metrics() {
    let grouping = vec![("zone".to_string(), "eu".to_string())];
    let mfs = vec![one_family("zone")];
    let err = push_metrics("j", &grouping, "gw.test", &mfs, None).unwrap_err();
    assert_eq!(err, Error::ReservedLabel);
}

#[test]
fn push_body_is_the_binary_snapshot() {
    let mut reg = Registry::new();
    let mut c = IntCounter::new("p_total".to_string(), String::new()).unwrap();
    c.inc_by(2);
    reg.register(Collector::Counter(c)).unwrap();
    let mfs = reg.gather();
    let req = push_metrics("j", &Vec::new(), "gw.test", &mfs, None).unwrap();
    let mut expected: Vec<u8> = Vec::new();
    let pb = ProtobufEncoder::new();
    pb.encode(&mfs, &mut expected).unwrap();
    assert_eq!(req.body, expected);
    assert_eq!(
        req.content_type,
        "application/vnd.google.protobuf; proto=io.prometheus.client.MetricFamily; encoding=delimited"
    );
}

#[test]
fn push_collector_gathers_and_builds() {
    let mut c = IntCounter::new("pc_total".to_string(), String::new()).unwrap();
    c.inc_by(4);
    let req = push_collector(
        "j",
        &Vec::new(),
        "gw.test",
        vec![Collector::Counter(c)],
        None,
    )
    .unwrap();
    assert_eq!(req.method, PushMethod::Put);
    assert_eq!(req.url, "http://gw.test/metrics/job/j");
    assert!(!req.body.is_empty());
}

#[test]
fn push_status_interpretation() {
    assert!(status_accepted(200));
    assert!(status_accepted(202));
    assert!(!status_accepted(204));
    assert!(!status_accepted(400));
    assert!(!status_accepted(500));
}

#[test]
fn push_collector_propagates_registration_error() {
    let c1 = IntCounter::new("dup_total".to_string(), String::new()).unwrap();
    let c2 = c1.clone();
    let err = push_collector(
        "j",
        &Vec::new(),
        "gw.test",
        vec![Collector::Counter(c1), Collector::Counter(c2)],
        None,
    )
    .unwrap_err();
    assert_eq!(err, Error::AlreadyRegistered);
}

#[test]
fn push_collector_propagates_push_error() {
    let c = IntCounter::new("ok_total".to_string(), String::new()).unwrap();
    let err = push_collector(
        "a/b",
        &Vec::new(),
        "gw.test",
        vec![Collector::Counter(c)],
        None,
    )
    .unwrap_err();
    assert_eq!(err, Error::InvalidJob);
}
