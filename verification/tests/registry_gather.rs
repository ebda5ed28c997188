//! Registration rules and the deterministic snapshot.

use prometheus::counter::{IntCounter, IntCounterVec};
use prometheus::errors::Error;
use prometheus::gauge::IntGauge;
use prometheus::proto::{
    LabelPair, Metric, MetricFamily, MetricPayload, MetricType, SampleValue,
};
use prometheus::registry::{Collector, Registry, StaticCollector};

fn labelled_family(name: &str, label: &str, values: &[&str]) -> MetricFamily {
    let metrics = values
        .iter()
        .map(|v| Metric {
            labels: vec![LabelPair {
                name: label.to_string(),
                value: v.to_string(),
            }],
            payload: MetricPayload::Gauge {
                value: SampleValue::Int(1),
            },
            timestamp_ms: 0,
        })
        .collect();
    MetricFamily {
        name: name.to_string(),
        help: String::new(),
        field_type: MetricType::Gauge,
        metrics,
    }
}

#[test]
fn register_and_gather_counter() {
    let mut reg = Registry::new();
    let mut c = IntCounter::new("a_total".to_string(), "help a".to_string()).unwrap();
    c.inc_by(3);
    reg.register(Collector::Counter(c)).unwrap();
    let mfs = reg.gather();
    assert_eq!(mfs.len(), 1);
    assert_eq!(mfs[0].name, "a_total");
    assert_eq!(mfs[0].help, "help a");
    assert_eq!(mfs[0].metrics.len(), 1);
}

// Registry uniqueness: a shared descriptor identity is rejected, and so is
// registering the same collector twice.
#[test]
fn register_shared_identity_rejected() {
    let mut reg = Registry::new();
    let c1 = IntCounter::new("u_total".to_string(), "u".to_string()).unwrap();
    let c2 = IntCounter::new("u_total".to_string(), "u".to_string()).unwrap();
    reg.register(Collector::Counter(c1)).unwrap();
    let err = reg.register(Collector::Counter(c2)).unwrap_err();
    assert_eq!(err, Error::AlreadyRegistered);
}

#[test]
fn register_same_collector_twice_rejected() {
    let mut reg = Registry::new();
    let c = IntCounter::new("t_total".to_string(), "t".to_string()).unwrap();
    let copy = c.clone();
    reg.register(Collector::Counter(c)).unwrap();
    let err = reg.register(Collector::Counter(copy)).unwrap_err();
    assert_eq!(err, Error::AlreadyRegistered);
}

#[test]
fn contains_sees_registered_collector() {
    let mut reg = Registry::new();
    let c = IntCounter::new("c_total".to_string(), "c".to_string()).unwrap();
    let copy = c.clone();
    assert!(!reg.contains(&Collector::Counter(copy.clone())));
    reg.register(Collector::Counter(c)).unwrap();
    assert!(reg.contains(&Collector::Counter(copy)));
}

// Name/shape consistency: the same name must keep its shape even across an
// unregister, so re-registering `x` with other label names fails.
#[test]
fn name_shape_conflict_after_unregister() {
    let mut reg = Registry::new();
    let v1 = IntCounterVec::new(
        "x".to_string(),
        "h".to_string(),
        vec!["a".to_string(), "b".to_string()],
    )
    .unwrap();
    let gone = Collector::CounterVec(v1);
    reg.register(gone).unwrap();
    // Rebuild the same shape to unregister by equal descriptors.
    let same = IntCounterVec::new(
        "x".to_string(),
        "h".to_string(),
        vec!["a".to_string(), "b".to_string()],
    )
    .unwrap();
    reg.unregister(&Collector::CounterVec(same)).unwrap();
    let v2 = IntCounterVec::new(
        "x".to_string(),
        "h".to_string(),
        vec!["a".to_string(), "c".to_string()],
    )
    .unwrap();
    let err = reg.register(Collector::CounterVec(v2)).unwrap_err();
    assert_eq!(err, Error::DescriptorConflict);
}

#[test]
fn unregister_absent_collector_fails() {
    let mut reg = Registry::new();
    let c = IntCounter::new("n_total".to_string(), "n".to_string()).unwrap();
    let err = reg.unregister(&Collector::Counter(c)).unwrap_err();
    assert_eq!(err, Error::NotRegistered);
}

#[test]
fn unregister_frees_identity() {
    let mut reg = Registry::new();
    let c = IntCounter::new("f_total".to_string(), "f".to_string()).unwrap();
    let copy = c.clone();
    reg.register(Collector::Counter(c)).unwrap();
    reg.unregister(&Collector::Counter(copy.clone())).unwrap();
    // The identity is free again: the same shape registers once more.
    reg.register(Collector::Counter(copy)).unwrap();
}

// Gather determinism: empty families are dropped, families come in name
// order, and samples come sorted by their label values.
#[test]
fn gather_is_deterministic() {
    let mut reg = Registry::new();
    let d_b = prometheus::desc::Desc::new(
        "b".to_string(),
        String::new(),
        vec!["label".to_string()],
        Vec::new(),
    )
    .unwrap();
    let d_a = prometheus::desc::Desc::new(
        "a".to_string(),
        String::new(),
        vec!["label".to_string()],
        Vec::new(),
    )
    .unwrap();
    let b = StaticCollector {
        descs: vec![d_b],
        families: vec![labelled_family("b", "label", &["2", "1"])],
    };
    let a = StaticCollector {
        descs: vec![d_a],
        families: vec![labelled_family("a", "label", &[])],
    };
    reg.register(Collector::Static(b)).unwrap();
    reg.register(Collector::Static(a)).unwrap();
    let mfs = reg.gather();
    // The empty family `a` is omitted; `b` stays, its samples sorted.
    assert_eq!(mfs.len(), 1);
    assert_eq!(mfs[0].name, "b");
    assert_eq!(mfs[0].metrics.len(), 2);
    assert_eq!(mfs[0].metrics[0].labels[0].value, "1");
    assert_eq!(mfs[0].metrics[1].labels[0].value, "2");
}

#[test]
fn gather_merges_families_by_name() {
    let mut reg = Registry::new();
    let d1 = prometheus::desc::Desc::new(
        "m_first".to_string(),
        String::new(),
        vec!["l".to_string()],
        Vec::new(),
    )
    .unwrap();
    let d2 = prometheus::desc::Desc::new(
        "m_second".to_string(),
        String::new(),
        vec!["l".to_string()],
        Vec::new(),
    )
    .unwrap();
    let c1 = StaticCollector {
        descs: vec![d1],
        families: vec![labelled_family("m", "l", &["x"])],
    };
    let c2 = StaticCollector {
        descs: vec![d2],
        families: vec![labelled_family("m", "l", &["y"])],
    };
    reg.register(Collector::Static(c1)).unwrap();
    reg.register(Collector::Static(c2)).unwrap();
    let mfs = reg.gather();
    assert_eq!(mfs.len(), 1);
    assert_eq!(mfs[0].name, "m");
    assert_eq!(mfs[0].metrics.len(), 2);
}

#[test]
fn gather_families_sorted_by_name() {
    let mut reg = Registry::new();
    let mut z = IntCounter::new("z_total".to_string(), String::new()).unwrap();
    z.inc();
    let mut a = IntCounter::new("a_total".to_string(), String::new()).unwrap();
    a.inc();
    reg.register(Collector::Counter(z)).unwrap();
    reg.register(Collector::Counter(a)).unwrap();
    let mfs = reg.gather();
    assert_eq!(mfs.len(), 2);
    assert_eq!(mfs[0].name, "a_total");
    assert_eq!(mfs[1].name, "z_total");
}

#[test]
fn custom_registry_prefix_and_labels() {
    let mut reg = Registry::new_custom(
        Some("app".to_string()),
        vec![("zone".to_string(), "eu".to_string())],
    )
    .unwrap();
    let mut c = IntCounter::new("hits_total".to_string(), String::new()).unwrap();
    c.inc_by(2);
    reg.register(Collector::Counter(c)).unwrap();
    let mfs = reg.gather();
    assert_eq!(mfs.len(), 1);
    assert_eq!(mfs[0].name, "app_hits_total");
    assert_eq!(mfs[0].metrics[0].labels.len(), 1);
    assert_eq!(mfs[0].metrics[0].labels[0].name, "zone");
    assert_eq!(mfs[0].metrics[0].labels[0].value, "eu");
}

#[test]
fn custom_registry_rejects_empty_prefix() {
    let err = Registry::new_custom(Some(String::new()), Vec::new()).unwrap_err();
    assert_eq!(err, Error::EmptyPrefix);
}

#[test]
fn duplicate_descriptor_within_collector() {
    let mut reg = Registry::new();
    let d = prometheus::desc::Desc::new(
        "dd".to_string(),
        String::new(),
        Vec::new(),
        Vec::new(),
    )
    .unwrap();
    let twice = StaticCollector {
        descs: vec![d.clone(), d],
        families: Vec::new(),
    };
    let err = reg.register(Collector::Static(twice)).unwrap_err();
    assert_eq!(err, Error::DuplicateDescriptor);
}

#[test]
fn gauge_collects_current_value() {
    let mut reg = Registry::new();
    let mut g = IntGauge::new("up".to_string(), String::new()).unwrap();
    g.set(-7);
    reg.register(Collector::Gauge(g)).unwrap();
    let mfs = reg.gather();
    assert_eq!(mfs.len(), 1);
    match &mfs[0].metrics[0].payload {
        MetricPayload::Gauge { value } => match value {
            SampleValue::Int(v) => assert_eq!(*v, -7),
            _ => panic!("gauge value should be the signed kind"),
        },
        _ => panic!("gauge family should carry a gauge payload"),
    }
}

// Two gathers over the same unchanged state return the same snapshot.
#[test]
fn gather_twice_is_identical() {
    let mut reg = Registry::new();
    let d = prometheus::desc::Desc::new(
        "tw".to_string(),
        String::new(),
        vec!["l".to_string()],
        Vec::new(),
    )
    .unwrap();
    let ties = StaticCollector {
        descs: vec![d],
        families: vec![labelled_family("tw", "l", &["b", "a", "a"])],
    };
    reg.register(Collector::Static(ties)).unwrap();
    let first = reg.gather();
    let second = reg.gather();
    assert_eq!(first.len(), second.len());
    for (x, y) in first.iter().zip(second.iter()) {
        assert_eq!(x.name, y.name);
        assert_eq!(x.metrics.len(), y.metrics.len());
        for (mx, my) in x.metrics.iter().zip(y.metrics.iter()) {
            assert_eq!(mx.labels.len(), my.labels.len());
            for (lx, ly) in mx.labels.iter().zip(my.labels.iter()) {
                assert_eq!(lx.name, ly.name);
                assert_eq!(lx.value, ly.value);
            }
            assert_eq!(mx.timestamp_ms, my.timestamp_ms);
        }
    }
}

#[test]
fn new_custom_accepts_valid_prefix() {
    assert!(Registry::new_custom(Some("app".to_string()), Vec::new()).is_ok());
    assert!(Registry::new_custom(None, Vec::new()).is_ok());
}
