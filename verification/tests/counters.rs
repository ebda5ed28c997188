//! Counters, gauges, cells and local shadows.

use prometheus::atomic64::{AtomicF64, AtomicI64, AtomicU64};
use prometheus::counter::{IntCounter, IntCounterVec};
use prometheus::gauge::IntGauge;

#[test]
fn cell_set_get_inc() {
    let mut c = AtomicU64::new(0);
    assert_eq!(c.get(), 0);
    c.set(7);
    assert_eq!(c.get(), 7);
    c.inc_by(5);
    assert_eq!(c.get(), 12);
    c.dec_by(2);
    assert_eq!(c.get(), 10);
    let prev = c.swap(3, std::sync::atomic::Ordering::Relaxed);
    assert_eq!(prev, 10);
    assert_eq!(c.get(), 3);
}

#[test]
fn cell_wraps_on_overflow() {
    let mut c = AtomicU64::new(u64::MAX);
    c.inc_by(1);
    assert_eq!(c.get(), 0);
    let mut s = AtomicI64::new(i64::MAX);
    s.inc_by(1);
    assert_eq!(s.get(), i64::MIN);
}

#[test]
fn cell_compare_exchange() {
    let mut c = AtomicU64::new(4);
    let r = c.compare_exchange_weak(
        4,
        9,
        std::sync::atomic::Ordering::SeqCst,
        std::sync::atomic::Ordering::Relaxed,
    );
    assert_eq!(r, Ok(4));
    assert_eq!(c.get(), 9);
    let r = c.compare_exchange_weak(
        4,
        1,
        std::sync::atomic::Ordering::SeqCst,
        std::sync::atomic::Ordering::Relaxed,
    );
    assert_eq!(r, Err(9));
    assert_eq!(c.get(), 9);
}

#[test]
fn float_cell_holds_bits() {
    let bits = 2.5f64.to_bits();
    let mut c = AtomicF64::new(bits);
    assert_eq!(f64::from_bits(c.get()), 2.5);
    c.set(7.25f64.to_bits());
    let prev = c.swap(0.5f64.to_bits(), std::sync::atomic::Ordering::Relaxed);
    assert_eq!(f64::from_bits(prev), 7.25);
    assert_eq!(f64::from_bits(c.get()), 0.5);
}

// Any interleaving of the same increments reaches the same total.
#[test]
fn increments_commute() {
    let mut a = AtomicU64::new(0);
    let mut b = AtomicU64::new(0);
    let deltas = [1u64, 5, 1, 7, 1];
    for d in deltas {
        a.inc_by(d);
    }
    for d in deltas.iter().rev() {
        b.inc_by(*d);
    }
    assert_eq!(a.get(), b.get());
    assert_eq!(a.get(), 15);
}

#[test]
fn unit_increments_count() {
    let mut c = AtomicU64::new(0);
    for _ in 0..1000 {
        c.inc_by(1);
    }
    assert_eq!(c.get(), 1000);
}

#[test]
fn counter_basics() {
    let mut c = IntCounter::new("jobs_total".to_string(), "jobs".to_string()).unwrap();
    assert_eq!(c.get(), 0);
    c.inc();
    c.inc_by(4);
    assert_eq!(c.get(), 5);
    c.set(9);
    assert_eq!(c.get(), 9);
    c.reset();
    assert_eq!(c.get(), 0);
}

// The guarded increment path never decreases the value while the sum fits.
#[test]
fn counter_monotonic() {
    let mut c = IntCounter::new("m".to_string(), String::new()).unwrap();
    let mut last = c.get();
    for d in [0u64, 3, 1, 10, 0, 2] {
        c.inc_by(d);
        assert!(c.get() >= last);
        last = c.get();
    }
}

#[test]
fn local_counter_flush() {
    let c = IntCounter::new("l".to_string(), String::new()).unwrap();
    let mut local = c.local();
    // Flushing an empty buffer changes nothing.
    local.flush();
    assert_eq!(local.get(), 0);
    local.inc_by(5);
    local.inc();
    assert_eq!(local.get(), 6);
    // Flushing moves exactly the buffered amount and clears the buffer.
    local.flush();
    assert_eq!(local.get(), 0);
    // A second consecutive flush is a no-op.
    local.flush();
    assert_eq!(local.get(), 0);
}

#[test]
fn local_counter_reset_is_local() {
    let c = IntCounter::new("l2".to_string(), String::new()).unwrap();
    let mut local = c.local();
    local.inc_by(41);
    local.reset();
    assert_eq!(local.get(), 0);
    local.inc();
    local.flush();
    assert_eq!(local.get(), 0);
}

#[test]
fn counter_vec_partitions_by_labels() {
    let mut v = IntCounterVec::new(
        "req_total".to_string(),
        "requests".to_string(),
        vec!["method".to_string()],
    )
    .unwrap();
    v.inc_by_label_values(&vec!["get".to_string()], 2).unwrap();
    v.inc_by_label_values(&vec!["post".to_string()], 5).unwrap();
    v.inc_by_label_values(&vec!["get".to_string()], 1).unwrap();
    assert_eq!(v.get_label_values(&vec!["get".to_string()]).unwrap(), 3);
    assert_eq!(v.get_label_values(&vec!["post".to_string()]).unwrap(), 5);
}

#[test]
fn counter_vec_arity_checked() {
    let mut v = IntCounterVec::new(
        "x_total".to_string(),
        String::new(),
        vec!["a".to_string()],
    )
    .unwrap();
    let err = v
        .inc_by_label_values(&vec!["1".to_string(), "2".to_string()], 1)
        .unwrap_err();
    assert_eq!(err, prometheus::errors::Error::LabelCardinalityMismatch);
}

#[test]
fn counter_vec_remove_label_values() {
    let mut v = IntCounterVec::new(
        "y_total".to_string(),
        String::new(),
        vec!["a".to_string()],
    )
    .unwrap();
    v.with_label_values(&vec!["1".to_string()]).unwrap();
    assert!(v.remove_label_values(&vec!["1".to_string()]).is_ok());
    assert_eq!(
        v.remove_label_values(&vec!["1".to_string()]).unwrap_err(),
        prometheus::errors::Error::MetricNotFound
    );
    assert_eq!(
        v.get_label_values(&vec!["1".to_string()]).unwrap_err(),
        prometheus::errors::Error::MetricNotFound
    );
}

#[test]
fn counter_vec_needs_a_label() {
    let err = IntCounterVec::new("z_total".to_string(), String::new(), Vec::new()).unwrap_err();
    assert_eq!(err, prometheus::errors::Error::NoVariableLabels);
}

#[test]
fn local_counter_vec_buffers_and_flushes() {
    let mut v = IntCounterVec::new(
        "lv_total".to_string(),
        String::new(),
        vec!["a".to_string()],
    )
    .unwrap();
    v.inc_by_label_values(&vec!["1".to_string()], 1).unwrap();
    let mut local = v.local();
    local
        .inc_by_label_values(&vec!["1".to_string()], 4)
        .unwrap();
    local
        .inc_by_label_values(&vec!["1".to_string()], 2)
        .unwrap();
    local
        .inc_by_label_values(&vec!["2".to_string()], 7)
        .unwrap();
    // Before the flush nothing reached the backing family.
    local.flush();
    // A second consecutive flush is a no-op.
    local.flush();
    let backing = local.into_inner();
    assert_eq!(backing.get_label_values(&vec!["1".to_string()]).unwrap(), 7);
    assert_eq!(backing.get_label_values(&vec!["2".to_string()]).unwrap(), 7);
}

#[test]
fn gauge_moves_both_ways() {
    let mut g = IntGauge::new("temp".to_string(), "t".to_string()).unwrap();
    g.set(10);
    g.inc();
    g.dec();
    g.add(5);
    g.sub(3);
    assert_eq!(g.get(), 12);
    g.set(-4);
    assert_eq!(g.get(), -4);
}

#[test]
fn duplicate_labels_rejected() {
    let err = prometheus::desc::Desc::new(
        "d".to_string(),
        String::new(),
        vec!["a".to_string(), "a".to_string()],
        Vec::new(),
    )
    .unwrap_err();
    assert_eq!(err, prometheus::errors::Error::DuplicateLabel);
    let err = prometheus::desc::Desc::new(
        "d".to_string(),
        String::new(),
        vec!["a".to_string()],
        vec![("a".to_string(), "v".to_string())],
    )
    .unwrap_err();
    assert_eq!(err, prometheus::errors::Error::DuplicateLabel);
}

#[test]
fn desc_constant_label_order_ignored() {
    let d1 = prometheus::desc::Desc::new(
        "d".to_string(),
        "h".to_string(),
        vec!["v".to_string()],
        vec![
            ("b".to_string(), "2".to_string()),
            ("a".to_string(), "1".to_string()),
        ],
    )
    .unwrap();
    let d2 = prometheus::desc::Desc::new(
        "d".to_string(),
        "h".to_string(),
        vec!["v".to_string()],
        vec![
            ("a".to_string(), "1".to_string()),
            ("b".to_string(), "2".to_string()),
        ],
    )
    .unwrap();
    assert_eq!(d1.id, d2.id);
    assert_eq!(d1.dim_hash, d2.dim_hash);
}

#[test]
fn desc_shape_changes_dim_hash() {
    let d1 = prometheus::desc::Desc::new(
        "d".to_string(),
        "h".to_string(),
        vec!["a".to_string()],
        Vec::new(),
    )
    .unwrap();
    let d2 = prometheus::desc::Desc::new(
        "d".to_string(),
        "h".to_string(),
        vec!["b".to_string()],
        Vec::new(),
    )
    .unwrap();
    assert_ne!(d1.dim_hash, d2.dim_hash);
    assert_ne!(d1.id, d2.id);
}

#[test]
fn local_counter_vec_remove_label_values() {
    let mut v = IntCounterVec::new(
        "rm_total".to_string(),
        String::new(),
        vec!["a".to_string()],
    )
    .unwrap();
    v.inc_by_label_values(&vec!["1".to_string()], 3).unwrap();
    let mut local = v.local();
    local
        .inc_by_label_values(&vec!["1".to_string()], 5)
        .unwrap();
    // Removing drops the buffer and the backing combination.
    local.remove_label_values(&vec!["1".to_string()]).unwrap();
    // The combination never existed afterwards.
    assert_eq!(
        local
            .remove_label_values(&vec!["1".to_string()])
            .unwrap_err(),
        prometheus::errors::Error::MetricNotFound
    );
    local.flush();
    let backing = local.into_inner();
    assert_eq!(
        backing.get_label_values(&vec!["1".to_string()]).unwrap_err(),
        prometheus::errors::Error::MetricNotFound
    );
}
