use ce_pin::metrics::{HostMetrics, MetricsSnapshot};

#[test]
fn counters_increment_and_snapshot() {
    let mut m = HostMetrics::new();
    m.offer_accepted();
    m.offer_accepted();
    m.offer_declined();
    m.audit_passed();
    m.add_evictions(3);
    let s = m.snapshot();
    assert_eq!(s.offers_accepted, 2);
    assert_eq!(s.offers_declined, 1);
    assert_eq!(s.audits_passed, 1);
    assert_eq!(s.gc_evictions, 3);
    assert_eq!(s.offers_failed, 0);
}

#[test]
fn each_counter_moves_alone() {
    let mut m = HostMetrics::new();
    m.offer_failed();
    m.audit_failed();
    m.release();
    m.auth_deny();
    m.auth_deny();
    assert_eq!(
        m.snapshot(),
        MetricsSnapshot {
            offers_accepted: 0,
            offers_declined: 0,
            offers_failed: 1,
            audits_passed: 0,
            audits_failed: 1,
            releases: 1,
            gc_evictions: 0,
            auth_denied: 2,
        }
    );
}

#[test]
fn a_full_counter_starts_over() {
    let mut m = HostMetrics::new();
    m.add_evictions(u64::MAX);
    m.add_evictions(3);
    assert_eq!(m.snapshot().gc_evictions, 2);
}
