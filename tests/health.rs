use cymbal::health::{HealthRegistry, HealthStatus};

#[test]
fn handle_transitions_with_time() {
    let mut r = HealthRegistry::new("liveness");
    let h = r.register("worker".to_string(), 1000, 0);
    assert_eq!(r.handle_status(&h, 0), HealthStatus::Dead);
    r.report(&h, 5000);
    assert_eq!(r.handle_status(&h, 5000), HealthStatus::Fresh);
    assert_eq!(r.handle_status(&h, 5999), HealthStatus::Fresh);
    assert_eq!(r.handle_status(&h, 6000), HealthStatus::Stale);
    assert_eq!(r.handle_status(&h, 6500), HealthStatus::Stale);
    assert_eq!(r.handle_status(&h, 7000), HealthStatus::Dead);
    assert_eq!(r.handle_status(&h, 7500), HealthStatus::Dead);
}

#[test]
fn never_reported_is_dead() {
    let mut r = HealthRegistry::new("liveness");
    let h = r.register("worker".to_string(), 1000, 100);
    assert_eq!(r.handle_status(&h, 2100), HealthStatus::Dead);
    assert_eq!(r.status(2100), HealthStatus::Dead);
}

#[test]
fn report_timestamp_never_moves_back() {
    let mut r = HealthRegistry::new("liveness");
    let h = r.register("worker".to_string(), 1000, 0);
    r.report(&h, 5000);
    r.report(&h, 3000);
    assert_eq!(r.handle_status(&h, 5500), HealthStatus::Fresh);
}

#[test]
fn registry_reports_worst_handle() {
    let mut r = HealthRegistry::new("liveness");
    assert_eq!(r.status(0), HealthStatus::Fresh);
    let a = r.register("worker".to_string(), 1000, 0);
    let b = r.register("rdkafka".to_string(), 500, 0);
    assert!(r.is_registered(&"rdkafka".to_string()));
    assert!(!r.is_registered(&"other".to_string()));
    assert_eq!(r.len(), 2);
    r.report(&a, 100);
    r.report(&b, 100);
    assert_eq!(r.status(200), HealthStatus::Fresh);
    assert_eq!(r.status(700), HealthStatus::Stale);
    r.report(&b, 700);
    assert_eq!(r.status(800), HealthStatus::Fresh);
    assert_eq!(r.status(2100), HealthStatus::Dead);
}

#[test]
fn zero_timeout_is_never_fresh() {
    let mut r = HealthRegistry::new("liveness");
    let h = r.register("worker".to_string(), 0, 0);
    r.report(&h, 10);
    assert_eq!(r.handle_status(&h, 10), HealthStatus::Dead);
}
