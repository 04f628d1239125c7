use cymbal::health::HealthStatus;
use cymbal::startup::{
    liveness_registry, Resource, Startup, StartupError, StartupStep, TRANSPORT_TIMEOUT_MS,
    WORKER_TIMEOUT_MS,
};

#[test]
fn all_resources_provisioned_in_order() {
    let mut s = Startup::new();
    let order = [Resource::Consumer, Resource::Producer, Resource::Pool, Resource::Catalog];
    for r in order {
        assert_eq!(s.next_step(), StartupStep::Provision(r));
        s.record(true);
    }
    assert_eq!(s.next_step(), StartupStep::Ready);
}

#[test]
fn pool_failure_aborts_startup() {
    let mut s = Startup::new();
    s.record(true);
    s.record(true);
    assert_eq!(s.next_step(), StartupStep::Provision(Resource::Pool));
    s.record(false);
    assert_eq!(s.next_step(), StartupStep::Abort(StartupError::Pool));
}

#[test]
fn consumer_failure_aborts_first() {
    let mut s = Startup::new();
    s.record(false);
    assert_eq!(s.next_step(), StartupStep::Abort(StartupError::Consumer));
}

#[test]
fn catalog_failure_aborts_last() {
    let mut s = Startup::new();
    s.record(true);
    s.record(true);
    s.record(true);
    s.record(false);
    assert_eq!(s.next_step(), StartupStep::Abort(StartupError::Catalog));
}

#[test]
fn liveness_registry_has_worker_and_transport() {
    let (mut registry, worker, transport) = liveness_registry(1000);
    assert_eq!(registry.len(), 2);
    assert!(registry.is_registered(&"worker".to_string()));
    assert!(registry.is_registered(&"rdkafka".to_string()));
    assert_eq!(registry.status(1000), HealthStatus::Dead);
    registry.report(&worker, 1000);
    registry.report(&transport, 1000);
    assert_eq!(registry.status(1000 + TRANSPORT_TIMEOUT_MS - 1), HealthStatus::Fresh);
    assert_eq!(registry.handle_status(&transport, 1000 + TRANSPORT_TIMEOUT_MS), HealthStatus::Stale);
    assert_eq!(registry.handle_status(&worker, 1000 + TRANSPORT_TIMEOUT_MS), HealthStatus::Fresh);
    assert_eq!(registry.handle_status(&worker, 1000 + WORKER_TIMEOUT_MS), HealthStatus::Stale);
    assert_eq!(registry.status(1000 + 2 * WORKER_TIMEOUT_MS), HealthStatus::Dead);
}

#[test]
fn producer_failure_aborts_after_consumer() {
    let mut s = Startup::new();
    assert_eq!(s.next_step(), StartupStep::Provision(Resource::Consumer));
    s.record(true);
    assert_eq!(s.next_step(), StartupStep::Provision(Resource::Producer));
    s.record(false);
    assert_eq!(s.next_step(), StartupStep::Abort(StartupError::Producer));
}
