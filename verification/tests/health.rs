use awrust::health::{
    dispatch, health_report, health_wait_step, is_facade_health_check, service_unavailable, Dispatch,
    HealthWait, HEALTH_POLL_INTERVAL_MS,
};
use awrust::router::{Header, RequestHead};
use awrust::ServiceKind;

fn head(path: &str, names: &[&str]) -> RequestHead {
    RequestHead {
        path: path.to_string(),
        headers: names
            .iter()
            .map(|n| Header {
                name: n.to_string(),
                value: Some("v".to_string()),
            })
            .collect(),
    }
}

#[test]
fn health_check_detection() {
    assert!(is_facade_health_check(&head("/health", &[])));
    assert!(is_facade_health_check(&head("/health", &["host", "accept"])));
    assert!(!is_facade_health_check(&head("/health", &["authorization"])));
    assert!(!is_facade_health_check(&head("/health", &["Authorization"])));
    assert!(!is_facade_health_check(&head("/health", &["x-amz-date"])));
    assert!(!is_facade_health_check(&head("/health", &["X-Amz-Target"])));
    assert!(!is_facade_health_check(&head("/healthz", &[])));
    assert!(!is_facade_health_check(&head("/", &[])));
    assert!(is_facade_health_check(&head("/health", &["x-amz"])));
}

#[test]
fn health_report_ok() {
    let r = health_report(&[(ServiceKind::S3, true)], true);
    assert_eq!(r.status, 200);
    assert_eq!(r.body, r#"{"status":"ok","services":{"s3":{"status":"ok"}}}"#);
}

#[test]
fn health_report_degraded() {
    let r = health_report(&[(ServiceKind::S3, true), (ServiceKind::S3, false)], true);
    assert_eq!(r.status, 503);
    assert_eq!(
        r.body,
        r#"{"status":"degraded","services":{"s3":{"status":"ok"},"s3":{"status":"unhealthy"}}}"#
    );
}

#[test]
fn health_report_initializing() {
    let r = health_report(&[(ServiceKind::S3, true)], false);
    assert_eq!(r.status, 503);
    assert_eq!(r.body, r#"{"status":"initializing","services":{"s3":{"status":"ok"}}}"#);
    let none = health_report(&[], true);
    assert_eq!(none.status, 200);
    assert_eq!(none.body, r#"{"status":"ok","services":{}}"#);
}

#[test]
fn unavailable_reply() {
    let r = service_unavailable(ServiceKind::S3);
    assert_eq!(r.status, 503);
    assert_eq!(r.body, r#"{"error":"service_unavailable","service":"s3"}"#);
}

#[test]
fn dispatch_decisions() {
    let running = [ServiceKind::S3];
    assert_eq!(dispatch(&head("/health", &[]), &running), Dispatch::Health);
    assert_eq!(dispatch(&head("/health", &[]), &[]), Dispatch::Health);
    assert_eq!(
        dispatch(&head("/health", &["authorization"]), &running),
        Dispatch::Forward(ServiceKind::S3)
    );
    assert_eq!(
        dispatch(&head("/bucket", &[]), &[]),
        Dispatch::Unavailable(ServiceKind::S3)
    );
}

#[test]
fn health_wait_steps() {
    assert_eq!(HEALTH_POLL_INTERVAL_MS, 100);
    assert_eq!(health_wait_step(0, 15000, false), HealthWait::KeepPolling);
    assert_eq!(health_wait_step(100, 15000, true), HealthWait::Healthy);
    assert_eq!(health_wait_step(15000, 15000, true), HealthWait::Healthy);
    assert_eq!(health_wait_step(15001, 15000, true), HealthWait::GiveUp);
    assert_eq!(health_wait_step(15001, 15000, false), HealthWait::GiveUp);
}
