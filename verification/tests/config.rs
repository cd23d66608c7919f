use awrust::config::{dns_flag_enabled, parse_services};
use awrust::ServiceKind;

#[test]
fn service_kind_binary_name() {
    assert_eq!(ServiceKind::S3.binary_name(), "awrust-s3-server");
}

#[test]
fn service_kind_listen_env_var() {
    assert_eq!(ServiceKind::S3.listen_env_var(), "AWRUST_S3_LISTEN_ADDR");
}

#[test]
fn service_kind_base_domain_env_var() {
    assert_eq!(
        ServiceKind::S3.base_domain_env_var(),
        "AWRUST_S3_BASE_DOMAIN"
    );
}

#[test]
fn service_kind_from_str() {
    assert_eq!(ServiceKind::from_str("s3"), Some(ServiceKind::S3));
    assert_eq!(ServiceKind::from_str("invalid"), None);
}

#[test]
fn service_kind_display() {
    assert_eq!(ServiceKind::S3.to_string(), "s3");
}

#[test]
#[should_panic(expected = "unknown service")]
fn unknown_service_panics() {
    ServiceKind::from_str("invalid").unwrap_or_else(|| panic!("unknown service: invalid"));
}

#[test]
fn sigv4_name_lookup_is_exact() {
    assert_eq!(ServiceKind::from_sigv4_name("s3"), Some(ServiceKind::S3));
    assert_eq!(ServiceKind::from_sigv4_name("S3"), None);
    assert_eq!(ServiceKind::from_sigv4_name(" s3"), None);
    assert_eq!(ServiceKind::from_sigv4_name("dynamodb"), None);
    assert_eq!(ServiceKind::from_sigv4_name(""), None);
}

#[test]
fn name_roundtrip() {
    let k = ServiceKind::S3;
    assert_eq!(ServiceKind::from_str(k.as_str()), Some(k));
    assert_eq!(ServiceKind::from_sigv4_name(&k.to_string()), Some(k));
}

#[test]
fn services_default_list() {
    assert_eq!(parse_services("s3").unwrap(), vec![ServiceKind::S3]);
}

#[test]
fn services_are_trimmed() {
    assert_eq!(
        parse_services(" s3 ,\ts3\n").unwrap(),
        vec![ServiceKind::S3, ServiceKind::S3]
    );
}

#[test]
fn services_report_first_unknown_untrimmed() {
    assert_eq!(parse_services("s3, sqs ,foo").unwrap_err(), " sqs ");
    assert_eq!(parse_services("").unwrap_err(), "");
    assert_eq!(parse_services("s3,").unwrap_err(), "");
    assert_eq!(parse_services("S3").unwrap_err(), "S3");
}

#[test]
fn dns_flag_values() {
    assert!(dns_flag_enabled(Some("true")));
    assert!(dns_flag_enabled(Some("1")));
    assert!(!dns_flag_enabled(Some("TRUE")));
    assert!(!dns_flag_enabled(Some("yes")));
    assert!(!dns_flag_enabled(Some("")));
    assert!(!dns_flag_enabled(None));
}
