use awrust::proxy::forward_target;

#[test]
fn forward_target_keeps_path_and_query() {
    assert_eq!(
        forward_target("127.0.0.1:41234", Some("/bucket/key?X-Amz-Algorithm=AWS4-HMAC-SHA256")),
        "http://127.0.0.1:41234/bucket/key?X-Amz-Algorithm=AWS4-HMAC-SHA256"
    );
}

#[test]
fn forward_target_defaults_to_root() {
    assert_eq!(forward_target("127.0.0.1:9000", None), "http://127.0.0.1:9000/");
    assert_eq!(forward_target("[::1]:9000", Some("/")), "http://[::1]:9000/");
}
