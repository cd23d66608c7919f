use awrust::router::{from_amz_target, from_auth_header, header_value, route, Header, RequestHead};
use awrust::ServiceKind;

fn head(path: &str, headers: &[(&str, &str)]) -> RequestHead {
    RequestHead {
        path: path.to_string(),
        headers: headers
            .iter()
            .map(|(n, v)| Header {
                name: n.to_string(),
                value: Some(v.to_string()),
            })
            .collect(),
    }
}

fn empty_request() -> RequestHead {
    head("/", &[])
}

fn request_with_auth(service: &str) -> RequestHead {
    let value = format!(
        "AWS4-HMAC-SHA256 Credential=AKID/20260408/us-east-1/{service}/aws4_request, \
         SignedHeaders=host, Signature=abc"
    );
    head("/", &[("authorization", value.as_str())])
}

fn request_with_amz_target(target: &str) -> RequestHead {
    head("/", &[("x-amz-target", target)])
}

#[test]
fn sigv4_s3() {
    assert_eq!(route(&request_with_auth("s3")), ServiceKind::S3);
}

#[test]
fn sigv4_unknown_defaults_to_s3() {
    assert_eq!(route(&request_with_auth("unknown")), ServiceKind::S3);
}

#[test]
fn no_auth_defaults_to_s3() {
    assert_eq!(route(&empty_request()), ServiceKind::S3);
}

#[test]
fn dynamodb_target() {
    let req = request_with_amz_target("DynamoDB_20120810.GetItem");
    assert_eq!(route(&req), ServiceKind::S3);
}

#[test]
fn auth_takes_precedence_over_default() {
    assert_eq!(route(&request_with_auth("s3")), ServiceKind::S3);
}

#[test]
fn presigned_url_defaults_to_s3() {
    let req = head("/bucket/key", &[]);
    assert_eq!(route(&req), ServiceKind::S3);
}

#[test]
fn auth_header_names_service() {
    assert_eq!(from_auth_header(&request_with_auth("s3")), Some(ServiceKind::S3));
    assert_eq!(from_auth_header(&request_with_auth("sqs")), None);
    assert_eq!(from_auth_header(&empty_request()), None);
    let short = head("/", &[("authorization", "AWS4-HMAC-SHA256 Credential=AKID/2026/us-east-1")]);
    assert_eq!(from_auth_header(&short), None);
    let none = head("/", &[("authorization", "Basic abc")]);
    assert_eq!(from_auth_header(&none), None);
}

#[test]
fn auth_header_segment_ends_at_next_credential() {
    let twice = head(
        "/",
        &[("authorization", "Credential=a/b/c/s3Credential=x/y/z/w")],
    );
    assert_eq!(from_auth_header(&twice), Some(ServiceKind::S3));
}

#[test]
fn header_lookup_ignores_case_and_takes_first() {
    let req = head(
        "/",
        &[("X-Amz-Date", "1"), ("Authorization", "first"), ("authorization", "second")],
    );
    assert_eq!(header_value(&req, "authorization"), Some("first"));
    assert_eq!(header_value(&req, "x-amz-date"), Some("1"));
    assert_eq!(header_value(&req, "host"), None);
    let binary = RequestHead {
        path: "/".to_string(),
        headers: vec![Header {
            name: "authorization".to_string(),
            value: None,
        }],
    };
    assert_eq!(header_value(&binary, "authorization"), None);
    assert_eq!(from_auth_header(&binary), None);
}

#[test]
fn amz_target_names_no_running_service() {
    assert_eq!(from_amz_target(&request_with_amz_target("DynamoDB_20120810.GetItem")), None);
    assert_eq!(from_amz_target(&request_with_amz_target("AmazonSQS.SendMessage")), None);
    assert_eq!(from_amz_target(&empty_request()), None);
}
