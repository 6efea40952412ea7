use matrix_appservice::{new_registration_rand, path_and_query, ApplicationService, QueryParams};
use ruma::api::appservice::Namespaces;

#[test]
fn registration_gets_fresh_tokens() {
    let reg = new_registration_rand(
        "bridge".to_string(),
        Namespaces::new(),
        "bridgebot".to_string(),
        "http://localhost:9000/".to_string(),
        true,
    );
    assert_eq!(reg.id, "bridge");
    assert_eq!(reg.url, "http://localhost:9000/");
    assert_eq!(reg.sender_localpart, "bridgebot");
    assert_eq!(reg.rate_limited, Some(true));
    assert_eq!(reg.protocols, None);
    assert_eq!(reg.as_token.len(), 64);
    assert_eq!(reg.hs_token.len(), 64);
    assert!(reg.as_token.chars().all(|c| c.is_ascii_alphanumeric()));
    assert!(reg.hs_token.chars().all(|c| c.is_ascii_alphanumeric()));
    assert_ne!(reg.as_token, reg.hs_token);
    let full = reg.into_registration();
    assert_eq!(full.id, "bridge");
    assert_eq!(full.sender_localpart, "bridgebot");
    assert_eq!(full.as_token.len(), 64);
}

#[test]
fn application_service_fields() {
    let a = ApplicationService::new("example.org".to_string(), "https://example.org/".to_string());
    assert_eq!(a.server_name(), "example.org");
    assert_eq!(a.server_url(), "https://example.org/");
}

#[test]
fn query_params_in_order_of_first_set() {
    let mut p = QueryParams::new();
    assert_eq!(p.to_query(), "");
    p.set("user_id".to_string(), "@a:x.org".to_string());
    p.set("ts".to_string(), "12".to_string());
    assert_eq!(p.to_query(), "user_id=@a:x.org&ts=12");
    p.set("user_id".to_string(), "@b:x.org".to_string());
    assert_eq!(p.to_query(), "user_id=@b:x.org&ts=12");
}

#[test]
fn path_and_query_forms() {
    assert_eq!(path_and_query("/a/b", None, "ts=1"), "/a/b?ts=1");
    assert_eq!(path_and_query("/a/b", Some("x=2"), "ts=1"), "/a/b?x=2&ts=1");
}
