use owaf::routing::{
    host_without_port, log_message, plan_request, strip_scheme, upstream_url, Forwarding,
};

#[test]
fn host_loses_its_port() {
    assert_eq!(host_without_port("minio.example.com:8080"), "minio.example.com");
    assert_eq!(host_without_port("minio.example.com"), "minio.example.com");
    assert_eq!(host_without_port(":80"), "");
    assert_eq!(host_without_port("a:b:c"), "a");
    assert_eq!(host_without_port(""), "");
}

#[test]
fn scheme_is_stripped() {
    assert_eq!(strip_scheme("http://localhost:9000"), "localhost:9000");
    assert_eq!(strip_scheme("https://store.local"), "store.local");
    assert_eq!(strip_scheme("store.local"), "store.local");
    assert_eq!(strip_scheme("http://https://x"), "x");
    assert_eq!(strip_scheme("https://http://x"), "http://x");
    assert_eq!(strip_scheme("http:/"), "http:/");
}

#[test]
fn upstream_and_log_lines() {
    assert_eq!(
        upstream_url("http://localhost:9000", "some/path", "a=1"),
        "http://localhost:9000/some/path?a=1"
    );
    assert_eq!(upstream_url("t", "", ""), "t/?");
    assert_eq!(log_message("minio.example.com:80", "x/y"), "minio.example.com:80 <x/y>");
}

#[test]
fn missing_host_is_not_found_and_not_logged() {
    let plan = plan_request(None, "p", "q", None);
    assert!(plan.log_message.is_none());
    assert!(matches!(plan.forward, Forwarding::NotFound));
}

#[test]
fn other_hosts_are_logged_and_not_found() {
    let plan = plan_request(Some("example.com:8080"), "p", "", None);
    assert_eq!(plan.log_message.as_deref(), Some("example.com:8080 <p>"));
    assert!(matches!(plan.forward, Forwarding::NotFound));
}

#[test]
fn object_store_host_goes_to_the_default_store() {
    let plan = plan_request(Some("minio.example.com"), "some/path", "", None);
    assert_eq!(plan.log_message.as_deref(), Some("minio.example.com <some/path>"));
    match plan.forward {
        Forwarding::Upstream { host_header, url } => {
            assert_eq!(host_header, "localhost:9000");
            assert_eq!(url, "http://localhost:9000/some/path?");
        }
        Forwarding::NotFound => panic!("expected forwarding"),
    }
}

#[test]
fn object_store_host_goes_to_the_configured_store() {
    let plan = plan_request(
        Some("minio.example.com:443"),
        "b/k",
        "x=1",
        Some("https://127.0.0.1:9100"),
    );
    match plan.forward {
        Forwarding::Upstream { host_header, url } => {
            assert_eq!(host_header, "127.0.0.1:9100");
            assert_eq!(url, "https://127.0.0.1:9100/b/k?x=1");
        }
        Forwarding::NotFound => panic!("expected forwarding"),
    }
}
