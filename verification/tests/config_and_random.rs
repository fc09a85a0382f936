use owaf::config::{ProxyConfig, ProxyEntry, RateLimitConfig};
use owaf::random::random_string;

fn entry(host: &str, target: &str, limit: Option<(u64, u64)>) -> ProxyEntry {
    ProxyEntry {
        host: host.to_string(),
        target: target.to_string(),
        rate_limit: limit.map(|(requests, window_sec)| RateLimitConfig { requests, window_sec }),
    }
}

#[test]
fn config_entries_by_name() {
    let mut config = ProxyConfig::new();
    config.insert(
        "test".to_string(),
        entry("example.com", "http://localhost:8080", Some((100, 60))),
    );
    let e = config.get("test").unwrap();
    assert_eq!(e.host, "example.com");
    assert_eq!(e.target, "http://localhost:8080");
    let rl = e.rate_limit.as_ref().unwrap();
    assert_eq!(rl.requests, 100);
    assert_eq!(rl.window_sec, 60);
    assert!(config.get("other").is_none());
}

#[test]
fn config_insert_replaces_same_name() {
    let mut config = ProxyConfig::default();
    config.insert("a".to_string(), entry("a.com", "http://a", None));
    config.insert("b".to_string(), entry("b.com", "http://b", Some((1, 1))));
    config.insert("a".to_string(), entry("a2.com", "http://a2", None));
    assert_eq!(config.get("a").unwrap().host, "a2.com");
    let mut hosts: Vec<String> = config.entries().into_iter().map(|e| e.host).collect();
    hosts.sort();
    assert_eq!(hosts, vec!["a2.com".to_string(), "b.com".to_string()]);
}

#[test]
fn empty_config_has_no_entries() {
    assert!(ProxyConfig::new().entries().is_empty());
}

#[test]
fn random_strings_are_alphanumeric_of_the_asked_length() {
    for n in [0usize, 1, 16, 64] {
        let s = random_string(n);
        assert_eq!(s.chars().count(), n);
        assert!(s.chars().all(|c| c.is_ascii_alphanumeric()));
    }
}
