use netmon::cache::{resolve_domain_name, DnsCache, ResolveStep};

#[test]
fn stored_hostname_reads_back_exactly() {
    let mut c = DnsCache::new(300);
    c.set("1.2.3.4".to_string(), Some("a.com".to_string()), 5_000);
    assert_eq!(c.get(&"1.2.3.4".to_string(), 5_000), Some(Some("a.com".to_string())));
}

#[test]
fn stored_absence_reads_back_as_absence() {
    let mut c = DnsCache::new(300);
    c.set("5.6.7.8".to_string(), None, 5_000);
    assert_eq!(c.get(&"5.6.7.8".to_string(), 5_000), Some(None));
}

#[test]
fn miss_on_unknown_address() {
    let c = DnsCache::new(300);
    assert_eq!(c.get(&"1.2.3.4".to_string(), 0), None);
}

#[test]
fn entries_expire_at_the_ttl() {
    let mut c = DnsCache::new(300);
    c.set("1.2.3.4".to_string(), Some("a.com".to_string()), 1_000);
    assert_eq!(c.get(&"1.2.3.4".to_string(), 300_999), Some(Some("a.com".to_string())));
    assert_eq!(c.get(&"1.2.3.4".to_string(), 301_000), None);
}

#[test]
fn set_replaces_the_previous_entry() {
    let mut c = DnsCache::new(300);
    c.set("1.2.3.4".to_string(), None, 0);
    c.set("1.2.3.4".to_string(), Some("b.net".to_string()), 10);
    assert_eq!(c.get(&"1.2.3.4".to_string(), 20), Some(Some("b.net".to_string())));
}

fn is_lookup(s: &ResolveStep) -> bool {
    matches!(s, ResolveStep::Lookup { .. })
}

#[test]
fn one_lookup_within_ttl_and_a_new_one_after() {
    let mut c = DnsCache::new(300);
    let first = resolve_domain_name("1.2.3.4:443", &c, 0);
    match &first {
        ResolveStep::Lookup { endpoint, ip } => {
            assert_eq!(endpoint, "1.2.3.4:443");
            assert_eq!(ip, "1.2.3.4");
            c.set(ip.clone(), Some("a.com".to_string()), 0);
        }
        _ => panic!("first resolution must look up"),
    }
    // Same address, other port, inside the window: answered from the cache.
    match resolve_domain_name("1.2.3.4:80", &c, 299_999) {
        ResolveStep::Cached { endpoint, hostname } => {
            assert_eq!(endpoint, "1.2.3.4:80");
            assert_eq!(hostname, Some("a.com".to_string()));
        }
        _ => panic!("must be answered from the cache"),
    }
    assert!(is_lookup(&resolve_domain_name("1.2.3.4:443", &c, 300_000)));
}

#[test]
fn resolve_canonicalises_the_endpoint() {
    let c = DnsCache::new(300);
    match resolve_domain_name("[::1]:0443", &c, 0) {
        ResolveStep::Lookup { endpoint, ip } => {
            assert_eq!(endpoint, "::1:443");
            assert_eq!(ip, "::1");
        }
        _ => panic!("expected a lookup"),
    }
}

#[test]
fn unparsable_endpoint_is_kept_without_lookup() {
    let c = DnsCache::new(300);
    match resolve_domain_name("no-port-here", &c, 0) {
        ResolveStep::Unparsed { endpoint } => assert_eq!(endpoint, "no-port-here"),
        _ => panic!("expected no lookup"),
    }
    assert!(matches!(resolve_domain_name("1.2.3.4:70000", &c, 0), ResolveStep::Unparsed { .. }));
    assert!(matches!(resolve_domain_name(":80", &c, 0), ResolveStep::Unparsed { .. }));
}
