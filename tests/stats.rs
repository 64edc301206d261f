use netmon::endpoint::{ip_of, render_endpoint, split_endpoint};
use netmon::stats::ConnectionStats;
use netmon::tally::Tally;

#[test]
fn statistics_of_three_events() {
    let mut s = ConnectionStats::new(0);
    s.add_connection("1.2.3.4:80", &Some("a.com".to_string()));
    s.add_connection("1.2.3.4:443", &Some("a.com".to_string()));
    s.add_connection("5.6.7.8:80", &None);
    let r = s.summary(2_500, 5);
    assert_eq!(r.total, 3);
    assert_eq!(r.unique_ips, 2);
    assert_eq!(r.unique_domains, 1);
    assert_eq!(r.top_domains, vec![("a.com".to_string(), 2)]);
    assert_eq!(r.more_domains, 0);
    assert_eq!(r.elapsed_ms, 2_500);
}

#[test]
fn top_domains_are_ranked_and_truncated() {
    let mut s = ConnectionStats::new(10);
    let events = [("b.org", 1), ("a.com", 3), ("c.net", 2), ("d.io", 1)];
    let mut port = 1;
    for (d, n) in events.iter() {
        for _ in 0..*n {
            s.add_connection(&format!("9.9.9.9:{}", port), &Some(d.to_string()));
            port += 1;
        }
    }
    let r = s.summary(5, 2);
    assert_eq!(r.top_domains, vec![("a.com".to_string(), 3), ("c.net".to_string(), 2)]);
    assert_eq!(r.more_domains, 2);
    assert_eq!(r.unique_domains, 4);
    assert_eq!(r.unique_ips, 1);
    assert_eq!(r.total, 7);
    assert_eq!(r.elapsed_ms, 0);
    let all = s.summary(10, 10);
    assert_eq!(all.top_domains.len(), 4);
    assert_eq!(all.top_domains[2].1, 1);
    assert_eq!(all.top_domains[3].1, 1);
}

#[test]
fn tally_counts_per_key() {
    let mut t = Tally::new();
    t.bump(&"x".to_string());
    t.bump(&"y".to_string());
    t.bump(&"x".to_string());
    assert_eq!(t.count(&"x".to_string()), 2);
    assert_eq!(t.count(&"y".to_string()), 1);
    assert_eq!(t.count(&"z".to_string()), 0);
    assert_eq!(t.len(), 2);
    assert_eq!(t.entries(), vec![("x".to_string(), 2), ("y".to_string(), 1)]);
}

#[test]
fn ip_is_the_text_before_the_port() {
    assert_eq!(ip_of("1.2.3.4:80"), "1.2.3.4");
    assert_eq!(ip_of("::1:443"), "::1");
    assert_eq!(ip_of("plain"), "plain");
}

#[test]
fn endpoints_split_and_render() {
    assert_eq!(split_endpoint("1.2.3.4:80"), Some(("1.2.3.4".to_string(), 80)));
    assert_eq!(split_endpoint("[fe80::1]:+22"), Some(("fe80::1".to_string(), 22)));
    assert_eq!(split_endpoint("1.2.3.4:"), None);
    assert_eq!(split_endpoint("1.2.3.4:8x"), None);
    assert_eq!(split_endpoint("1.2.3.4:65536"), None);
    assert_eq!(render_endpoint("10.0.0.1", 65535), "10.0.0.1:65535");
    assert_eq!(render_endpoint("10.0.0.1", 0), "10.0.0.1:0");
}
