use droute::domain::Domain;
use droute::hosts::{Hosts, MatchType};
use droute::ip::{parse_ip, parse_ipv4, parse_ipv6, IpAddr};
use droute::name::{parse_name, reversed_key};
use droute::utils::{into_hosts_config, HostsError};

fn name(s: &str) -> Vec<Vec<u8>> {
    parse_name(s.as_bytes()).unwrap()
}

fn v4(a: u8, b: u8, c: u8, d: u8) -> IpAddr {
    IpAddr::V4([a, b, c, d])
}

#[test]
fn hosts_short_circuit() {
    let mut h = Hosts::new();
    h.insert(&name("apple.com"), &MatchType::Subdomain(v4(1, 2, 3, 4)));
    h.insert(&name("store.apple.com"), &MatchType::Server(v4(9, 9, 9, 9)));
    assert_eq!(h.matches(&name("store.apple.com")), Some(v4(9, 9, 9, 9)));
    assert_eq!(h.matches(&name("www.apple.com")), Some(v4(1, 2, 3, 4)));
    assert_eq!(h.matches(&name("apple.cn")), None);
}

#[test]
fn hosts_file_short_circuit() {
    let mut h = droute::utils::Hosts::new();
    h.add_text(b"apple.com 1.2.3.4\nstore.apple.com !9.9.9.9\n").unwrap();
    assert_eq!(h.reslove(&name("store.apple.com")), Some(v4(9, 9, 9, 9)));
    assert_eq!(h.reslove(&name("www.apple.com")), Some(v4(1, 2, 3, 4)));
    assert_eq!(h.reslove(&name("apple.cn")), None);
}

#[test]
fn hosts_exact_only_at_its_name() {
    let mut h = Hosts::new();
    h.insert(&name("store.apple.com"), &MatchType::Server(v4(9, 9, 9, 9)));
    assert_eq!(h.matches(&name("a.store.apple.com")), None);
    assert_eq!(h.matches(&name("STORE.Apple.COM")), Some(v4(9, 9, 9, 9)));
}

#[test]
fn hosts_deepest_subdomain_wins() {
    let mut h = Hosts::new();
    h.insert(&name("com"), &MatchType::Subdomain(v4(1, 1, 1, 1)));
    h.insert(&name("apple.com"), &MatchType::Subdomain(v4(2, 2, 2, 2)));
    h.insert(&name("x.y.apple.com"), &MatchType::Subdomain(v4(3, 3, 3, 3)));
    assert_eq!(h.matches(&name("a.y.apple.com")), Some(v4(2, 2, 2, 2)));
    assert_eq!(h.matches(&name("q.x.y.apple.com")), Some(v4(3, 3, 3, 3)));
    assert_eq!(h.matches(&name("google.com")), Some(v4(1, 1, 1, 1)));
    assert_eq!(h.matches(&name("google.org")), None);
}

#[test]
fn hosts_exact_beats_subdomain_ancestor() {
    let mut h = Hosts::new();
    h.insert(&name("apple.com"), &MatchType::Subdomain(v4(1, 2, 3, 4)));
    h.insert(&name("www.apple.com"), &MatchType::Server(v4(5, 6, 7, 8)));
    assert_eq!(h.matches(&name("www.apple.com")), Some(v4(5, 6, 7, 8)));
    assert_eq!(h.matches(&name("a.www.apple.com")), Some(v4(1, 2, 3, 4)));
}

#[test]
fn hosts_unset_removes() {
    let mut h = Hosts::new();
    h.insert(&name("apple.com"), &MatchType::Subdomain(v4(1, 2, 3, 4)));
    h.insert(&name("apple.com"), &MatchType::Unset);
    assert_eq!(h.matches(&name("apple.com")), None);
}

#[test]
fn domain_suffix_matches() {
    let mut d = Domain::new();
    d.insert(&name("apple.com"));
    d.insert(&name("apple.cn"));
    assert!(d.matches(&name("store.apple.com")));
    assert!(d.matches(&name("store.apple.com.")));
    assert!(d.matches(&name("APPLE.com")));
    assert!(!d.matches(&name("baidu.com")));
    assert!(!d.matches(&name("com")));
}

#[test]
fn domain_insert_multi_skips_bad_lines() {
    let mut d = Domain::new();
    d.insert_multi(b"apple.com\n\n  \nbad_name.org\nqq.com");
    assert!(d.matches(&name("www.qq.com")));
    assert!(d.matches(&name("apple.com")));
    assert!(!d.matches(&name("bad.org")));
}

#[test]
fn domain_every_suffix_matches() {
    let q = name("a.b.c.d");
    for k in 0..=q.len() {
        let mut d = Domain::new();
        d.insert(&q[q.len() - k..].to_vec());
        assert!(d.matches(&q));
    }
    let mut d = Domain::new();
    d.insert(&name("e.c.d"));
    assert!(!d.matches(&q));
}

#[test]
fn parse_name_forms() {
    assert_eq!(name("www.Apple.com"), vec![b"www".to_vec(), b"Apple".to_vec(), b"com".to_vec()]);
    assert_eq!(name("apple.com."), vec![b"apple".to_vec(), b"com".to_vec()]);
    assert_eq!(name(""), Vec::<Vec<u8>>::new());
    assert!(parse_name(b".").is_none());
    let long_label = "a".repeat(64) + ".com";
    assert!(parse_name(long_label.as_bytes()).is_none());
    assert!(parse_name(("a".repeat(63) + ".com").as_bytes()).is_some());
    let long_name = vec!["abcdefghi"; 26].join(".");
    assert_eq!(long_name.len(), 259);
    assert!(parse_name(long_name.as_bytes()).is_none());
    let fits = "a".repeat(53) + "." + &vec!["abcdefghi"; 20].join(".");
    assert_eq!(fits.len(), 253);
    assert!(parse_name(fits.as_bytes()).is_some());
    assert!(parse_name(b"a..b").is_none());
    assert!(parse_name(b".a").is_none());
    assert!(parse_name(b"a_b.com").is_none());
}

#[test]
fn reversed_key_lowercases() {
    assert_eq!(reversed_key(&name("WWW.Apple.com")), vec![b"com".to_vec(), b"apple".to_vec(), b"www".to_vec()]);
}

#[test]
fn ipv4_text() {
    assert_eq!(parse_ipv4(b"1.2.3.4"), Some([1, 2, 3, 4]));
    assert_eq!(parse_ipv4(b"255.0.10.199"), Some([255, 0, 10, 199]));
    assert_eq!(parse_ipv4(b"256.0.0.1"), None);
    assert_eq!(parse_ipv4(b"01.2.3.4"), None);
    assert_eq!(parse_ipv4(b"1.2.3"), None);
    assert_eq!(parse_ipv4(b"1.2.3.4.5"), None);
    assert_eq!(parse_ipv4(b"1.2.x.4"), None);
    assert_eq!(parse_ipv6(b"::"), Some([0; 8]));
    assert_eq!(parse_ipv6(b"1::"), Some([1, 0, 0, 0, 0, 0, 0, 0]));
    assert_eq!(parse_ipv6(b"AbCd::eF"), Some([0xabcd, 0, 0, 0, 0, 0, 0, 0xef]));
    assert_eq!(parse_ipv6(b"1:2:3:4:5:6:7"), None);
    assert_eq!(parse_ipv6(b":1::2"), None);
    assert_eq!(parse_ip(b"10.0.0.1"), Some(IpAddr::V4([10, 0, 0, 1])));
    assert_eq!(parse_ip(b"::2"), Some(IpAddr::V6([0, 0, 0, 0, 0, 0, 0, 2])));
}

#[test]
fn hosts_config_lines() {
    let cfg = into_hosts_config(b"# comment line\napple.com 1.2.3.4\n\nstore.apple.com\t!9.9.9.9 extra\nonly_one# 1.1.1.1\n   \n").unwrap();
    assert_eq!(cfg.len(), 2);
    assert_eq!(cfg[0], (name("apple.com"), MatchType::Subdomain(v4(1, 2, 3, 4))));
    assert_eq!(cfg[1], (name("store.apple.com"), MatchType::Server(v4(9, 9, 9, 9))));
}

#[test]
fn hosts_config_ipv6() {
    let cfg = into_hosts_config(b"a ::1\nb.com !2001:db8::8:1\nc.com 1:2:3:4:5:6:7:8\n").unwrap();
    assert_eq!(cfg[0], (name("a"), MatchType::Subdomain(IpAddr::V6([0, 0, 0, 0, 0, 0, 0, 1]))));
    assert_eq!(cfg[1], (name("b.com"), MatchType::Server(IpAddr::V6([0x2001, 0xdb8, 0, 0, 0, 0, 8, 1]))));
    assert_eq!(cfg[2], (name("c.com"), MatchType::Subdomain(IpAddr::V6([1, 2, 3, 4, 5, 6, 7, 8]))));
    assert_eq!(into_hosts_config(b"a 1::2::3\n"), Err(HostsError::InvalidIp));
    assert_eq!(into_hosts_config(b"a 1:2:3:4:5:6:7::8\n"), Err(HostsError::InvalidIp));
    assert_eq!(into_hosts_config(b"a 12345::\n"), Err(HostsError::InvalidIp));
    let mut h = droute::utils::Hosts::new();
    h.add_host("v6.com", "fe80::1", false).unwrap();
    assert_eq!(h.reslove(&name("x.v6.com")), Some(IpAddr::V6([0xfe80, 0, 0, 0, 0, 0, 0, 1])));
}

#[test]
fn add_host_takes_printable_names() {
    let mut h = droute::utils::Hosts::new();
    h.add_host("_dmarc.example.com", "1.1.1.1", true).unwrap();
    h.add_host("*.wild.com", "2.2.2.2", true).unwrap();
    assert_eq!(h.add_host("a\\.b", "1.1.1.1", false), Err(HostsError::InvalidName));
    let key = vec![b"_dmarc".to_vec(), b"example".to_vec(), b"com".to_vec()];
    assert_eq!(h.reslove(&key), Some(v4(1, 1, 1, 1)));
    let wild = vec![b"*".to_vec(), b"wild".to_vec(), b"com".to_vec()];
    assert_eq!(h.reslove(&wild), Some(v4(2, 2, 2, 2)));
    assert!(droute::name::parse_host_name(b"_x.com").is_some());
    assert!(parse_name(b"_x.com").is_none());
}

#[test]
fn hosts_name_limits() {
    let mut h = droute::utils::Hosts::new();
    let long = "a".repeat(64) + ".com";
    assert_eq!(h.add_host(&long, "1.1.1.1", false), Err(HostsError::InvalidName));
    assert_eq!(h.add_host(".", "1.1.1.1", false), Err(HostsError::InvalidName));
    assert_eq!(into_hosts_config(format!("{} 1.1.1.1\n", long).as_bytes()), Err(HostsError::InvalidName));
}

#[test]
fn hosts_config_errors() {
    assert_eq!(into_hosts_config(b"a\n"), Err(HostsError::MissingIp));
    assert_eq!(into_hosts_config(b"x.com 1.1.1.1\nlonely.org   \n"), Err(HostsError::MissingIp));
    assert_eq!(into_hosts_config(b"apple.com 1.2.3\n"), Err(HostsError::InvalidIp));
    assert_eq!(into_hosts_config(b"a..com 1.2.3.4\n"), Err(HostsError::InvalidName));
    let mut h = droute::utils::Hosts::new();
    assert_eq!(h.add_host("apple.com", "300.1.1.1", false), Err(HostsError::InvalidIp));
    assert_eq!(h.add_host("apple..com", "1.1.1.1", false), Err(HostsError::InvalidName));
    assert_eq!(h.add_text(b"x.com 1.1.1.1\nbad..com 1.1.1.1\n"), Err(HostsError::InvalidName));
    assert_eq!(h.reslove(&name("x.com")), None);
    h.add_host("apple.com", "1.1.1.1", true).unwrap();
    assert_eq!(h.reslove(&name("apple.com")), Some(v4(1, 1, 1, 1)));
    assert_eq!(h.reslove(&name("www.apple.com")), None);
}
