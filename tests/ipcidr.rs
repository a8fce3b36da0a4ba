use droute::ip::IpAddr;
use droute::ipcidr::{cidr_contains, Cidr, IpCidr};
use droute::matcher::{Matcher, QueryContext, QueryInfo};
use droute::name::parse_name;
use droute::table::{Rule, Table};

fn v4(a: u8, b: u8, c: u8, d: u8) -> IpAddr {
    IpAddr::V4([a, b, c, d])
}

#[test]
fn cidr_prefixes() {
    let net = Cidr { addr: v4(10, 0, 0, 0), len: 8 };
    assert!(cidr_contains(&net, &v4(10, 200, 3, 4)));
    assert!(!cidr_contains(&net, &v4(11, 0, 0, 1)));
    let odd = Cidr { addr: v4(192, 168, 0, 0), len: 20 };
    assert!(cidr_contains(&odd, &v4(192, 168, 15, 255)));
    assert!(!cidr_contains(&odd, &v4(192, 168, 16, 0)));
    let all = Cidr { addr: v4(0, 0, 0, 0), len: 0 };
    assert!(cidr_contains(&all, &v4(8, 8, 8, 8)));
    assert!(!cidr_contains(&all, &IpAddr::V6([0; 8])));
    let v6 = Cidr { addr: IpAddr::V6([0x2001, 0x0db8, 0, 0, 0, 0, 0, 0]), len: 32 };
    assert!(cidr_contains(&v6, &IpAddr::V6([0x2001, 0x0db8, 1, 2, 3, 4, 5, 6])));
    assert!(!cidr_contains(&v6, &IpAddr::V6([0x2001, 0x0db9, 0, 0, 0, 0, 0, 0])));
    let host = Cidr { addr: v4(1, 2, 3, 4), len: 32 };
    assert!(cidr_contains(&host, &v4(1, 2, 3, 4)));
    assert!(!cidr_contains(&host, &v4(1, 2, 3, 5)));
}

#[test]
fn ipcidr_set() {
    let mut s = IpCidr::new();
    assert!(s.add(Cidr { addr: v4(10, 0, 0, 0), len: 8 }));
    assert!(!s.add(Cidr { addr: v4(10, 0, 0, 0), len: 33 }));
    assert!(s.add(Cidr { addr: v4(172, 16, 0, 0), len: 12 }));
    assert!(s.contains(&v4(172, 31, 1, 1)));
    assert!(!s.contains(&v4(172, 32, 1, 1)));
    assert!(!s.contains(&v4(9, 9, 9, 9)));
}

#[test]
fn route_by_client_address() {
    let mut s = IpCidr::new();
    s.add(Cidr { addr: v4(10, 0, 0, 0), len: 8 });
    let t = Table::new(vec![Rule::new(
        "start".to_string(),
        Matcher::IpCidr(s),
        (vec![], "end".to_string()),
        (vec![], "end".to_string()),
    )])
    .unwrap();
    let q = |ctx| QueryInfo { name: parse_name(b"a.com").unwrap(), qtype: 1, qclass: 1, ctx };
    assert!(t.route(&q(Some(QueryContext { ip: v4(10, 1, 2, 3) })))[0].matched);
    assert!(!t.route(&q(Some(QueryContext { ip: v4(11, 1, 2, 3) })))[0].matched);
    assert!(!t.route(&q(None))[0].matched);
}
