use droute::domain::Domain;
use droute::hosts::Hosts;
use droute::ip::IpAddr;
use droute::matcher::{Action, CacheMode, Matcher, QueryInfo};
use droute::name::parse_name;
use droute::table::{Hop, Rule, Step, Table, TableError};
use std::collections::HashSet;

fn rule(tag: &str, m: Matcher, then: (Vec<Action>, &str), els: (Vec<Action>, &str)) -> Rule {
    Rule::new(
        tag.to_string(),
        m,
        (then.0, then.1.to_string()),
        (els.0, els.1.to_string()),
    )
}

fn query(name: &str) -> QueryInfo {
    QueryInfo {
        name: parse_name(name.as_bytes()).unwrap(),
        qtype: 1,
        qclass: 1,
        ctx: None,
    }
}

fn mock(name: &str) -> Action {
    Action::Query(name.to_string(), Some(CacheMode::default()))
}

#[test]
fn is_not_recursion() {
    Table::new(vec![
        rule("start", Matcher::Any, (vec![], "foo"), (vec![], "foo")),
        rule("foo", Matcher::Any, (vec![], "end"), (vec![], "end")),
    ])
    .ok()
    .unwrap();
}

#[test]
fn fail_table_recursion() {
    match Table::new(vec![rule(
        "start",
        Matcher::Any,
        (vec![mock("mock")], "end"),
        (vec![], "start"),
    )])
    .err()
    .unwrap()
    {
        TableError::RuleRecursion(_) => {}
        e => panic!("Not the right error type: {:?}", e),
    }
}

#[test]
fn fail_multiple_defs() {
    match Table::new(vec![
        rule("start", Matcher::Any, (vec![], "end"), (vec![], "end")),
        rule("start", Matcher::Any, (vec![], "end"), (vec![], "end")),
    ])
    .err()
    .unwrap()
    {
        TableError::MultipleDef(_) => {}
        e => panic!("Not the right error type: {:?}", e),
    }
}

#[test]
fn fail_unused_rules() {
    match Table::new(vec![
        rule("start", Matcher::Any, (vec![mock("mock")], "end"), (vec![], "end")),
        rule("mock", Matcher::Any, (vec![], "end"), (vec![], "end")),
        rule("unused", Matcher::Any, (vec![], "end"), (vec![], "end")),
    ])
    .err()
    .unwrap()
    {
        TableError::UnusedRules(v) => {
            assert_eq!(
                v.into_iter().collect::<HashSet<String>>(),
                vec!["mock", "unused"]
                    .into_iter()
                    .map(|s| s.to_string())
                    .collect()
            )
        }
        e => panic!("Not the right error type: {:?}", e),
    }
}

#[test]
fn success_domain_table() {
    let mut d = Domain::new();
    d.insert_multi(b"baidu.com\nqq.com\n");
    Table::new(vec![rule(
        "start",
        Matcher::Domain(d),
        (vec![mock("mock")], "end"),
        (vec![mock("another_mock")], "end"),
    )])
    .ok()
    .unwrap();
}

#[test]
fn empty_table_routes_to_nothing() {
    let t = Table::new(vec![rule("start", Matcher::Any, (vec![], "end"), (vec![], "end"))]).unwrap();
    let r = t.route(&query("example.com"));
    assert_eq!(r, vec![Hop { rule: 0, matched: true }]);
    assert!(t.branch(&r[0]).actions.is_empty());
    assert!(t.used_upstreams().is_empty());
}

#[test]
fn domain_split_routing() {
    let mut d = Domain::new();
    d.insert_multi(b"cn\nbaidu.com\n");
    let t = Table::new(vec![rule(
        "start",
        Matcher::Domain(d),
        (vec![Action::Query("domestic".to_string(), Some(CacheMode::Standard))], "end"),
        (vec![Action::Query("international".to_string(), Some(CacheMode::Standard))], "end"),
    )])
    .unwrap();
    let r = t.route(&query("www.baidu.com"));
    assert_eq!(r.len(), 1);
    assert_eq!(
        t.branch(&r[0]).actions,
        vec![Action::Query("domestic".to_string(), Some(CacheMode::Standard))]
    );
    let r = t.route(&query("www.google.com"));
    assert_eq!(
        t.branch(&r[0]).actions,
        vec![Action::Query("international".to_string(), Some(CacheMode::Standard))]
    );
    assert_eq!(
        t.steps(&t.route(&query("a.cn"))),
        vec![Step::Query("domestic".to_string(), CacheMode::Standard)]
    );
    assert_eq!(
        t.steps(&t.route(&query("example.org"))),
        vec![Step::Query("international".to_string(), CacheMode::Standard)]
    );
    let ups: HashSet<String> = t.used_upstreams().iter().cloned().collect();
    assert_eq!(
        ups,
        ["domestic", "international"].iter().map(|s| s.to_string()).collect()
    );
}

#[test]
fn recursion_rejected_names_start() {
    match Table::new(vec![rule("start", Matcher::Any, (vec![], "end"), (vec![], "start"))]) {
        Err(TableError::RuleRecursion(t)) => assert_eq!(t, "start"),
        other => panic!("unexpected: {:?}", other.err()),
    }
}

#[test]
fn unused_rule_rejected() {
    match Table::new(vec![
        rule("start", Matcher::Any, (vec![], "end"), (vec![], "end")),
        rule("orphan", Matcher::Any, (vec![], "end"), (vec![], "end")),
    ]) {
        Err(TableError::UnusedRules(v)) => assert_eq!(v, vec!["orphan".to_string()]),
        other => panic!("unexpected: {:?}", other.err()),
    }
}

#[test]
fn undefined_next_rejected() {
    match Table::new(vec![rule("start", Matcher::Any, (vec![], "nowhere"), (vec![], "nowhere"))]) {
        Err(TableError::UndefinedTag(t)) => assert_eq!(t, "nowhere"),
        other => panic!("unexpected: {:?}", other.err()),
    }
}

#[test]
fn missing_start_rejected() {
    match Table::new(vec![rule("first", Matcher::Any, (vec![], "end"), (vec![], "end"))]) {
        Err(TableError::UndefinedTag(t)) => assert_eq!(t, "start"),
        other => panic!("unexpected: {:?}", other.err()),
    }
}

#[test]
fn multiple_defs_names_the_tag() {
    match Table::new(vec![
        rule("start", Matcher::Any, (vec![], "a"), (vec![], "end")),
        rule("a", Matcher::Any, (vec![], "end"), (vec![], "end")),
        rule("a", Matcher::Any, (vec![], "end"), (vec![], "end")),
    ]) {
        Err(TableError::MultipleDef(t)) => assert_eq!(t, "a"),
        other => panic!("unexpected: {:?}", other.err()),
    }
}

#[test]
fn longer_cycle_rejected() {
    match Table::new(vec![
        rule("start", Matcher::Any, (vec![], "a"), (vec![], "end")),
        rule("a", Matcher::Any, (vec![], "b"), (vec![], "end")),
        rule("b", Matcher::Any, (vec![], "end"), (vec![], "a")),
    ]) {
        Err(TableError::RuleRecursion(t)) => assert_eq!(t, "a"),
        other => panic!("unexpected: {:?}", other.err()),
    }
}

#[test]
fn diamond_is_not_recursion() {
    let t = Table::new(vec![
        rule("start", Matcher::QType(28), (vec![], "a"), (vec![], "b")),
        rule("a", Matcher::Any, (vec![Action::Blackhole], "c"), (vec![], "c")),
        rule("b", Matcher::Any, (vec![], "c"), (vec![], "c")),
        rule("c", Matcher::Not(Box::new(Matcher::Any)), (vec![], "end"), (vec![Action::SetCacheMode(CacheMode::Disabled)], "end")),
    ])
    .unwrap();
    let r = t.route(&query("example.com"));
    assert_eq!(
        r,
        vec![
            Hop { rule: 0, matched: false },
            Hop { rule: 2, matched: true },
            Hop { rule: 3, matched: false }
        ]
    );
    assert!(r.len() <= 4);
    // The same query routes the same way twice.
    assert_eq!(t.route(&query("example.com")), r);
}

#[test]
fn hosts_matcher_in_rule() {
    let mut h = Hosts::new();
    h.insert(&parse_name(b"apple.com").unwrap(), &droute::hosts::MatchType::Subdomain(IpAddr::V4([1, 2, 3, 4])));
    let t = Table::new(vec![rule(
        "start",
        Matcher::And(Box::new(Matcher::Hosts(h)), Box::new(Matcher::QType(1))),
        (vec![Action::FastAnswerIp(IpAddr::V4([1, 2, 3, 4]))], "end"),
        (vec![mock("up")], "end"),
    )])
    .unwrap();
    assert!(t.route(&query("www.apple.com"))[0].matched);
    assert!(!t.route(&query("apple.cn"))[0].matched);
}

#[test]
fn steps_follow_cache_mode() {
    let t = Table::new(vec![
        rule(
            "start",
            Matcher::Any,
            (
                vec![
                    Action::Query("a".to_string(), None),
                    Action::SetCacheMode(CacheMode::Disabled),
                    Action::Query("b".to_string(), None),
                ],
                "next",
            ),
            (vec![], "end"),
        ),
        rule(
            "next",
            Matcher::Any,
            (
                vec![
                    Action::Query("c".to_string(), None),
                    Action::Query("d".to_string(), Some(CacheMode::Persistent)),
                    Action::FastAnswerA(1, 2, 3, 4),
                    Action::Blackhole,
                ],
                "end",
            ),
            (vec![], "end"),
        ),
    ])
    .unwrap();
    let r = t.route(&query("example.com"));
    assert_eq!(
        t.steps(&r),
        vec![
            Step::Query("a".to_string(), CacheMode::Standard),
            Step::Query("b".to_string(), CacheMode::Disabled),
            Step::Query("c".to_string(), CacheMode::Disabled),
            Step::Query("d".to_string(), CacheMode::Persistent),
            Step::Answer(IpAddr::V4([1, 2, 3, 4])),
            Step::Blackhole,
        ]
    );
}
