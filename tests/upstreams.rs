use droute::matcher::{Action, CacheMode, Matcher};
use droute::table::{Rule, Table};
use droute::upstreams::{validate, UpstreamDecl, UpstreamError};

fn up(tag: &str, children: &[&str]) -> UpstreamDecl {
    UpstreamDecl {
        tag: tag.to_string(),
        children: children.iter().map(|s| s.to_string()).collect(),
    }
}

fn used(tags: &[&str]) -> Vec<String> {
    tags.iter().map(|s| s.to_string()).collect()
}

#[test]
fn upstreams_valid_with_hybrid() {
    let us = vec![up("a", &[]), up("b", &[]), up("h", &["a", "b"])];
    assert_eq!(validate(&us, &used(&["h", "a"])), Ok(()));
}

#[test]
fn upstream_unknown_when_used() {
    let us = vec![up("a", &[])];
    assert_eq!(
        validate(&us, &used(&["a", "missing"])),
        Err(UpstreamError::UnknownUpstream("missing".to_string()))
    );
}

#[test]
fn upstream_unknown_in_hybrid() {
    let us = vec![up("a", &[]), up("h", &["a", "ghost"])];
    assert_eq!(
        validate(&us, &used(&["a"])),
        Err(UpstreamError::UnknownUpstream("ghost".to_string()))
    );
}

#[test]
fn upstream_cycle_rejected() {
    let us = vec![up("h1", &["h2"]), up("h2", &["x", "h1"]), up("x", &[])];
    assert!(matches!(
        validate(&us, &used(&[])),
        Err(UpstreamError::CyclicUpstream(_))
    ));
    let selfish = vec![up("s", &["s"])];
    assert_eq!(
        validate(&selfish, &used(&["s"])),
        Err(UpstreamError::CyclicUpstream("s".to_string()))
    );
}

#[test]
fn upstream_multiple_defs() {
    let us = vec![up("a", &[]), up("a", &[])];
    assert_eq!(
        validate(&us, &used(&[])),
        Err(UpstreamError::MultipleDef("a".to_string()))
    );
}

#[test]
fn table_upstreams_checked_against_pool() {
    let t = Table::new(vec![Rule::new(
        "start".to_string(),
        Matcher::Any,
        (vec![Action::Query("domestic".to_string(), Some(CacheMode::Standard))], "end".to_string()),
        (vec![Action::Query("abroad".to_string(), Some(CacheMode::Disabled))], "end".to_string()),
    )])
    .unwrap();
    let pool = vec![up("domestic", &[]), up("abroad", &[])];
    assert_eq!(validate(&pool, t.used_upstreams()), Ok(()));
    let small = vec![up("domestic", &[])];
    assert_eq!(
        validate(&small, t.used_upstreams()),
        Err(UpstreamError::UnknownUpstream("abroad".to_string()))
    );
}
