use droute::cache::{Cache, CacheKey, Decision};
use droute::matcher::{Action, CacheMode};
use droute::name::parse_name;
use droute::parsed::{BranchError, BranchItem, ParBranch, ParRule};
use droute::matcher::Matcher;
use droute::table::{Table, TableError};

fn key(s: &str) -> CacheKey {
    CacheKey::new(&parse_name(s.as_bytes()).unwrap(), 1, 1)
}

#[test]
fn standard_cache_hit_then_expiry() {
    let mut c = Cache::new(60);
    let k = key("example.com");
    assert_eq!(c.lookup(&k, 100, CacheMode::Standard, 7), Decision::Forward);
    c.store(&k, &vec![0, 1, 0x81, 0x80, 9], 300, 100);
    // Within the capped lifetime: served, with the query's id, no upstream call.
    assert_eq!(
        c.lookup(&key("EXAMPLE.com"), 159, CacheMode::Standard, 0x1234),
        Decision::Serve(vec![0x12, 0x34, 0x81, 0x80, 9])
    );
    // After expiry: exactly one upstream call.
    assert_eq!(c.lookup(&k, 160, CacheMode::Standard, 1), Decision::Forward);
    assert_eq!(
        c.lookup(&k, 160, CacheMode::Persistent, 1),
        Decision::Refresh(vec![0, 1, 0x81, 0x80, 9])
    );
    assert_eq!(c.lookup(&k, 120, CacheMode::Disabled, 1), Decision::Forward);
}

#[test]
fn cache_short_ttl_and_replacement() {
    let mut c = Cache::new(600);
    let k = key("a.com");
    c.store(&k, &vec![1, 1, 1], 10, 0);
    assert_eq!(c.lookup(&k, 9, CacheMode::Standard, 5), Decision::Serve(vec![0, 5, 1]));
    assert_eq!(c.lookup(&k, 10, CacheMode::Standard, 5), Decision::Forward);
    c.store(&k, &vec![2], 10, 20);
    assert_eq!(c.lookup(&k, 25, CacheMode::Standard, 5), Decision::Serve(vec![2]));
    assert_eq!(c.lookup(&key("b.com"), 25, CacheMode::Standard, 5), Decision::Forward);
    c.store(&k, &vec![3], u64::MAX, u64::MAX - 1);
    assert_eq!(c.lookup(&k, u64::MAX - 1, CacheMode::Standard, 0), Decision::Serve(vec![3]));
}

#[test]
fn branch_from_items() {
    let b = ParBranch::from_items(vec![
        BranchItem::Action(Action::Blackhole),
        BranchItem::Tag("next".to_string()),
    ])
    .ok()
    .unwrap();
    assert_eq!(b.seq, vec![Action::Blackhole]);
    assert_eq!(b.next, "next");
    assert_eq!(
        ParBranch::from_items(vec![BranchItem::Action(Action::Blackhole)]).err(),
        Some(BranchError::MissingTag)
    );
    assert_eq!(
        ParBranch::from_items(vec![
            BranchItem::Tag("a".to_string()),
            BranchItem::Tag("b".to_string())
        ])
        .err(),
        Some(BranchError::ExtraElement)
    );
    let d = ParBranch::default();
    assert!(d.seq.is_empty());
    assert_eq!(d.next, "end");
}

#[test]
fn table_parse_from_written_rules() {
    let t = Table::parse(vec![ParRule {
        tag: "start".to_string(),
        matcher: Matcher::Any,
        on_match: ParBranch::default(),
        no_match: ParBranch::default(),
    }]);
    assert!(t.is_ok());
    let t = Table::parse(vec![ParRule {
        tag: "begin".to_string(),
        matcher: Matcher::Any,
        on_match: ParBranch::default(),
        no_match: ParBranch::default(),
    }]);
    assert!(matches!(t, Err(TableError::UndefinedTag(_))));
}
