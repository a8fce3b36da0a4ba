//! The routing table: a graph of rules, its validation, and the walk that
//! routes a query through it.
use vstd::prelude::*;
use vstd::seq_lib::*;
use vstd::set_lib::*;
use crate::ip::IpAddr;
use crate::matcher::{Action, CacheMode, Matcher, QueryInfo};
use crate::trie::key_view;

verus! {

pub open spec fn start_tag() -> Seq<char> {
    seq!['s', 't', 'a', 'r', 't']
}

pub open spec fn end_tag() -> Seq<char> {
    seq!['e', 'n', 'd']
}

/// The tag that every route starts at.
pub fn start_label() -> (r: String)
    ensures
        r@ == start_tag(),
{
    proof {
        reveal_strlit("start");
    }
    "start".to_owned()
}

/// The tag that ends a route.
pub fn end_label() -> (r: String)
    ensures
        r@ == end_tag(),
{
    proof {
        reveal_strlit("end");
    }
    "end".to_owned()
}

/// The actions of one arm of a rule and the tag to go on to.
pub struct Branch {
    pub actions: Vec<Action>,
    pub next: String,
}

/// A rule: where its matcher holds, its `on_match` branch is taken, else its
/// `no_match` branch.
pub struct Rule {
    pub tag: String,
    pub matcher: Matcher,
    pub on_match: Branch,
    pub no_match: Branch,
}

impl Rule {
    pub fn new(
        tag: String,
        matcher: Matcher,
        on_match: (Vec<Action>, String),
        no_match: (Vec<Action>, String),
    ) -> (r: Rule)
        ensures
            r.tag == tag,
            r.matcher == matcher,
            r.on_match.actions == on_match.0,
            r.on_match.next == on_match.1,
            r.no_match.actions == no_match.0,
            r.no_match.next == no_match.1,
    {
        Rule {
            tag,
            matcher,
            on_match: Branch { actions: on_match.0, next: on_match.1 },
            no_match: Branch { actions: no_match.0, next: no_match.1 },
        }
    }
}

/// Errors of table validation.
#[derive(Debug)]
pub enum TableError {
    /// Rules that no route from `start` reaches, in the order given.
    UnusedRules(Vec<String>),
    /// A rule that a route from `start` reaches again before it ends.
    RuleRecursion(String),
    /// A tag that a reachable rule, or the start, names and no rule has.
    UndefinedTag(String),
    /// A tag that two rules have.
    MultipleDef(String),
}

/// No two rules share a tag.
pub open spec fn tags_distinct(rs: Seq<Rule>) -> bool {
    forall|i: int, j: int| 0 <= i < j < rs.len() ==> rs[i].tag@ != rs[j].tag@
}

/// Rule `i` has the tag of an earlier rule.
pub open spec fn dup_at(rs: Seq<Rule>, i: int) -> bool {
    exists|j: int| 0 <= j < i && rs[j].tag@ == rs[i].tag@
}

/// Some rule has tag `t`.
pub open spec fn defined(rs: Seq<Rule>, t: Seq<char>) -> bool {
    exists|i: int| 0 <= i < rs.len() && rs[i].tag@ == t
}

/// A branch may go on to `t`.
pub open spec fn next_ok(rs: Seq<Rule>, t: Seq<char>) -> bool {
    t == end_tag() || defined(rs, t)
}

/// One branch of rule `i` goes on to rule `j`.
pub open spec fn steps_to(rs: Seq<Rule>, i: int, j: int) -> bool {
    ||| (rs[i].on_match.next@ != end_tag() && rs[j].tag@ == rs[i].on_match.next@)
    ||| (rs[i].no_match.next@ != end_tag() && rs[j].tag@ == rs[i].no_match.next@)
}

/// A sequence of rules that a route entering at tag `t` may visit.
pub open spec fn is_path(rs: Seq<Rule>, w: Seq<int>, t: Seq<char>) -> bool {
    &&& w.len() > 0
    &&& forall|k: int| 0 <= k < w.len() ==> 0 <= #[trigger] w[k] < rs.len()
    &&& rs[w[0]].tag@ == t
    &&& forall|k: int| 0 <= k < w.len() - 1 ==> steps_to(rs, #[trigger] w[k], w[k + 1])
}

/// A sequence of rules that a route may visit, from the rule tagged `start` on.
pub open spec fn is_walk(rs: Seq<Rule>, w: Seq<int>) -> bool {
    &&& w.len() > 0
    &&& forall|k: int| 0 <= k < w.len() ==> 0 <= #[trigger] w[k] < rs.len()
    &&& rs[w[0]].tag@ == start_tag()
    &&& forall|k: int| 0 <= k < w.len() - 1 ==> steps_to(rs, #[trigger] w[k], w[k + 1])
}

/// Walks are the paths that enter at `start`.
proof fn lemma_walk_is_path(rs: Seq<Rule>, w: Seq<int>)
    ensures
        is_walk(rs, w) == is_path(rs, w, start_tag()),
{
}

/// Some path entering at tag `t` ends at rule `j`.
pub open spec fn reaches_from(rs: Seq<Rule>, t: Seq<char>, j: int) -> bool {
    exists|w: Seq<int>| #[trigger] is_path(rs, w, t) && w.last() == j
}

/// A rule whose branch goes on to `c` followed by a path entering at `c` is a
/// path entering at the rule's tag.
proof fn lemma_prepend(rs: Seq<Rule>, i: int, w: Seq<int>, c: Seq<char>)
    requires
        0 <= i < rs.len(),
        is_path(rs, w, c),
        c != end_tag(),
        rs[i].on_match.next@ == c || rs[i].no_match.next@ == c,
    ensures
        is_path(rs, seq![i] + w, rs[i].tag@),
        (seq![i] + w).last() == w.last(),
{
    let v = seq![i] + w;
    assert forall|k: int| 0 <= k < v.len() implies 0 <= #[trigger] v[k] < rs.len() by {
        if k > 0 {
            assert(v[k] == w[k - 1]);
        }
    }
    assert forall|k: int| 0 <= k < v.len() - 1 implies steps_to(rs, #[trigger] v[k], v[k + 1]) by {
        if k > 0 {
            assert(v[k] == w[k - 1] && v[k + 1] == w[k]);
        } else {
            assert(v[1] == w[0]);
        }
    }
}

/// Some walk ends at rule `j`.
pub open spec fn reachable(rs: Seq<Rule>, j: int) -> bool {
    exists|w: Seq<int>| #[trigger] is_walk(rs, w) && w.last() == j
}

/// A walk that repeats no rule and whose last rule goes on only to defined tags.
pub open spec fn sound_walk(rs: Seq<Rule>, w: Seq<int>) -> bool {
    &&& w.no_duplicates()
    &&& next_ok(rs, rs[w.last()].on_match.next@)
    &&& next_ok(rs, rs[w.last()].no_match.next@)
}

/// `start` is defined and no route repeats a rule or goes on to an undefined tag.
pub open spec fn sound_graph(rs: Seq<Rule>) -> bool {
    &&& defined(rs, start_tag())
    &&& forall|w: Seq<int>| #[trigger] is_walk(rs, w) ==> sound_walk(rs, w)
}

pub open spec fn all_reachable(rs: Seq<Rule>) -> bool {
    forall|j: int| 0 <= j < rs.len() ==> reachable(rs, j)
}

/// The tags of the rules that no walk reaches.
pub open spec fn unreachable_tags(rs: Seq<Rule>) -> Set<Seq<char>> {
    Set::new(|t: Seq<char>| exists|j: int| 0 <= j < rs.len() && rs[j].tag@ == t && !reachable(rs, j))
}

/// A walk comes back to a rule tagged `t`.
pub open spec fn on_reachable_cycle(rs: Seq<Rule>, t: Seq<char>) -> bool {
    exists|w: Seq<int>, k: int|
        #![trigger is_walk(rs, w), w[k]]
        is_walk(rs, w) && 0 <= k < w.len() - 1 && w[k] == w.last() && rs[w.last()].tag@ == t
}

/// `u` is named by the start or by a reachable rule, and no rule has it.
pub open spec fn undefined_ref(rs: Seq<Rule>, u: Seq<char>) -> bool {
    &&& !defined(rs, u)
    &&& u != end_tag()
    &&& (u == start_tag() || exists|w: Seq<int>|
        #[trigger] is_walk(rs, w) && (rs[w.last()].on_match.next@ == u || rs[w.last()].no_match.next@
            == u))
}

/// A sequence of distinct indices below `n` is at most `n` long.
pub(crate) proof fn lemma_distinct_bounded(s: Seq<int>, n: int)
    requires
        s.no_duplicates(),
        n >= 0,
        forall|k: int| 0 <= k < s.len() ==> 0 <= #[trigger] s[k] < n,
    ensures
        s.len() <= n,
{
    s.unique_seq_to_set();
    lemma_int_range(0, n);
    assert(s.to_set().subset_of(set_int_range(0, n)));
    lemma_len_subset(s.to_set(), set_int_range(0, n));
}

/// The index of the rule tagged `t`.
fn find_rule(rules: &Vec<Rule>, t: &String) -> (r: Option<usize>)
    ensures
        match r {
            Some(i) => i < rules@.len() && rules@[i as int].tag@ == t@,
            None => !defined(rules@, t@),
        },
{
    let mut i: usize = 0;
    while i < rules.len()
        invariant
            i <= rules@.len(),
            forall|k: int| 0 <= k < i ==> rules@[k].tag@ != t@,
        decreases rules@.len() - i,
    {
        if rules[i].tag == *t {
            return Some(i);
        }
        i = i + 1;
    }
    None
}

/// Walks the rules from tag `t`, reached by the path `stack` that entered at
/// `root`, marking each rule it enters as used.
///
/// `on_stack` marks the rules of `stack`; it is as before on return.
fn traverse(
    rules: &Vec<Rule>,
    on_stack: &mut Vec<bool>,
    used: &mut Vec<bool>,
    t: &String,
    stack: Ghost<Seq<int>>,
    root: Ghost<Seq<char>>,
) -> (r: Result<(), TableError>)
    requires
        old(on_stack)@.len() == rules@.len(),
        old(used)@.len() == rules@.len(),
        tags_distinct(rules@),
        stack@.no_duplicates(),
        forall|k: int| 0 <= k < stack@.len() ==> 0 <= #[trigger] stack@[k] < rules@.len(),
        forall|j: int| 0 <= j < rules@.len() ==> (old(on_stack)@[j] <==> stack@.contains(j)),
        t@ != end_tag(),
        stack@.len() == 0 ==> t@ == root@,
        stack@.len() > 0 ==> is_path(rules@, stack@, root@) && (rules@[stack@.last()].on_match.next@
            == t@ || rules@[stack@.last()].no_match.next@ == t@),
    ensures
        final(on_stack)@ == old(on_stack)@,
        final(used)@.len() == rules@.len(),
        forall|j: int| 0 <= j < rules@.len() && #[trigger] old(used)@[j] ==> final(used)@[j],
        forall|j: int|
            0 <= j < rules@.len() && #[trigger] final(used)@[j] ==> old(used)@[j] || reaches_from(
                rules@,
                t@,
                j,
            ),
        !defined(rules@, t@) ==> (r matches Err(TableError::UndefinedTag(u)) && u@ == t@),
        r is Ok ==> defined(rules@, t@),
        r is Ok ==> forall|w: Seq<int>|
            #[trigger] is_path(rules@, w, root@) && w.len() > stack@.len() && w.take(
                stack@.len() as int,
            ) == stack@ && rules@[w[stack@.len() as int]].tag@ == t@ ==> sound_walk(rules@, w)
                && forall|k: int| stack@.len() <= k < w.len() ==> final(used)@[#[trigger] w[k]],
        r matches Err(e) ==> match e {
            TableError::UndefinedTag(u) => !defined(rules@, u@) && u@ != end_tag() && (u@ == t@
                || exists|w: Seq<int>|
                #[trigger] is_path(rules@, w, t@) && (rules@[w.last()].on_match.next@ == u@
                    || rules@[w.last()].no_match.next@ == u@)),
            TableError::RuleRecursion(u) => exists|w: Seq<int>, k: int|
                #![trigger is_path(rules@, w, root@), w[k]]
                is_path(rules@, w, root@) && 0 <= k < w.len() - 1 && w[k] == w.last()
                    && rules@[w.last()].tag@ == u@,
            _ => false,
        },
    decreases rules@.len() - stack@.len(),
{
    let ghost rs = rules@;
    let i = match find_rule(rules, t) {
        None => {
            return Err(TableError::UndefinedTag(t.clone()));
        },
        Some(i) => i,
    };
    let ghost s2 = stack@.push(i as int);
    let ghost single = seq![i as int];
    proof {
        assert forall|k: int| 0 <= k < s2.len() implies 0 <= #[trigger] s2[k] < rs.len() by {
            if k < stack@.len() {
                assert(s2[k] == stack@[k]);
            }
        }
        assert forall|k: int| 0 <= k < s2.len() - 1 implies steps_to(rs, #[trigger] s2[k], s2[k + 1]) by {
            if k < stack@.len() - 1 {
                assert(s2[k] == stack@[k] && s2[k + 1] == stack@[k + 1]);
            } else {
                assert(s2[k] == stack@.last());
            }
        }
        if stack@.len() > 0 {
            assert(s2[0] == stack@[0]);
        }
        assert(is_path(rs, s2, root@));
        assert(is_path(rs, single, t@));
        assert(reaches_from(rs, t@, i as int));
    }
    if on_stack[i] {
        proof {
            assert(stack@.contains(i as int));
            let k = choose|k: int| 0 <= k < stack@.len() && stack@[k] == i;
            assert(s2[k] == s2.last());
            assert(is_path(rs, s2, root@));
        }
        return Err(TableError::RuleRecursion(t.clone()));
    }
    proof {
        assert(!stack@.contains(i as int));
        assert forall|a: int, b: int| 0 <= a < b < s2.len() implies s2[a] != s2[b] by {
            if b == stack@.len() {
                assert(s2[a] == stack@[a]);
            } else {
                assert(s2[a] == stack@[a] && s2[b] == stack@[b]);
            }
        }
        assert(s2.no_duplicates());
        lemma_distinct_bounded(s2, rs.len() as int);
    }
    on_stack.set(i, true);
    used.set(i, true);
    let ghost used1 = used@;
    proof {
        assert forall|j: int| 0 <= j < rs.len() && #[trigger] used1[j] implies old(used)@[j]
            || reaches_from(rs, t@, j) by {
            if j == i {
                assert(single.last() == i);
            }
        }
        assert forall|j: int| 0 <= j < rs.len() implies (on_stack@[j] <==> s2.contains(j)) by {
            if j == i {
                assert(s2[stack@.len() as int] == j);
            } else if stack@.contains(j) {
                let k = choose|k: int| 0 <= k < stack@.len() && stack@[k] == j;
                assert(s2[k] == j);
            } else if s2.contains(j) {
                let k = choose|k: int| 0 <= k < s2.len() && s2[k] == j;
                assert(stack@[k] == j);
            }
        }
    }
    let end = end_label();
    let r1 = if rules[i].on_match.next != end {
        traverse(rules, on_stack, used, &rules[i].on_match.next, Ghost(s2), root)
    } else {
        Ok(())
    };
    let ghost used2 = used@;
    proof {
        let c = rs[i as int].on_match.next@;
        lemma_child_outcome(rs, i as int, c, r1, old(used)@, used1, used2, t@);
    }
    if r1.is_err() {
        on_stack.set(i, false);
        proof {
            assert(on_stack@ =~= old(on_stack)@);
        }
        return r1;
    }
    let r2 = if rules[i].no_match.next != end {
        traverse(rules, on_stack, used, &rules[i].no_match.next, Ghost(s2), root)
    } else {
        Ok(())
    };
    proof {
        let c = rs[i as int].no_match.next@;
        lemma_child_outcome(rs, i as int, c, r2, old(used)@, used2, used@, t@);
    }
    on_stack.set(i, false);
    proof {
        assert(on_stack@ =~= old(on_stack)@);
    }
    if r2.is_err() {
        return r2;
    }
    proof {
        assert(used1[i as int]);
        assert(used2[i as int]);
        assert(used@[i as int]);
        let n: int = stack@.len() as int;
        assert forall|w: Seq<int>|
            #[trigger] is_path(rs, w, root@) && w.len() > n && w.take(n) == stack@ && rs[w[n]].tag@
                == t@ implies sound_walk(rs, w) && forall|k: int|
            n <= k < w.len() ==> used@[#[trigger] w[k]] by {
            assert(rs[w[n as int]].tag@ == rs[i as int].tag@);
            if w[n as int] != i {
                if w[n as int] < i {
                    assert(rs[w[n as int]].tag@ != rs[i as int].tag@);
                } else {
                    assert(rs[i as int].tag@ != rs[w[n as int]].tag@);
                }
            }
            assert(w.take(n + 1) =~= s2) by {
                assert forall|k: int| 0 <= k < n implies w.take(n + 1)[k] == s2[k] by {
                    assert(w.take(n as int)[k] == stack@[k]);
                }
            }
            if w.len() == n + 1 {
                assert(w =~= s2);
                assert(used@[i as int]);
            } else {
                assert(steps_to(rs, w[n as int], w[n + 1]));
                assert(w.take(n + 1) == s2);
                assert forall|k: int| n <= k < w.len() implies used@[#[trigger] w[k]] by {
                    if k == n {
                        assert(used@[i as int]);
                    }
                }
            }
        }
    }
    Ok(())
}

/// What a call of `traverse` on branch target `c` of rule `i` (tagged `t`)
/// says, restated for rule `i`: marks stay, new marks lie on paths from `t`,
/// and an undefined tag it reports is named on a path from `t`.
proof fn lemma_child_outcome(
    rs: Seq<Rule>,
    i: int,
    c: Seq<char>,
    r: Result<(), TableError>,
    used0: Seq<bool>,
    before: Seq<bool>,
    after: Seq<bool>,
    t: Seq<char>,
)
    requires
        0 <= i < rs.len(),
        rs[i].tag@ == t,
        rs[i].on_match.next@ == c || rs[i].no_match.next@ == c,
        used0.len() == rs.len(),
        before.len() == rs.len(),
        forall|j: int| 0 <= j < rs.len() && #[trigger] used0[j] ==> before[j],
        forall|j: int|
            0 <= j < rs.len() && #[trigger] before[j] ==> used0[j] || reaches_from(rs, t, j),
        after.len() == rs.len(),
        forall|j: int| 0 <= j < rs.len() && #[trigger] before[j] ==> after[j],
        c == end_tag() ==> after == before && r is Ok,
        c != end_tag() ==> forall|j: int|
            0 <= j < rs.len() && #[trigger] after[j] ==> before[j] || reaches_from(rs, c, j),
        c != end_tag() ==> (r matches Err(e) ==> match e {
            TableError::UndefinedTag(u) => !defined(rs, u@) && u@ != end_tag() && (u@ == c
                || exists|w: Seq<int>|
                #[trigger] is_path(rs, w, c) && (rs[w.last()].on_match.next@ == u@
                    || rs[w.last()].no_match.next@ == u@)),
            _ => true,
        }),
    ensures
        forall|j: int| 0 <= j < rs.len() && #[trigger] used0[j] ==> after[j],
        forall|j: int|
            0 <= j < rs.len() && #[trigger] after[j] ==> used0[j] || reaches_from(rs, t, j),
        r matches Err(TableError::UndefinedTag(u)) ==> (u@ == t || exists|w: Seq<int>|
            #[trigger] is_path(rs, w, t) && (rs[w.last()].on_match.next@ == u@
                || rs[w.last()].no_match.next@ == u@)),
{
    let single = seq![i];
    assert(is_path(rs, single, t));
    assert forall|j: int| 0 <= j < rs.len() && #[trigger] used0[j] implies after[j] by {
        assert(before[j]);
    }
    assert forall|j: int| 0 <= j < rs.len() && #[trigger] after[j] implies used0[j] || reaches_from(
        rs,
        t,
        j,
    ) by {
        if !before[j] {
            let w = choose|w: Seq<int>| #[trigger] is_path(rs, w, c) && w.last() == j;
            lemma_prepend(rs, i, w, c);
        }
    }
    if r is Err && c != end_tag() {
        if let Err(TableError::UndefinedTag(u)) = r {
            if u@ == c {
                assert(single.last() == i);
            } else {
                let w = choose|w: Seq<int>|
                    #[trigger] is_path(rs, w, c) && (rs[w.last()].on_match.next@ == u@
                        || rs[w.last()].no_match.next@ == u@);
                lemma_prepend(rs, i, w, c);
            }
        }
    }
}

/// The labels that a sequence of strings holds.
pub open spec fn label_set(v: Seq<String>) -> Set<Seq<char>> {
    Set::new(|u: Seq<char>| exists|k: int| 0 <= k < v.len() && #[trigger] v[k]@ == u)
}

/// Action `k` of branch `b` sends to `u`.
pub open spec fn branch_sends(b: Branch, u: Seq<char>) -> bool {
    exists|k: int| 0 <= k < b.actions@.len() && #[trigger] b.actions@[k].upstream() == Some(u)
}

/// The upstreams that the actions of the rules send to.
pub open spec fn upstreams_of(rs: Seq<Rule>) -> Set<Seq<char>> {
    Set::new(
        |u: Seq<char>|
            exists|i: int|
                0 <= i < rs.len() && (branch_sends(#[trigger] rs[i].on_match, u) || branch_sends(
                    rs[i].no_match,
                    u,
                )),
    )
}

/// An error of traversal rules out a sound graph.
proof fn lemma_error_unsound(rs: Seq<Rule>, e: TableError)
    requires
        match e {
            TableError::UndefinedTag(u) => undefined_ref(rs, u@),
            TableError::RuleRecursion(u) => on_reachable_cycle(rs, u@),
            _ => false,
        },
    ensures
        !sound_graph(rs),
{
    match e {
        TableError::UndefinedTag(u) => {
            if u@ != start_tag() {
                let w = choose|w: Seq<int>|
                    #[trigger] is_walk(rs, w) && (rs[w.last()].on_match.next@ == u@
                        || rs[w.last()].no_match.next@ == u@);
                assert(!sound_walk(rs, w));
            }
        },
        TableError::RuleRecursion(u) => {
            let (w, k) = choose|w: Seq<int>, k: int|
                #![trigger is_walk(rs, w), w[k]]
                is_walk(rs, w) && 0 <= k < w.len() - 1 && w[k] == w.last() && rs[w.last()].tag@ == u@;
            assert(w[k] == w[w.len() - 1]);
            assert(!w.no_duplicates());
            assert(!sound_walk(rs, w));
        },
        _ => {},
    }
}

/// Adds `s` to `v` unless `v` holds it already.
fn push_unique(v: &mut Vec<String>, s: &String)
    ensures
        label_set(final(v)@) == label_set(old(v)@).insert(s@),
{
    let mut k: usize = 0;
    while k < v.len()
        invariant
            k <= v@.len(),
            forall|j: int| 0 <= j < k ==> v@[j]@ != s@,
        decreases v@.len() - k,
    {
        if v[k] == *s {
            assert(label_set(v@) =~= label_set(v@).insert(s@));
            return;
        }
        k = k + 1;
    }
    let ghost before = v@;
    v.push(s.clone());
    assert forall|u: Seq<char>| label_set(v@).contains(u) <==> label_set(before).insert(s@).contains(
        u,
    ) by {
        if label_set(v@).contains(u) && u != s@ {
            let j = choose|j: int| 0 <= j < v@.len() && #[trigger] v@[j]@ == u;
            assert(before[j]@ == u);
        }
        if label_set(before).contains(u) {
            let j = choose|j: int| 0 <= j < before.len() && #[trigger] before[j]@ == u;
            assert(v@[j]@ == u);
        }
        if u == s@ {
            assert(v@[before.len() as int]@ == u);
        }
    }
    assert(label_set(v@) =~= label_set(before).insert(s@));
}

/// Adds the upstreams that the actions of `b` send to.
fn collect_branch(b: &Branch, v: &mut Vec<String>)
    ensures
        label_set(final(v)@) == label_set(old(v)@).union(Set::new(|u: Seq<char>| branch_sends(*b, u))),
{
    let mut k: usize = 0;
    while k < b.actions.len()
        invariant
            k <= b.actions@.len(),
            label_set(v@) == label_set(old(v)@).union(
                Set::new(
                    |u: Seq<char>|
                        exists|j: int| 0 <= j < k && #[trigger] b.actions@[j].upstream() == Some(u),
                ),
            ),
        decreases b.actions@.len() - k,
    {
        let ghost before = label_set(v@);
        match &b.actions[k] {
            Action::Query(u, _) => {
                push_unique(v, u);
            },
            _ => {},
        }
        k = k + 1;
        assert(label_set(v@) =~= label_set(old(v)@).union(
            Set::new(
                |u: Seq<char>|
                    exists|j: int| 0 <= j < k && #[trigger] b.actions@[j].upstream() == Some(u),
            ),
        )) by {
            assert forall|u: Seq<char>|
                (exists|j: int| 0 <= j < k && #[trigger] b.actions@[j].upstream() == Some(u)) implies (
            exists|j: int| 0 <= j < k - 1 && #[trigger] b.actions@[j].upstream() == Some(u)) || b.actions@[k
                - 1].upstream() == Some(u) by {
                let j = choose|j: int| 0 <= j < k && #[trigger] b.actions@[j].upstream() == Some(u);
                if j < k - 1 {
                    assert(b.actions@[j].upstream() == Some(u));
                }
            }
        }
    }
    assert(Set::new(
        |u: Seq<char>| exists|j: int| 0 <= j < k && #[trigger] b.actions@[j].upstream() == Some(u),
    ) =~= Set::new(|u: Seq<char>| branch_sends(*b, u)));
}

/// One rule that a route passes, and whether its matcher held.
#[derive(Clone, Copy, Debug, PartialEq, Eq)]
pub struct Hop {
    pub rule: usize,
    pub matched: bool,
}

/// The tag that a hop goes on to.
pub open spec fn taken_next(rs: Seq<Rule>, h: Hop) -> Seq<char> {
    if h.matched {
        rs[h.rule as int].on_match.next@
    } else {
        rs[h.rule as int].no_match.next@
    }
}

/// `r` is the route of a query with name `name` and type `qtype` from `client`:
/// it starts at
/// the rule tagged `start`, takes at each rule the branch that its matcher
/// chooses, goes on to the rule that the branch names, and stops where a branch
/// names `end`.
pub open spec fn is_route(rs: Seq<Rule>, name: Seq<Seq<u8>>, qtype: u16, client: Option<IpAddr>, r: Seq<Hop>) -> bool {
    &&& r.len() >= 1
    &&& forall|k: int|
        0 <= k < r.len() ==> (#[trigger] r[k]).rule < rs.len() && r[k].matched == rs[r[k].rule as int].matcher.holds(
            name,
            qtype,
            client,
        )
    &&& rs[r[0].rule as int].tag@ == start_tag()
    &&& forall|k: int|
        0 <= k < r.len() - 1 ==> taken_next(rs, #[trigger] r[k]) != end_tag() && rs[r[k
            + 1].rule as int].tag@ == taken_next(rs, r[k])
    &&& taken_next(rs, r.last()) == end_tag()
}

/// The rules that a route passes, as a walk.
pub open spec fn hop_rules(r: Seq<Hop>) -> Seq<int> {
    r.map_values(|h: Hop| h.rule as int)
}

proof fn lemma_route_is_walk(rs: Seq<Rule>, name: Seq<Seq<u8>>, qtype: u16, client: Option<IpAddr>, r: Seq<Hop>)
    requires
        is_route(rs, name, qtype, client, r),
    ensures
        is_walk(rs, hop_rules(r)),
{
    let w = hop_rules(r);
    assert forall|k: int| 0 <= k < w.len() implies 0 <= #[trigger] w[k] < rs.len() by {
        assert(r[k].rule < rs.len());
    }
    assert forall|k: int| 0 <= k < w.len() - 1 implies steps_to(rs, #[trigger] w[k], w[k + 1]) by {
        assert(taken_next(rs, r[k]) != end_tag());
    }
}

/// Of a table that validation accepts, every route passes at most as many rules
/// as the table has.
pub proof fn lemma_route_bounded(t: &Table, name: Seq<Seq<u8>>, qtype: u16, client: Option<IpAddr>, r: Seq<Hop>)
    requires
        t.wf(),
        is_route(t@, name, qtype, client, r),
    ensures
        r.len() <= t@.len(),
{
    lemma_route_is_walk(t@, name, qtype, client, r);
    let w = hop_rules(r);
    assert(sound_walk(t@, w));
    lemma_distinct_bounded(w, t@.len() as int);
}

/// A table that validation accepts has distinct tags.
pub proof fn lemma_table_tags_distinct(t: &Table)
    requires
        t.wf(),
    ensures
        tags_distinct(t@),
{
}

/// Of a table that validation accepts, a query has one route: routing the
/// same query twice gives the same hops.
pub proof fn lemma_table_route_deterministic(
    t: &Table,
    name: Seq<Seq<u8>>,
    qtype: u16,
    client: Option<IpAddr>,
    r1: Seq<Hop>,
    r2: Seq<Hop>,
)
    requires
        t.wf(),
        is_route(t@, name, qtype, client, r1),
        is_route(t@, name, qtype, client, r2),
    ensures
        r1 == r2,
{
    lemma_route_deterministic(t@, name, qtype, client, r1, r2);
}

/// A query has one route through a table with distinct tags: routing the same
/// query twice gives the same hops.
pub proof fn lemma_route_deterministic(
    rs: Seq<Rule>,
    name: Seq<Seq<u8>>,
    qtype: u16,
    client: Option<IpAddr>,
    r1: Seq<Hop>,
    r2: Seq<Hop>,
)
    requires
        tags_distinct(rs),
        is_route(rs, name, qtype, client, r1),
        is_route(rs, name, qtype, client, r2),
    ensures
        r1 == r2,
{
    lemma_routes_agree(rs, name, qtype, client, r1, r2);
    if r1.len() < r2.len() {
        let k = r1.len() - 1;
        assert(r1[k] == r2[k]);
        assert(taken_next(rs, r2[k]) != end_tag());
    } else if r2.len() < r1.len() {
        let k = r2.len() - 1;
        assert(r1[k] == r2[k]);
        assert(taken_next(rs, r1[k]) != end_tag());
    }
    assert(r1 =~= r2);
}

proof fn lemma_same_tag_same_rule(rs: Seq<Rule>, a: int, b: int)
    requires
        tags_distinct(rs),
        0 <= a < rs.len(),
        0 <= b < rs.len(),
        rs[a].tag@ == rs[b].tag@,
    ensures
        a == b,
{
    if a < b {
        assert(rs[a].tag@ != rs[b].tag@);
    } else if b < a {
        assert(rs[b].tag@ != rs[a].tag@);
    }
}

/// Two routes of one query agree on every hop that both have.
proof fn lemma_routes_agree(
    rs: Seq<Rule>,
    name: Seq<Seq<u8>>,
    qtype: u16,
    client: Option<IpAddr>,
    r1: Seq<Hop>,
    r2: Seq<Hop>,
)
    requires
        tags_distinct(rs),
        is_route(rs, name, qtype, client, r1),
        is_route(rs, name, qtype, client, r2),
    ensures
        forall|j: int| 0 <= j < r1.len() && j < r2.len() ==> r1[j] == r2[j],
{
    assert forall|j: int| 0 <= j < r1.len() && j < r2.len() implies r1[j] == r2[j] by {
        lemma_hop_agree(rs, name, qtype, client, r1, r2, j);
    }
}

proof fn lemma_hop_agree(
    rs: Seq<Rule>,
    name: Seq<Seq<u8>>,
    qtype: u16,
    client: Option<IpAddr>,
    r1: Seq<Hop>,
    r2: Seq<Hop>,
    j: int,
)
    requires
        tags_distinct(rs),
        is_route(rs, name, qtype, client, r1),
        is_route(rs, name, qtype, client, r2),
        0 <= j < r1.len(),
        j < r2.len(),
    ensures
        r1[j] == r2[j],
    decreases j,
{
    assert(r1[j].rule < rs.len() && r2[j].rule < rs.len());
    if j == 0 {
        lemma_same_tag_same_rule(rs, r1[0].rule as int, r2[0].rule as int);
    } else {
        lemma_hop_agree(rs, name, qtype, client, r1, r2, j - 1);
        assert(rs[r1[j].rule as int].tag@ == taken_next(rs, r1[j - 1]));
        assert(rs[r2[j].rule as int].tag@ == taken_next(rs, r2[j - 1]));
        lemma_same_tag_same_rule(rs, r1[j].rule as int, r2[j].rule as int);
    }
}

/// What carrying out a route does at one action.
#[derive(Debug, PartialEq, Eq)]
pub enum Step {
    /// Send the query to the named upstream under this cache mode.
    Query(String, CacheMode),
    /// Answer with an empty response.
    Blackhole,
    /// Answer with one record for this address.
    Answer(IpAddr),
}

/// A step as plain values.
pub enum StepView {
    Query(Seq<char>, CacheMode),
    Blackhole,
    Answer(IpAddr),
}

pub open spec fn step_view(s: Step) -> StepView {
    match s {
        Step::Query(u, m) => StepView::Query(u@, m),
        Step::Blackhole => StepView::Blackhole,
        Step::Answer(ip) => StepView::Answer(ip),
    }
}

pub open spec fn steps_view(v: Seq<Step>) -> Seq<StepView> {
    v.map_values(|s: Step| step_view(s))
}

/// The actions of the branches that a route takes, in order.
pub open spec fn route_actions(rs: Seq<Rule>, r: Seq<Hop>) -> Seq<Action>
    decreases r.len(),
{
    if r.len() == 0 {
        Seq::empty()
    } else {
        let h = r.last();
        let b = if h.matched {
            rs[h.rule as int].on_match
        } else {
            rs[h.rule as int].no_match
        };
        route_actions(rs, r.drop_last()) + b.actions@
    }
}

/// The cache mode in force after `acts`, starting from `init`.
pub open spec fn mode_after(acts: Seq<Action>, init: CacheMode) -> CacheMode
    decreases acts.len(),
{
    if acts.len() == 0 {
        init
    } else {
        match acts.last() {
            Action::SetCacheMode(m) => m,
            _ => mode_after(acts.drop_last(), init),
        }
    }
}

/// The steps of `acts`, starting from cache mode `init`.
pub open spec fn steps_of(acts: Seq<Action>, init: CacheMode) -> Seq<StepView>
    decreases acts.len(),
{
    if acts.len() == 0 {
        Seq::empty()
    } else {
        let prev = steps_of(acts.drop_last(), init);
        let mode = mode_after(acts.drop_last(), init);
        match acts.last() {
            Action::Query(u, own) => prev.push(
                StepView::Query(
                    u@,
                    match own {
                        Some(m) => m,
                        None => mode,
                    },
                ),
            ),
            Action::Blackhole => prev.push(StepView::Blackhole),
            Action::FastAnswerA(a, b, c, d) => prev.push(StepView::Answer(IpAddr::V4([a, b, c, d]))),
            Action::FastAnswerIp(ip) => prev.push(StepView::Answer(ip)),
            Action::SetCacheMode(_) => prev,
        }
    }
}

/// A validated routing table.
pub struct Table {
    rules: Vec<Rule>,
    used_upstreams: Vec<String>,
}

impl Table {
    pub closed spec fn view(&self) -> Seq<Rule> {
        self.rules@
    }

    /// The table's rules have distinct tags, every route from `start` ends
    /// without repeating a rule, every rule lies on such a route, and the
    /// upstreams in use are those that the rules' actions send to.
    pub closed spec fn wf(&self) -> bool {
        let rs = self.rules@;
        &&& tags_distinct(rs)
        &&& sound_graph(rs)
        &&& all_reachable(rs)
        &&& forall|i: int| 0 <= i < rs.len() ==> (#[trigger] rs[i]).matcher.wf()
        &&& label_set(self.used_upstreams@) == upstreams_of(rs)
    }

    /// Builds a table, validating it.
    pub fn new(rules: Vec<Rule>) -> (r: Result<Table, TableError>)
        requires
            forall|i: int| 0 <= i < rules@.len() ==> (#[trigger] rules@[i]).matcher.wf(),
        ensures
            (r matches Err(TableError::MultipleDef(_))) <==> !tags_distinct(rules@),
            r matches Err(TableError::MultipleDef(t)) ==> exists|i: int|
                0 <= i < rules@.len() && #[trigger] dup_at(rules@, i) && rules@[i].tag@ == t@ && forall|
                    h: int,
                | 0 <= h < i ==> !dup_at(rules@, h),
            tags_distinct(rules@) ==> ((r is Ok) <==> (sound_graph(rules@) && all_reachable(
                rules@,
            ))),
            r matches Ok(tb) ==> tb.wf() && tb@ == rules@,
            r matches Err(TableError::UndefinedTag(u)) ==> undefined_ref(rules@, u@),
            r matches Err(TableError::RuleRecursion(u)) ==> on_reachable_cycle(rules@, u@),
            (r matches Err(TableError::UnusedRules(_))) <==> (tags_distinct(rules@) && sound_graph(
                rules@,
            ) && !all_reachable(rules@)),
            r matches Err(TableError::UnusedRules(v)) ==> label_set(v@) == unreachable_tags(rules@),
            // A table whose every branch goes on to a defined tag or to `end`,
            // and in which a route comes back to a rule, is refused for recursion.
            tags_distinct(rules@) && defined(rules@, start_tag()) && (forall|i: int|
                0 <= i < rules@.len() ==> next_ok(rules@, #[trigger] rules@[i].on_match.next@)
                    && next_ok(rules@, rules@[i].no_match.next@)) && (exists|t: Seq<char>|
                on_reachable_cycle(rules@, t)) ==> r matches Err(TableError::RuleRecursion(_)),
    {
        let ghost rs = rules@;
        let n = rules.len();
        let mut i: usize = 0;
        while i < n
            invariant
                n == rules@.len(),
                rs == rules@,
                i <= n,
                forall|a: int, b: int| 0 <= a < b < i ==> rs[a].tag@ != rs[b].tag@,
            decreases n - i,
        {
            let mut j: usize = 0;
            while j < i
                invariant
                    n == rules@.len(),
                    rs == rules@,
                    j <= i < n,
                    forall|a: int| 0 <= a < j ==> rs[a].tag@ != rs[i as int].tag@,
                    forall|a: int, b: int| 0 <= a < b < i ==> rs[a].tag@ != rs[b].tag@,
                decreases i - j,
            {
                if rules[j].tag == rules[i].tag {
                    proof {
                        assert(dup_at(rs, i as int));
                        assert forall|h: int| 0 <= h < i implies !dup_at(rs, h) by {
                            if dup_at(rs, h) {
                                let a = choose|a: int| 0 <= a < h && rs[a].tag@ == rs[h].tag@;
                                assert(rs[a].tag@ != rs[h].tag@);
                            }
                        }
                    }
                    return Err(TableError::MultipleDef(rules[i].tag.clone()));
                }
                j = j + 1;
            }
            i = i + 1;
        }
        assert(tags_distinct(rs));
        let mut on_stack: Vec<bool> = Vec::new();
        let mut used: Vec<bool> = Vec::new();
        let mut k: usize = 0;
        while k < n
            invariant
                k <= n,
                n == rules@.len(),
                on_stack@.len() == k,
                used@.len() == k,
                forall|j: int| 0 <= j < k ==> !on_stack@[j] && !used@[j],
            decreases n - k,
        {
            on_stack.push(false);
            used.push(false);
            k = k + 1;
        }
        let start = start_label();
        let ghost root = start_tag();
        let res = traverse(&rules, &mut on_stack, &mut used, &start, Ghost(Seq::empty()), Ghost(root));
        match res {
            Err(e) => {
                proof {
                    match &e {
                        TableError::UndefinedTag(u) => {
                            if u@ != start_tag() {
                                let w = choose|w: Seq<int>|
                                    #[trigger] is_path(rs, w, start_tag()) && (rs[w.last()].on_match.next@
                                        == u@ || rs[w.last()].no_match.next@ == u@);
                                lemma_walk_is_path(rs, w);
                            }
                        },
                        TableError::RuleRecursion(u) => {
                            let (w, k) = choose|w: Seq<int>, k: int|
                                #![trigger is_path(rs, w, root), w[k]]
                                is_path(rs, w, root) && 0 <= k < w.len() - 1 && w[k] == w.last()
                                    && rs[w.last()].tag@ == u@;
                            lemma_walk_is_path(rs, w);
                            assert(is_walk(rs, w));
                        },
                        _ => {},
                    }
                    lemma_error_unsound(rs, e);
                    if tags_distinct(rs) && defined(rs, start_tag()) && (forall|i: int|
                        0 <= i < rs.len() ==> next_ok(rs, #[trigger] rs[i].on_match.next@) && next_ok(
                            rs,
                            rs[i].no_match.next@,
                        )) {
                        if e is UndefinedTag {
                            let u = e->UndefinedTag_0;
                            if u@ != start_tag() {
                                let w = choose|w: Seq<int>|
                                    #[trigger] is_walk(rs, w) && (rs[w.last()].on_match.next@ == u@
                                        || rs[w.last()].no_match.next@ == u@);
                                assert(next_ok(rs, rs[w.last()].on_match.next@));
                            }
                        }
                    }
                }
                return Err(e);
            },
            Ok(()) => {},
        }
        proof {
            assert forall|w: Seq<int>| #[trigger] is_walk(rs, w) implies sound_walk(rs, w) && forall|
                k: int,
            | 0 <= k < w.len() ==> used@[#[trigger] w[k]] by {
                lemma_walk_is_path(rs, w);
                assert(w.take(0) =~= Seq::<int>::empty());
            }
            assert(sound_graph(rs));
            assert forall|j: int| 0 <= j < n implies (#[trigger] used@[j] <==> reachable(rs, j)) by {
                if used@[j] {
                    let w = choose|w: Seq<int>| #[trigger] is_path(rs, w, start_tag()) && w.last() == j;
                    lemma_walk_is_path(rs, w);
                }
                if reachable(rs, j) {
                    let w = choose|w: Seq<int>| #[trigger] is_walk(rs, w) && w.last() == j;
                    assert(used@[w[w.len() - 1]]);
                }
            }
        }
        let mut unused: Vec<String> = Vec::new();
        let mut k: usize = 0;
        while k < n
            invariant
                k <= n,
                n == rules@.len(),
                rs == rules@,
                used@.len() == n,
                forall|j: int| 0 <= j < n ==> (#[trigger] used@[j] <==> reachable(rs, j)),
                forall|t: Seq<char>|
                    label_set(unused@).contains(t) <==> exists|j: int|
                        0 <= j < k && rs[j].tag@ == t && !reachable(rs, j),
            decreases n - k,
        {
            if !used[k] {
                let ghost before = unused@;
                unused.push(rules[k].tag.clone());
                proof {
                    assert forall|t: Seq<char>|
                        label_set(unused@).contains(t) <==> exists|j: int|
                            0 <= j < k + 1 && rs[j].tag@ == t && !reachable(rs, j) by {
                        if label_set(unused@).contains(t) {
                            let q = choose|q: int| 0 <= q < unused@.len() && #[trigger] unused@[q]@ == t;
                            if q < before.len() {
                                assert(before[q]@ == t);
                                assert(label_set(before).contains(t));
                            }
                        }
                        if exists|j: int| 0 <= j < k + 1 && rs[j].tag@ == t && !reachable(rs, j) {
                            let j = choose|j: int| 0 <= j < k + 1 && rs[j].tag@ == t && !reachable(rs, j);
                            if j < k {
                                assert(label_set(before).contains(t));
                                let q = choose|q: int| 0 <= q < before.len() && #[trigger] before[q]@ == t;
                                assert(unused@[q]@ == t);
                            } else {
                                assert(unused@[before.len() as int]@ == t);
                            }
                        }
                    }
                }
            } else {
                proof {
                    assert forall|t: Seq<char>|
                        label_set(unused@).contains(t) <==> exists|j: int|
                            0 <= j < k + 1 && rs[j].tag@ == t && !reachable(rs, j) by {
                        if exists|j: int| 0 <= j < k + 1 && rs[j].tag@ == t && !reachable(rs, j) {
                            let j = choose|j: int| 0 <= j < k + 1 && rs[j].tag@ == t && !reachable(rs, j);
                            assert(j != k);
                        }
                    }
                }
            }
            k = k + 1;
        }
        if unused.len() > 0 {
            proof {
                assert(label_set(unused@) =~= unreachable_tags(rs));
                assert(label_set(unused@).contains(unused@[0]@));
            }
            return Err(TableError::UnusedRules(unused));
        }
        proof {
            assert forall|j: int| 0 <= j < n implies reachable(rs, j) by {
                if !reachable(rs, j) {
                    assert(label_set(unused@).contains(rs[j].tag@));
                    let q = choose|q: int| 0 <= q < unused@.len() && #[trigger] unused@[q]@ == rs[j].tag@;
                }
            }
        }
        let mut ups: Vec<String> = Vec::new();
        let mut k: usize = 0;
        while k < n
            invariant
                k <= n,
                n == rules@.len(),
                rs == rules@,
                label_set(ups@) == Set::new(
                    |u: Seq<char>|
                        exists|i: int|
                            0 <= i < k && (branch_sends(#[trigger] rs[i].on_match, u) || branch_sends(
                                rs[i].no_match,
                                u,
                            )),
                ),
            decreases n - k,
        {
            let ghost before = label_set(ups@);
            collect_branch(&rules[k].on_match, &mut ups);
            collect_branch(&rules[k].no_match, &mut ups);
            proof {
                let ghost kk = k as int;
                assert forall|u: Seq<char>|
                    label_set(ups@).contains(u) <==> (exists|i: int|
                        0 <= i < kk + 1 && (branch_sends(#[trigger] rs[i].on_match, u) || branch_sends(
                            rs[i].no_match,
                            u,
                        ))) by {
                    if label_set(ups@).contains(u) {
                        if !before.contains(u) {
                            assert(branch_sends(rs[kk].on_match, u) || branch_sends(rs[kk].no_match, u));
                        }
                    }
                    if exists|i: int|
                        0 <= i < kk + 1 && (branch_sends(#[trigger] rs[i].on_match, u) || branch_sends(
                            rs[i].no_match,
                            u,
                        )) {
                        let i = choose|i: int|
                            0 <= i < kk + 1 && (branch_sends(#[trigger] rs[i].on_match, u)
                                || branch_sends(rs[i].no_match, u));
                        if i < kk {
                            assert(before.contains(u));
                        } else {
                            assert(Set::new(|u: Seq<char>| branch_sends(rs[kk].on_match, u)).contains(u)
                                || Set::new(|u: Seq<char>| branch_sends(rs[kk].no_match, u)).contains(u));
                        }
                    }
                }
            }
            k = k + 1;
            assert(label_set(ups@) =~= Set::new(
                |u: Seq<char>|
                    exists|i: int|
                        0 <= i < k && (branch_sends(#[trigger] rs[i].on_match, u) || branch_sends(
                            rs[i].no_match,
                            u,
                        )),
            ));
        }
        assert(label_set(ups@) =~= upstreams_of(rs));
        Ok(Table { rules, used_upstreams: ups })
    }

    /// The route of a query: the rules it passes, and the branch taken at each.
    ///
    /// The actions of those branches, in order, are what routing the query does.
    pub fn route(&self, q: &QueryInfo) -> (r: Vec<Hop>)
        requires
            self.wf(),
        ensures
            is_route(self@, key_view(q.name@), q.qtype, q.client(), r@),
            hop_rules(r@).no_duplicates(),
            r@.len() <= self@.len(),
    {
        let ghost rs = self.rules@;
        let ghost name = key_view(q.name@);
        let n = self.rules.len();
        let start = start_label();
        let end = end_label();
        let first = find_rule(&self.rules, &start);
        let mut cur: usize = match first {
            Some(i) => i,
            None => {
                // A valid table defines `start`.
                assert(false);
                0
            },
        };
        let mut hops: Vec<Hop> = Vec::new();
        let mut done = false;
        proof {
            let w = seq![cur as int];
            assert(is_walk(rs, w));
            assert(sound_walk(rs, w));
        }
        while !done
            invariant
                self.wf(),
                rs == self.rules@,
                n == rs.len(),
                end@ == end_tag(),
                name == key_view(q.name@),
                cur < n,
                !done ==> is_walk(rs, hop_rules(hops@).push(cur as int)),
                !done && hops@.len() > 0 ==> taken_next(rs, hops@.last()) != end_tag() && rs[cur as int].tag@
                    == taken_next(rs, hops@.last()),
                !done && hops@.len() == 0 ==> rs[cur as int].tag@ == start_tag(),
                hops@.len() > 0 ==> rs[hops@[0].rule as int].tag@ == start_tag(),
                done ==> hops@.len() >= 1 && taken_next(rs, hops@.last()) == end_tag(),
                hops@.len() <= n,
                forall|k: int|
                    0 <= k < hops@.len() ==> (#[trigger] hops@[k]).rule < rs.len() && hops@[k].matched
                        == rs[hops@[k].rule as int].matcher.holds(name, q.qtype, q.client()),
                forall|k: int|
                    0 <= k < hops@.len() - 1 ==> taken_next(rs, #[trigger] hops@[k]) != end_tag()
                        && rs[hops@[k + 1].rule as int].tag@ == taken_next(rs, hops@[k]),
            decreases n + 1 - hops@.len() + (if done { 0int } else { 1int }),
        {
            proof {
                let w = hop_rules(hops@).push(cur as int);
                assert(sound_walk(rs, w));
                lemma_distinct_bounded(w, n as int);
                assert(w.last() == cur);
            }
            let rule = &self.rules[cur];
            let m = rule.matcher.matches(q);
            let ghost before = hops@;
            let hop = Hop { rule: cur, matched: m };
            hops.push(hop);
            let next = if m {
                &rule.on_match.next
            } else {
                &rule.no_match.next
            };
            assert(next@ == taken_next(rs, hop));
            proof {
                assert(hop_rules(hops@) =~= hop_rules(before).push(cur as int));
                assert forall|k: int| 0 <= k < hops@.len() - 1 implies taken_next(
                    rs,
                    #[trigger] hops@[k],
                ) != end_tag() && rs[hops@[k + 1].rule as int].tag@ == taken_next(rs, hops@[k]) by {
                    assert(hops@[k] == before[k]);
                    if k < before.len() - 1 {
                        assert(hops@[k + 1] == before[k + 1]);
                    }
                }
            }
            if *next == end {
                done = true;
            } else {
                proof {
                    let w = hop_rules(hops@);
                    assert(sound_walk(rs, w));
                    assert(w.last() == cur);
                    assert(defined(rs, next@));
                }
                match find_rule(&self.rules, next) {
                    Some(j) => {
                        proof {
                            let w = hop_rules(hops@);
                            let w2 = w.push(j as int);
                            assert forall|k: int| 0 <= k < w2.len() implies 0 <= #[trigger] w2[k]
                                < rs.len() by {
                                if k < w.len() {
                                    assert(w2[k] == w[k]);
                                }
                            }
                            assert forall|k: int| 0 <= k < w2.len() - 1 implies steps_to(
                                rs,
                                #[trigger] w2[k],
                                w2[k + 1],
                            ) by {
                                if k < w.len() - 1 {
                                    assert(w2[k] == w[k] && w2[k + 1] == w[k + 1]);
                                } else {
                                    assert(w2[k] == cur);
                                }
                            }
                            assert(w2[0] == w[0]);
                        }
                        cur = j;
                    },
                    None => {
                        // A valid table defines every tag that a route goes on to.
                        assert(false);
                    },
                }
            }
        }
        proof {
            lemma_route_is_walk(rs, name, q.qtype, q.client(), hops@);
            assert(sound_walk(rs, hop_rules(hops@)));
        }
        hops
    }

    /// The branch that a hop takes.
    pub fn branch(&self, h: &Hop) -> (r: &Branch)
        requires
            h.rule < self@.len(),
        ensures
            *r == if h.matched {
                self@[h.rule as int].on_match
            } else {
                self@[h.rule as int].no_match
            },
    {
        if h.matched {
            &self.rules[h.rule].on_match
        } else {
            &self.rules[h.rule].no_match
        }
    }

    /// What the branches of a route do, in order: the upstream queries, each
    /// with the cache mode in force, and the answers.
    pub fn steps(&self, hops: &Vec<Hop>) -> (r: Vec<Step>)
        requires
            forall|k: int| 0 <= k < hops@.len() ==> (#[trigger] hops@[k]).rule < self@.len(),
        ensures
            steps_view(r@) == steps_of(route_actions(self@, hops@), CacheMode::Standard),
    {
        let ghost rs = self.rules@;
        let mut out: Vec<Step> = Vec::new();
        let mut mode = CacheMode::Standard;
        let mut h: usize = 0;
        while h < hops.len()
            invariant
                rs == self.rules@,
                h <= hops@.len(),
                forall|k: int| 0 <= k < hops@.len() ==> (#[trigger] hops@[k]).rule < rs.len(),
                steps_view(out@) == steps_of(route_actions(rs, hops@.take(h as int)), CacheMode::Standard),
                mode == mode_after(route_actions(rs, hops@.take(h as int)), CacheMode::Standard),
            decreases hops@.len() - h,
        {
            let ghost before = route_actions(rs, hops@.take(h as int));
            let acts = &self.branch(&hops[h]).actions;
            let mut k: usize = 0;
            assert(before + acts@.take(0) =~= before);
            while k < acts.len()
                invariant
                    k <= acts@.len(),
                    steps_view(out@) == steps_of(before + acts@.take(k as int), CacheMode::Standard),
                    mode == mode_after(before + acts@.take(k as int), CacheMode::Standard),
                decreases acts@.len() - k,
            {
                let ghost done = before + acts@.take(k as int);
                let ghost next = before + acts@.take(k + 1);
                assert(next.drop_last() =~= done);
                assert(next.last() == acts@[k as int]);
                let ghost out0 = out@;
                match &acts[k] {
                    Action::Query(u, own) => {
                        let m = match own {
                            Some(m) => *m,
                            None => mode,
                        };
                        out.push(Step::Query(u.clone(), m));
                        assert(steps_view(out@) =~= steps_view(out0).push(StepView::Query(u@, m)));
                    },
                    Action::Blackhole => {
                        out.push(Step::Blackhole);
                        assert(steps_view(out@) =~= steps_view(out0).push(StepView::Blackhole));
                    },
                    Action::FastAnswerA(a, b, c, d) => {
                        out.push(Step::Answer(IpAddr::V4([*a, *b, *c, *d])));
                        assert(steps_view(out@) =~= steps_view(out0).push(
                            StepView::Answer(IpAddr::V4([*a, *b, *c, *d])),
                        ));
                    },
                    Action::FastAnswerIp(ip) => {
                        out.push(Step::Answer(*ip));
                        assert(steps_view(out@) =~= steps_view(out0).push(StepView::Answer(*ip)));
                    },
                    Action::SetCacheMode(m) => {
                        mode = *m;
                    },
                }
                k = k + 1;
            }
            proof {
                assert(acts@.take(acts@.len() as int) =~= acts@);
                assert(hops@.take(h + 1).drop_last() =~= hops@.take(h as int));
                assert(hops@.take(h + 1).last() == hops@[h as int]);
            }
            h = h + 1;
        }
        assert(hops@.take(hops@.len() as int) =~= hops@);
        out
    }

    /// The upstreams that the table's actions send to.
    pub fn used_upstreams(&self) -> (r: &Vec<String>)
        requires
            self.wf(),
        ensures
            label_set(r@) == upstreams_of(self@),
    {
        &self.used_upstreams
    }
}

} // verus!
