//! Validation of upstream declarations: every upstream in use is declared,
//! and hybrid upstreams fan out without a cycle.
use vstd::prelude::*;
use crate::table::lemma_distinct_bounded;

verus! {

/// A declared upstream: its tag, and for a hybrid one the tags it races.
pub struct UpstreamDecl {
    pub tag: String,
    pub children: Vec<String>,
}

/// Errors of upstream validation.
#[derive(Debug, PartialEq, Eq)]
pub enum UpstreamError {
    /// A tag that is used, or that a hybrid upstream races, and no upstream has.
    UnknownUpstream(String),
    /// A hybrid upstream that reaches itself.
    CyclicUpstream(String),
    /// A tag that two upstreams have.
    MultipleDef(String),
}

pub open spec fn up_distinct(us: Seq<UpstreamDecl>) -> bool {
    forall|i: int, j: int| 0 <= i < j < us.len() ==> us[i].tag@ != us[j].tag@
}

pub open spec fn up_defined(us: Seq<UpstreamDecl>, t: Seq<char>) -> bool {
    exists|i: int| 0 <= i < us.len() && us[i].tag@ == t
}

/// Upstream `i` races upstream `j`.
pub open spec fn races(us: Seq<UpstreamDecl>, i: int, j: int) -> bool {
    exists|k: int| 0 <= k < us[i].children@.len() && #[trigger] us[i].children@[k]@ == us[j].tag@
}

/// A chain of upstreams, each racing the next.
pub open spec fn is_chain(us: Seq<UpstreamDecl>, w: Seq<int>) -> bool {
    &&& w.len() > 0
    &&& forall|k: int| 0 <= k < w.len() ==> 0 <= #[trigger] w[k] < us.len()
    &&& forall|k: int| 0 <= k < w.len() - 1 ==> races(us, #[trigger] w[k], w[k + 1])
}

/// A chain that repeats no upstream and whose last upstream races only
/// declared ones.
pub open spec fn sound_chain(us: Seq<UpstreamDecl>, w: Seq<int>) -> bool {
    &&& w.no_duplicates()
    &&& forall|k: int|
        0 <= k < us[w.last()].children@.len() ==> up_defined(us, #[trigger] us[w.last()].children@[k]@)
}

/// The declarations are valid for the tags in `used`.
pub open spec fn upstreams_valid(us: Seq<UpstreamDecl>, used: Seq<String>) -> bool {
    &&& up_distinct(us)
    &&& forall|k: int| 0 <= k < used.len() ==> up_defined(us, #[trigger] used[k]@)
    &&& forall|w: Seq<int>| #[trigger] is_chain(us, w) ==> sound_chain(us, w)
}

/// `t` is undeclared, and used or raced by the last upstream of a chain.
pub open spec fn unknown_ref(us: Seq<UpstreamDecl>, used: Seq<String>, t: Seq<char>) -> bool {
    &&& !up_defined(us, t)
    &&& ((exists|k: int| 0 <= k < used.len() && #[trigger] used[k]@ == t) || exists|w: Seq<int>, k: int|
        #![trigger is_chain(us, w), us[w.last()].children@[k]]
        is_chain(us, w) && 0 <= k < us[w.last()].children@.len() && us[w.last()].children@[k]@ == t)
}

/// A chain comes back to an upstream tagged `t`.
pub open spec fn on_up_cycle(us: Seq<UpstreamDecl>, t: Seq<char>) -> bool {
    exists|w: Seq<int>, k: int|
        #![trigger is_chain(us, w), w[k]]
        is_chain(us, w) && 0 <= k < w.len() - 1 && w[k] == w.last() && us[w.last()].tag@ == t
}

fn find_upstream(us: &Vec<UpstreamDecl>, t: &String) -> (r: Option<usize>)
    ensures
        match r {
            Some(i) => i < us@.len() && us@[i as int].tag@ == t@,
            None => !up_defined(us@, t@),
        },
{
    let mut i: usize = 0;
    while i < us.len()
        invariant
            i <= us@.len(),
            forall|k: int| 0 <= k < i ==> us@[k].tag@ != t@,
        decreases us@.len() - i,
    {
        if us[i].tag == *t {
            return Some(i);
        }
        i = i + 1;
    }
    None
}

/// Visits upstream `i`, reached by the chain `stack`, and every upstream it
/// races in turn.
///
/// `on_stack` marks the upstreams of `stack`; it is as before on return.
fn visit(
    us: &Vec<UpstreamDecl>,
    on_stack: &mut Vec<bool>,
    i: usize,
    stack: Ghost<Seq<int>>,
) -> (r: Result<(), UpstreamError>)
    requires
        old(on_stack)@.len() == us@.len(),
        up_distinct(us@),
        stack@.no_duplicates(),
        i < us@.len(),
        is_chain(us@, stack@.push(i as int)),
        forall|j: int| 0 <= j < us@.len() ==> (old(on_stack)@[j] <==> stack@.contains(j)),
    ensures
        final(on_stack)@ == old(on_stack)@,
        r is Ok ==> forall|w: Seq<int>|
            #[trigger] is_chain(us@, w) && w.len() > stack@.len() && w.take(stack@.len() as int)
                == stack@ && w[stack@.len() as int] == i ==> sound_chain(us@, w),
        r matches Err(e) ==> match e {
            UpstreamError::UnknownUpstream(t) => unknown_ref(us@, Seq::empty(), t@),
            UpstreamError::CyclicUpstream(t) => on_up_cycle(us@, t@),
            _ => false,
        },
    decreases us@.len() - stack@.len(),
{
    let ghost u = us@;
    let ghost s2 = stack@.push(i as int);
    let ghost n: int = stack@.len() as int;
    if on_stack[i] {
        proof {
            assert(stack@.contains(i as int));
            let k = choose|k: int| 0 <= k < stack@.len() && stack@[k] == i;
            assert(s2[k] == s2.last());
            assert(is_chain(u, s2));
        }
        return Err(UpstreamError::CyclicUpstream(us[i].tag.clone()));
    }
    proof {
        assert(!stack@.contains(i as int));
        assert forall|a: int, b: int| 0 <= a < b < s2.len() implies s2[a] != s2[b] by {
            if b == stack@.len() {
                assert(s2[a] == stack@[a]);
            } else {
                assert(s2[a] == stack@[a] && s2[b] == stack@[b]);
            }
        }
        assert(s2.no_duplicates());
        assert forall|k: int| 0 <= k < s2.len() implies 0 <= #[trigger] s2[k] < u.len() by {
            assert(is_chain(u, s2));
        }
        lemma_distinct_bounded(s2, u.len() as int);
    }
    on_stack.set(i, true);
    proof {
        assert forall|j: int| 0 <= j < u.len() implies (on_stack@[j] <==> s2.contains(j)) by {
            if j == i {
                assert(s2[stack@.len() as int] == j);
            } else if stack@.contains(j) {
                let k = choose|k: int| 0 <= k < stack@.len() && stack@[k] == j;
                assert(s2[k] == j);
            } else if s2.contains(j) {
                let k = choose|k: int| 0 <= k < s2.len() && s2[k] == j;
                assert(stack@[k] == j);
            }
        }
    }
    let ghost marked = on_stack@;
    let children = &us[i].children;
    let mut k: usize = 0;
    while k < children.len()
        invariant
            u == us@,
            *children == u[i as int].children,
            on_stack@ == marked,
            old(on_stack)@.len() == u.len(),
            marked == old(on_stack)@.update(i as int, true),
            !old(on_stack)@[i as int],
            marked.len() == u.len(),
            forall|j: int| 0 <= j < u.len() ==> (marked[j] <==> s2.contains(j)),
            s2 == stack@.push(i as int),
            n == stack@.len(),
            is_chain(u, s2),
            s2.no_duplicates(),
            s2.len() <= u.len(),
            up_distinct(u),
            i < u.len(),
            k <= children@.len(),
            forall|q: int| 0 <= q < k ==> up_defined(u, #[trigger] children@[q]@),
            forall|w: Seq<int>, q: int|
                #![trigger is_chain(u, w), children@[q]]
                0 <= q < k && is_chain(u, w) && w.len() > n + 1 && w.take(n + 1) == s2
                    && children@[q]@ == u[w[n + 1]].tag@ ==> sound_chain(u, w),
        decreases children@.len() - k,
    {
        let c = &children[k];
        let j = match find_upstream(us, c) {
            Some(j) => j,
            None => {
                on_stack.set(i, false);
                proof {
                    assert(on_stack@ =~= old(on_stack)@);
                    assert(s2.last() == i);
                    assert(u[s2.last()].children@[k as int]@ == c@);
                }
                return Err(UpstreamError::UnknownUpstream(c.clone()));
            },
        };
        proof {
            let w2 = s2.push(j as int);
            assert forall|q: int| 0 <= q < w2.len() implies 0 <= #[trigger] w2[q] < u.len() by {
                if q < s2.len() {
                    assert(w2[q] == s2[q]);
                }
            }
            assert forall|q: int| 0 <= q < w2.len() - 1 implies races(u, #[trigger] w2[q], w2[q + 1]) by {
                if q < s2.len() - 1 {
                    assert(w2[q] == s2[q] && w2[q + 1] == s2[q + 1]);
                } else {
                    assert(w2[q] == i);
                    assert(u[i as int].children@[k as int]@ == u[j as int].tag@);
                }
            }
            assert(is_chain(u, w2));
        }
        let r = visit(us, on_stack, j, Ghost(s2));
        if r.is_err() {
            on_stack.set(i, false);
            proof {
                assert(on_stack@ =~= old(on_stack)@);
            }
            return r;
        }
        proof {
            assert forall|w: Seq<int>, q: int|
                #![trigger is_chain(u, w), children@[q]]
                0 <= q < k + 1 && is_chain(u, w) && w.len() > n + 1 && w.take(n + 1) == s2
                    && children@[q]@ == u[w[n + 1]].tag@ implies sound_chain(u, w) by {
                if q == k {
                    assert(0 <= w[n + 1] < u.len());
                    if w[n + 1] != j {
                        if w[n + 1] < j {
                            assert(u[w[n + 1]].tag@ != u[j as int].tag@);
                        } else {
                            assert(u[j as int].tag@ != u[w[n + 1]].tag@);
                        }
                    }
                    assert(w[s2.len() as int] == j);
                }
            }
        }
        k = k + 1;
    }
    on_stack.set(i, false);
    proof {
        assert(on_stack@ =~= old(on_stack)@);
        assert forall|w: Seq<int>|
            #[trigger] is_chain(u, w) && w.len() > n && w.take(n) == stack@ && w[n] == i implies sound_chain(
            u,
            w,
        ) by {
            assert(w.take(n + 1) =~= s2) by {
                assert forall|q: int| 0 <= q < n implies w.take(n + 1)[q] == s2[q] by {
                    assert(w.take(n)[q] == stack@[q]);
                }
            }
            if w.len() == n + 1 {
                assert(w =~= s2);
            } else {
                assert(races(u, w[n], w[n + 1]));
                let q = choose|q: int|
                    0 <= q < u[i as int].children@.len() && #[trigger] u[i as int].children@[q]@
                        == u[w[n + 1]].tag@;
                assert(children@[q]@ == u[w[n + 1]].tag@);
            }
        }
    }
    Ok(())
}

/// Checks the upstream declarations against the tags in `used`.
pub fn validate(us: &Vec<UpstreamDecl>, used: &Vec<String>) -> (r: Result<(), UpstreamError>)
    ensures
        (r is Ok) <==> upstreams_valid(us@, used@),
        (r matches Err(UpstreamError::MultipleDef(_))) <==> !up_distinct(us@),
        r matches Err(UpstreamError::UnknownUpstream(t)) ==> unknown_ref(us@, used@, t@),
        r matches Err(UpstreamError::CyclicUpstream(t)) ==> on_up_cycle(us@, t@),
{
    let ghost u = us@;
    let n = us.len();
    let mut i: usize = 0;
    while i < n
        invariant
            n == us@.len(),
            u == us@,
            i <= n,
            forall|a: int, b: int| 0 <= a < b < i ==> u[a].tag@ != u[b].tag@,
        decreases n - i,
    {
        let mut j: usize = 0;
        while j < i
            invariant
                n == us@.len(),
                u == us@,
                j <= i < n,
                forall|a: int| 0 <= a < j ==> u[a].tag@ != u[i as int].tag@,
                forall|a: int, b: int| 0 <= a < b < i ==> u[a].tag@ != u[b].tag@,
            decreases i - j,
        {
            if us[j].tag == us[i].tag {
                return Err(UpstreamError::MultipleDef(us[i].tag.clone()));
            }
            j = j + 1;
        }
        i = i + 1;
    }
    assert(up_distinct(u));
    let mut k: usize = 0;
    while k < used.len()
        invariant
            k <= used@.len(),
            u == us@,
            up_distinct(u),
            forall|q: int| 0 <= q < k ==> up_defined(u, #[trigger] used@[q]@),
        decreases used@.len() - k,
    {
        if find_upstream(us, &used[k]).is_none() {
            return Err(UpstreamError::UnknownUpstream(used[k].clone()));
        }
        k = k + 1;
    }
    let mut on_stack: Vec<bool> = Vec::new();
    let mut k: usize = 0;
    while k < n
        invariant
            k <= n,
            n == us@.len(),
            on_stack@.len() == k,
            forall|j: int| 0 <= j < k ==> !on_stack@[j],
        decreases n - k,
    {
        on_stack.push(false);
        k = k + 1;
    }
    let mut i: usize = 0;
    while i < n
        invariant
            n == us@.len(),
            u == us@,
            up_distinct(u),
            i <= n,
            on_stack@.len() == n,
            forall|j: int| 0 <= j < n ==> !on_stack@[j],
            forall|w: Seq<int>| #[trigger] is_chain(u, w) && w[0] < i ==> sound_chain(u, w),
        decreases n - i,
    {
        proof {
            let w = seq![i as int];
            assert(is_chain(u, Seq::<int>::empty().push(i as int))) by {
                assert(Seq::<int>::empty().push(i as int) =~= w);
            }
            assert forall|j: int| 0 <= j < n implies (on_stack@[j] <==> Seq::<int>::empty().contains(j)) by {}
        }
        let r = visit(us, &mut on_stack, i, Ghost(Seq::empty()));
        if r.is_err() {
            proof {
                let e = r->Err_0;
                match e {
                    UpstreamError::UnknownUpstream(t) => {
                        let (w, q) = choose|w: Seq<int>, q: int|
                            #![trigger is_chain(u, w), u[w.last()].children@[q]]
                            is_chain(u, w) && 0 <= q < u[w.last()].children@.len()
                                && u[w.last()].children@[q]@ == t@;
                        assert(!sound_chain(u, w));
                    },
                    UpstreamError::CyclicUpstream(t) => {
                        let (w, q) = choose|w: Seq<int>, q: int|
                            #![trigger is_chain(u, w), w[q]]
                            is_chain(u, w) && 0 <= q < w.len() - 1 && w[q] == w.last() && u[w.last()].tag@ == t@;
                        assert(w[q] == w[w.len() - 1]);
                        assert(!w.no_duplicates());
                    },
                    _ => {},
                }
            }
            return r;
        }
        proof {
            assert forall|w: Seq<int>| #[trigger] is_chain(u, w) && w[0] < i + 1 implies sound_chain(u, w) by {
                if w[0] == i {
                    assert(w.take(0) =~= Seq::<int>::empty());
                }
            }
        }
        i = i + 1;
    }
    proof {
        assert forall|w: Seq<int>| #[trigger] is_chain(u, w) implies sound_chain(u, w) by {
            assert(0 <= w[0] < n);
        }
    }
    Ok(())
}

} // verus!
