//! The response cache of an upstream: what to do with a query, and what a
//! response from upstream leaves behind.
use vstd::prelude::*;
use crate::matcher::CacheMode;
use crate::name::{reversed_key, rkey};
use crate::trie::{copy_bytes, key_view, label_eq};

verus! {

/// What a query is cached under: its name, in canonical form, its type and its class.
pub struct CacheKey {
    pub qname: Vec<Vec<u8>>,
    pub qtype: u16,
    pub qclass: u16,
}

impl CacheKey {
    pub open spec fn view(&self) -> (Seq<Seq<u8>>, u16, u16) {
        (key_view(self.qname@), self.qtype, self.qclass)
    }

    /// The key of a query for `qname`: names that differ only in letter case
    /// share it.
    pub fn new(qname: &Vec<Vec<u8>>, qtype: u16, qclass: u16) -> (r: CacheKey)
        ensures
            r@ == (rkey(key_view(qname@)), qtype, qclass),
    {
        CacheKey { qname: reversed_key(qname), qtype, qclass }
    }
}

struct CacheEntry {
    key: CacheKey,
    msg: Vec<u8>,
    deadline: u64,
}

/// What to do with a query.
#[derive(Debug, PartialEq, Eq)]
pub enum Decision {
    /// Answer with this message; nothing goes upstream.
    Serve(Vec<u8>),
    /// Answer with this stale message, and refresh it from upstream.
    Refresh(Vec<u8>),
    /// Send the query upstream.
    Forward,
}

/// A decision as plain values.
pub enum DecisionView {
    Serve(Seq<u8>),
    Refresh(Seq<u8>),
    Forward,
}

impl Decision {
    pub open spec fn view(&self) -> DecisionView {
        match self {
            Decision::Serve(m) => DecisionView::Serve(m@),
            Decision::Refresh(m) => DecisionView::Refresh(m@),
            Decision::Forward => DecisionView::Forward,
        }
    }
}

/// A message with its transaction id set to `id`.
pub open spec fn with_id(m: Seq<u8>, id: u16) -> Seq<u8> {
    if m.len() >= 2 {
        m.update(0, (id / 256) as u8).update(1, (id % 256) as u8)
    } else {
        m
    }
}

/// When a response stored at `now` with time to live `ttl` goes stale.
pub open spec fn deadline(now: u64, ttl: u64, max_ttl: u64) -> u64 {
    let life = if ttl < max_ttl {
        ttl
    } else {
        max_ttl
    };
    if now + life > u64::MAX {
        u64::MAX
    } else {
        (now + life) as u64
    }
}

/// What a query with key `k` and id `id`, arriving at `now`, is given.
pub open spec fn decide(
    m: Map<(Seq<Seq<u8>>, u16, u16), (Seq<u8>, u64)>,
    k: (Seq<Seq<u8>>, u16, u16),
    now: u64,
    mode: CacheMode,
    id: u16,
) -> DecisionView {
    if mode == CacheMode::Disabled || !m.contains_key(k) {
        DecisionView::Forward
    } else if m[k].1 > now {
        DecisionView::Serve(with_id(m[k].0, id))
    } else if mode == CacheMode::Persistent {
        DecisionView::Refresh(with_id(m[k].0, id))
    } else {
        DecisionView::Forward
    }
}

/// The number of upstream calls that a decision makes.
pub open spec fn upstream_calls(d: DecisionView) -> int {
    match d {
        DecisionView::Serve(_) => 0,
        _ => 1,
    }
}

/// Under the standard mode, a query repeated before the stored response goes
/// stale goes to no upstream, and one repeated after goes to one.
pub proof fn lemma_standard_cache(
    m: Map<(Seq<Seq<u8>>, u16, u16), (Seq<u8>, u64)>,
    k: (Seq<Seq<u8>>, u16, u16),
    msg: Seq<u8>,
    ttl: u64,
    max_ttl: u64,
    stored_at: u64,
    now: u64,
    id: u16,
)
    requires
        stored_at <= now,
        stored_at + max_ttl <= u64::MAX,
    ensures
        ({
            let m2 = m.insert(k, (msg, deadline(stored_at, ttl, max_ttl)));
            let life = if ttl < max_ttl {
                ttl
            } else {
                max_ttl
            };
            &&& now < stored_at + life ==> upstream_calls(decide(m2, k, now, CacheMode::Standard, id))
                == 0
            &&& now >= stored_at + life ==> upstream_calls(
                decide(m2, k, now, CacheMode::Standard, id),
            ) == 1
        }),
{
    let m2 = m.insert(k, (msg, deadline(stored_at, ttl, max_ttl)));
    assert(m2.contains_key(k));
    assert(m2[k].1 == deadline(stored_at, ttl, max_ttl));
}

fn set_id(m: &Vec<u8>, id: u16) -> (r: Vec<u8>)
    ensures
        r@ == with_id(m@, id),
{
    let mut r = copy_bytes(m);
    if r.len() >= 2 {
        r.set(0, (id / 256) as u8);
        r.set(1, (id % 256) as u8);
    }
    r
}

fn key_eq(a: &CacheKey, b: &CacheKey) -> (r: bool)
    ensures
        r == (a@ == b@),
{
    if a.qtype != b.qtype || a.qclass != b.qclass || a.qname.len() != b.qname.len() {
        assert(a@.0.len() == a.qname@.len());
        return false;
    }
    let mut i: usize = 0;
    while i < a.qname.len()
        invariant
            a.qname@.len() == b.qname@.len(),
            i <= a.qname@.len(),
            forall|j: int| 0 <= j < i ==> a.qname@[j]@ == b.qname@[j]@,
        decreases a.qname@.len() - i,
    {
        if !label_eq(&a.qname[i], &b.qname[i]) {
            assert(key_view(a.qname@)[i as int] != key_view(b.qname@)[i as int]);
            return false;
        }
        i = i + 1;
    }
    assert(key_view(a.qname@) =~= key_view(b.qname@));
    true
}

fn copy_key(k: &CacheKey) -> (r: CacheKey)
    ensures
        r@ == k@,
{
    let mut qname: Vec<Vec<u8>> = Vec::new();
    let mut i: usize = 0;
    while i < k.qname.len()
        invariant
            i <= k.qname@.len(),
            key_view(qname@) =~= key_view(k.qname@).take(i as int),
        decreases k.qname@.len() - i,
    {
        let ghost before = qname@;
        qname.push(copy_bytes(&k.qname[i]));
        assert(key_view(qname@) =~= key_view(before).push(k.qname@[i as int]@));
        i = i + 1;
    }
    assert(key_view(k.qname@).take(i as int) =~= key_view(k.qname@));
    CacheKey { qname, qtype: k.qtype, qclass: k.qclass }
}

/// Writing entry `i` of a cache under key `k` stores `val` under `k`.
proof fn lemma_replace(
    c0: &Cache,
    c1: &Cache,
    i: int,
    k: (Seq<Seq<u8>>, u16, u16),
    val: (Seq<u8>, u64),
)
    requires
        c0.wf(),
        c1.wf(),
        0 <= i < c1.entries@.len(),
        c0.entries@.len() <= c1.entries@.len() <= c0.entries@.len() + 1,
        c1.entries@[i].key@ == k,
        (c1.entries@[i].msg@, c1.entries@[i].deadline) == val,
        forall|j: int| 0 <= j < c1.entries@.len() && j != i ==> j < c0.entries@.len() && c1.entries@[j] == c0.entries@[j],
        i < c0.entries@.len() ==> c0.entries@[i].key@ == k,
        i >= c0.entries@.len() ==> !c0@.contains_key(k),
    ensures
        c1@ == c0@.insert(k, val),
{
    let m = c0@.insert(k, val);
    c1.lemma_entry(i);
    assert forall|q: (Seq<Seq<u8>>, u16, u16)| #[trigger] m.contains_key(q) implies c1@.contains_key(q) && c1@[q] == m[q] by {
        if q != k {
            let j = choose|j: int| 0 <= j < c0.entries@.len() && (#[trigger] c0.entries@[j]).key@ == q;
            c0.lemma_entry(j);
            assert(j != i);
            assert(c1.entries@[j] == c0.entries@[j]);
            c1.lemma_entry(j);
        }
    }
    assert forall|q: (Seq<Seq<u8>>, u16, u16)| #[trigger] c1@.contains_key(q) implies m.contains_key(q) by {
        if q != k {
            let j = choose|j: int| 0 <= j < c1.entries@.len() && (#[trigger] c1.entries@[j]).key@ == q;
            assert(j != i);
            assert(c1.entries@[j] == c0.entries@[j]);
            c0.lemma_entry(j);
        }
    }
    assert(c1@ =~= m);
}

/// Cached responses, each with the time at which it goes stale.
pub struct Cache {
    entries: Vec<CacheEntry>,
    max_ttl: u64,
}

impl Cache {
    pub closed spec fn view(&self) -> Map<(Seq<Seq<u8>>, u16, u16), (Seq<u8>, u64)> {
        Map::new(
            |k: (Seq<Seq<u8>>, u16, u16)|
                exists|i: int| 0 <= i < self.entries@.len() && (#[trigger] self.entries@[i]).key@ == k,
            |k: (Seq<Seq<u8>>, u16, u16)|
                {
                    let i = choose|i: int|
                        0 <= i < self.entries@.len() && (#[trigger] self.entries@[i]).key@ == k;
                    (self.entries@[i].msg@, self.entries@[i].deadline)
                },
        )
    }

    pub closed spec fn max_ttl(&self) -> u64 {
        self.max_ttl
    }

    pub closed spec fn wf(&self) -> bool {
        forall|i: int, j: int|
            0 <= i < j < self.entries@.len() ==> (#[trigger] self.entries@[i]).key@
                != (#[trigger] self.entries@[j]).key@
    }

    /// An empty cache whose entries live at most `max_ttl` seconds.
    pub fn new(max_ttl: u64) -> (r: Cache)
        ensures
            r.wf(),
            r@ == Map::<(Seq<Seq<u8>>, u16, u16), (Seq<u8>, u64)>::empty(),
            r.max_ttl() == max_ttl,
    {
        let r = Cache { entries: Vec::new(), max_ttl };
        assert(r@ =~= Map::<(Seq<Seq<u8>>, u16, u16), (Seq<u8>, u64)>::empty());
        r
    }

    fn find(&self, k: &CacheKey) -> (r: Option<usize>)
        requires
            self.wf(),
        ensures
            match r {
                Some(i) => i < self.entries@.len() && self.entries@[i as int].key@ == k@,
                None => !self@.contains_key(k@),
            },
    {
        let mut i: usize = 0;
        while i < self.entries.len()
            invariant
                i <= self.entries@.len(),
                forall|j: int| 0 <= j < i ==> self.entries@[j].key@ != k@,
            decreases self.entries@.len() - i,
        {
            if key_eq(&self.entries[i].key, k) {
                return Some(i);
            }
            i = i + 1;
        }
        None
    }

    proof fn lemma_entry(&self, i: int)
        requires
            self.wf(),
            0 <= i < self.entries@.len(),
        ensures
            self@.contains_key(self.entries@[i].key@),
            self@[self.entries@[i].key@] == (self.entries@[i].msg@, self.entries@[i].deadline),
    {
        let k = self.entries@[i].key@;
        assert(self@.contains_key(k));
        let j = choose|j: int| 0 <= j < self.entries@.len() && (#[trigger] self.entries@[j]).key@ == k;
        if j != i {
            if j < i {
                assert(self.entries@[j].key@ != self.entries@[i].key@);
            } else {
                assert(self.entries@[i].key@ != self.entries@[j].key@);
            }
        }
    }

    /// What a query with key `k` and transaction id `id`, arriving at `now`, is given.
    pub fn lookup(&self, k: &CacheKey, now: u64, mode: CacheMode, id: u16) -> (r: Decision)
        requires
            self.wf(),
        ensures
            r@ == decide(self@, k@, now, mode, id),
    {
        if mode == CacheMode::Disabled {
            return Decision::Forward;
        }
        match self.find(k) {
            None => Decision::Forward,
            Some(i) => {
                proof {
                    self.lemma_entry(i as int);
                }
                let e = &self.entries[i];
                if e.deadline > now {
                    Decision::Serve(set_id(&e.msg, id))
                } else if mode == CacheMode::Persistent {
                    Decision::Refresh(set_id(&e.msg, id))
                } else {
                    Decision::Forward
                }
            },
        }
    }

    /// Stores a response from upstream, received at `now` with time to live `ttl`.
    pub fn store(&mut self, k: &CacheKey, msg: &Vec<u8>, ttl: u64, now: u64)
        requires
            old(self).wf(),
        ensures
            final(self).wf(),
            final(self).max_ttl() == old(self).max_ttl(),
            final(self)@ == old(self)@.insert(k@, (msg@, deadline(now, ttl, old(self).max_ttl()))),
    {
        let life = if ttl < self.max_ttl {
            ttl
        } else {
            self.max_ttl
        };
        let dl = now.saturating_add(life);
        assert(dl == deadline(now, ttl, self.max_ttl));
        let entry = CacheEntry { key: copy_key(k), msg: copy_bytes(msg), deadline: dl };
        let ghost old_view = self@;
        match self.find(k) {
            Some(i) => {
                self.entries.set(i, entry);
                proof {
                    assert forall|a: int, b: int|
                        0 <= a < b < self.entries@.len() implies (#[trigger] self.entries@[a]).key@
                        != (#[trigger] self.entries@[b]).key@ by {
                        assert(old(self).entries@[a].key@ != old(self).entries@[b].key@);
                    }
                    lemma_replace(old(self), self, i as int, k@, (msg@, dl));
                }
            },
            None => {
                self.entries.push(entry);
                proof {
                    let n = old(self).entries@.len();
                    assert forall|a: int, b: int|
                        0 <= a < b < self.entries@.len() implies (#[trigger] self.entries@[a]).key@
                        != (#[trigger] self.entries@[b]).key@ by {
                        if b == n {
                            assert(self.entries@[a] == old(self).entries@[a]);
                            if old(self).entries@[a].key@ == k@ {
                                old(self).lemma_entry(a);
                            }
                        } else {
                            assert(old(self).entries@[a].key@ != old(self).entries@[b].key@);
                        }
                    }
                    lemma_replace(old(self), self, n as int, k@, (msg@, dl));
                }
            },
        }
    }
}

} // verus!
