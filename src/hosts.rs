//! Hosts resolution over a reverse-label trie.
use vstd::prelude::*;
use crate::ip::IpAddr;
use crate::name::{reversed_key, rkey};
use crate::trie::{key_view, LabelTrie};

verus! {

/// What a hosts entry binds.
#[derive(Clone, Copy, Debug, PartialEq, Eq)]
pub enum MatchType {
    /// No binding.
    Unset,
    /// The name and every name below it.
    Subdomain(IpAddr),
    /// The name itself only.
    Server(IpAddr),
}

/// The address of an exact entry for `key`, if there is one.
pub open spec fn exact_ip(m: Map<Seq<Seq<u8>>, MatchType>, key: Seq<Seq<u8>>) -> Option<IpAddr> {
    if m.contains_key(key) && m[key] is Server {
        Some(m[key]->Server_0)
    } else {
        None
    }
}

/// The address of the deepest subdomain entry among the first `k` prefixes of
/// `key` (the prefixes of length `0` to `k - 1`).
pub open spec fn best_subdomain(m: Map<Seq<Seq<u8>>, MatchType>, key: Seq<Seq<u8>>, k: nat) -> Option<
    IpAddr,
>
    decreases k,
{
    if k == 0 {
        None
    } else {
        let p = key.take(k - 1);
        if m.contains_key(p) && m[p] is Subdomain {
            Some(m[p]->Subdomain_0)
        } else {
            best_subdomain(m, key, (k - 1) as nat)
        }
    }
}

/// What a hosts table gives for a key: an exact entry for it, else the deepest
/// subdomain entry on one of its prefixes, the key itself included.
pub open spec fn resolve(m: Map<Seq<Seq<u8>>, MatchType>, key: Seq<Seq<u8>>) -> Option<IpAddr> {
    match exact_ip(m, key) {
        Some(ip) => Some(ip),
        None => best_subdomain(m, key, key.len() + 1),
    }
}

/// The table after one entry for `key`: an entry of `Unset` takes it away.
pub open spec fn with_entry(m: Map<Seq<Seq<u8>>, MatchType>, key: Seq<Seq<u8>>, t: MatchType) -> Map<
    Seq<Seq<u8>>,
    MatchType,
> {
    if t is Unset {
        m.remove(key)
    } else {
        m.insert(key, t)
    }
}

/// Prefixes past the first `d + 1` that hold no entry change no best subdomain.
proof fn lemma_best_subdomain_stops(
    m: Map<Seq<Seq<u8>>, MatchType>,
    key: Seq<Seq<u8>>,
    d: nat,
    k: nat,
)
    requires
        d + 1 <= k <= key.len() + 1,
        forall|j: int| d < j <= key.len() ==> !m.contains_key(#[trigger] key.take(j)),
    ensures
        best_subdomain(m, key, k) == best_subdomain(m, key, d + 1),
    decreases k,
{
    if k > d + 1 {
        assert(!m.contains_key(key.take(k - 1)));
        lemma_best_subdomain_stops(m, key, d, (k - 1) as nat);
    }
}

/// A table whose entries all bind an address.
pub open spec fn all_bound(m: Map<Seq<Seq<u8>>, MatchType>) -> bool {
    forall|k: Seq<Seq<u8>>| #[trigger] m.contains_key(k) ==> !(m[k] is Unset)
}

/// An exact entry for the queried name wins over every subdomain entry above it.
pub proof fn lemma_exact_wins(m: Map<Seq<Seq<u8>>, MatchType>, key: Seq<Seq<u8>>, ip: IpAddr)
    requires
        m.contains_key(key),
        m[key] == MatchType::Server(ip),
    ensures
        resolve(m, key) == Some(ip),
{
}

/// Without an exact entry for the queried name, the deepest subdomain entry on
/// its path wins.
pub proof fn lemma_deepest_subdomain_wins(
    m: Map<Seq<Seq<u8>>, MatchType>,
    key: Seq<Seq<u8>>,
    j: int,
    ip: IpAddr,
)
    requires
        exact_ip(m, key) is None,
        0 <= j <= key.len(),
        m.contains_key(key.take(j)),
        m[key.take(j)] == MatchType::Subdomain(ip),
        forall|i: int|
            j < i <= key.len() && #[trigger] m.contains_key(key.take(i)) ==> !(m[key.take(
                i,
            )] is Subdomain),
    ensures
        resolve(m, key) == Some(ip),
{
    lemma_best_subdomain_from(m, key, j, (key.len() + 1) as nat);
}

proof fn lemma_best_subdomain_from(
    m: Map<Seq<Seq<u8>>, MatchType>,
    key: Seq<Seq<u8>>,
    j: int,
    k: nat,
)
    requires
        0 <= j < k <= key.len() + 1,
        m.contains_key(key.take(j)),
        m[key.take(j)] is Subdomain,
        forall|i: int|
            j < i <= key.len() && #[trigger] m.contains_key(key.take(i)) ==> !(m[key.take(
                i,
            )] is Subdomain),
    ensures
        best_subdomain(m, key, k) == Some(m[key.take(j)]->Subdomain_0),
    decreases k,
{
    if k - 1 > j {
        lemma_best_subdomain_from(m, key, j, (k - 1) as nat);
    }
}

/// Where no name above the queried one holds an exact entry, nothing is found
/// exactly when no entry lies on the queried name's path.
pub proof fn lemma_none_iff_no_entry(m: Map<Seq<Seq<u8>>, MatchType>, key: Seq<Seq<u8>>)
    requires
        all_bound(m),
        forall|i: int| 0 <= i < key.len() && #[trigger] m.contains_key(key.take(i)) ==> !(m[key.take(i)] is Server),
    ensures
        (resolve(m, key) is None) <==> forall|i: int|
            0 <= i <= key.len() ==> !#[trigger] m.contains_key(key.take(i)),
{
    assert(key.take(key.len() as int) =~= key);
    if exact_ip(m, key) is None {
        lemma_best_subdomain_gone(m, key, (key.len() + 1) as nat);
    } else {
        assert(m.contains_key(key.take(key.len() as int)));
    }
}

proof fn lemma_best_subdomain_gone(m: Map<Seq<Seq<u8>>, MatchType>, key: Seq<Seq<u8>>, k: nat)
    requires
        all_bound(m),
        k <= key.len() + 1,
        exact_ip(m, key) is None,
        forall|i: int| 0 <= i < key.len() && #[trigger] m.contains_key(key.take(i)) ==> !(m[key.take(i)] is Server),
    ensures
        (best_subdomain(m, key, k) is None) <==> forall|i: int|
            0 <= i < k ==> !#[trigger] m.contains_key(key.take(i)),
    decreases k,
{
    if k > 0 {
        lemma_best_subdomain_gone(m, key, (k - 1) as nat);
        let p = key.take(k - 1);
        if m.contains_key(p) {
            assert(!(m[p] is Unset));
            if k - 1 == key.len() {
                assert(p =~= key);
            }
        }
    }
}

/// A hosts table.
pub struct Hosts {
    trie: LabelTrie<MatchType>,
}

impl Default for Hosts {
    fn default() -> (r: Self)
        ensures
            r.wf(),
            r@ == Map::<Seq<Seq<u8>>, MatchType>::empty(),
    {
        Hosts::new()
    }
}

impl Hosts {
    /// The entries, keyed by the reversed, lowercased labels of their names.
    pub closed spec fn view(&self) -> Map<Seq<Seq<u8>>, MatchType> {
        self.trie@
    }

    pub closed spec fn wf(&self) -> bool {
        &&& self.trie.wf()
        &&& forall|k: Seq<Seq<u8>>| #[trigger] self.trie@.contains_key(k) ==> !(self.trie@[k] is Unset)
    }

    /// An empty table.
    pub fn new() -> (r: Self)
        ensures
            r.wf(),
            r@ == Map::<Seq<Seq<u8>>, MatchType>::empty(),
    {
        Hosts { trie: LabelTrie::new() }
    }

    /// Binds `domain` as `ip` says; `MatchType::Unset` takes its binding away.
    pub fn insert(&mut self, domain: &Vec<Vec<u8>>, ip: &MatchType)
        requires
            old(self).wf(),
        ensures
            final(self).wf(),
            final(self)@ == with_entry(old(self)@, rkey(key_view(domain@)), *ip),
    {
        let key = reversed_key(domain);
        let v = match ip {
            MatchType::Unset => None,
            _ => Some(*ip),
        };
        self.trie.set(&key, v);
    }

    /// The address bound to `domain`: an exact entry for it wins, else the
    /// deepest subdomain entry among its suffixes.
    pub fn matches(&self, domain: &Vec<Vec<u8>>) -> (r: Option<IpAddr>)
        requires
            self.wf(),
        ensures
            r == resolve(self@, rkey(key_view(domain@))),
    {
        let key = reversed_key(domain);
        let ghost k = key_view(key@);
        let ghost m = self@;
        let mut cur: usize = LabelTrie::<MatchType>::root();
        proof {
            self.trie.lemma_root();
        }
        let mut best: Option<IpAddr> = match self.trie.payload(cur) {
            Some(MatchType::Subdomain(ip)) => Some(ip),
            _ => None,
        };
        assert(k.take(0) =~= Seq::<Seq<u8>>::empty());
        assert(best_subdomain(m, k, 0) == None::<IpAddr>);
        assert(best == best_subdomain(m, k, 1));
        let mut d: usize = 0;
        while d < key.len()
            invariant
                self.wf(),
                m == self@,
                k == key_view(key@),
                k == rkey(key_view(domain@)),
                d <= key@.len(),
                cur < self.trie.len(),
                self.trie.path(cur as int) == k.take(d as int),
                best == best_subdomain(m, k, (d + 1) as nat),
            decreases key@.len() - d,
        {
            match self.trie.child(cur, &key[d]) {
                Some(c) => {
                    assert(k.take(d + 1) =~= k.take(d as int).push(key@[d as int]@));
                    cur = c;
                    match self.trie.payload(c) {
                        Some(MatchType::Subdomain(ip)) => {
                            best = Some(ip);
                        },
                        _ => {},
                    }
                    d = d + 1;
                },
                None => {
                    proof {
                        assert(k.take(d + 1) =~= k.take(d as int).push(key@[d as int]@));
                        assert forall|j: int| d < j <= k.len() implies !m.contains_key(
                            #[trigger] k.take(j),
                        ) by {
                            if m.contains_key(k.take(j)) {
                                self.trie.lemma_contents_have_nodes(k.take(j));
                                let x = choose|x: int|
                                    0 <= x < self.trie.len() && self.trie.path(x) == k.take(j);
                                self.trie.lemma_prefix_closed(x, d + 1);
                                assert(k.take(j).take(d + 1) =~= k.take(d + 1));
                            }
                        }
                        lemma_best_subdomain_stops(m, k, d as nat, k.len() + 1);
                        assert(k.take(k.len() as int) =~= k);
                        assert(!m.contains_key(k.take(k.len() as int)));
                        assert(!m.contains_key(k));
                        assert(exact_ip(m, k) == None::<IpAddr>);
                        assert(resolve(m, k) == best);
                    }
                    return best;
                },
            }
        }
        assert(k.take(d as int) =~= k);
        match self.trie.payload(cur) {
            Some(MatchType::Server(ip)) => Some(ip),
            _ => best,
        }
    }
}

} // verus!
