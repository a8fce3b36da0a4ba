//! A trie over label sequences, its nodes held in one arena vector.
//!
//! A key is a sequence of labels walked from the root; node `0` is the root.
use vstd::prelude::*;

verus! {

/// The labels of an executable key, as byte sequences.
pub open spec fn key_view(k: Seq<Vec<u8>>) -> Seq<Seq<u8>> {
    k.map_values(|l: Vec<u8>| l@)
}

/// A node: its children, each under its label, and the payload of its key.
pub struct TrieNode<T> {
    pub children: Vec<(Vec<u8>, usize)>,
    pub payload: Option<T>,
}

/// Maps label sequences to payloads.
pub struct LabelTrie<T> {
    pub(crate) nodes: Vec<TrieNode<T>>,
    /// The key that leads from the root to each node.
    pub(crate) paths: Ghost<Seq<Seq<Seq<u8>>>>,
    /// For each node but the root: the node and the child slot that point to it.
    pub(crate) parents: Ghost<Seq<(int, int)>>,
    pub(crate) contents: Ghost<Map<Seq<Seq<u8>>, T>>,
}

/// Byte-wise equality of two labels.
pub fn label_eq(a: &Vec<u8>, b: &Vec<u8>) -> (r: bool)
    ensures
        r == (a@ == b@),
{
    if a.len() != b.len() {
        return false;
    }
    let mut i: usize = 0;
    while i < a.len()
        invariant
            a@.len() == b@.len(),
            i <= a@.len(),
            forall|k: int| 0 <= k < i ==> a@[k] == b@[k],
        decreases a@.len() - i,
    {
        if a[i] != b[i] {
            return false;
        }
        i = i + 1;
    }
    assert(a@ =~= b@);
    true
}

/// A copy of a byte vector.
pub fn copy_bytes(a: &Vec<u8>) -> (r: Vec<u8>)
    ensures
        r@ == a@,
{
    let mut r: Vec<u8> = Vec::new();
    let mut i: usize = 0;
    while i < a.len()
        invariant
            i <= a@.len(),
            r@ == a@.take(i as int),
        decreases a@.len() - i,
    {
        r.push(a[i]);
        i = i + 1;
        assert(r@ =~= a@.take(i as int));
    }
    assert(a@.take(a@.len() as int) =~= a@);
    r
}

impl<T: Copy> LabelTrie<T> {
    /// The key of node `i`.
    pub closed spec fn path(&self, i: int) -> Seq<Seq<u8>> {
        self.paths@[i]
    }

    pub closed spec fn len(&self) -> int {
        self.nodes@.len() as int
    }

    /// The keys that hold a payload, and their payloads.
    pub closed spec fn view(&self) -> Map<Seq<Seq<u8>>, T> {
        self.contents@
    }

    pub closed spec fn wf(&self) -> bool {
        let n = self.nodes@;
        let p = self.paths@;
        let m = self.contents@;
        &&& n.len() == p.len()
        &&& n.len() == self.parents@.len()
        &&& n.len() >= 1
        &&& p[0] == Seq::<Seq<u8>>::empty()
        &&& forall|i: int, j: int|
            0 <= i < n.len() && 0 <= j < n[i].children@.len() ==> {
                &&& (#[trigger] n[i].children@[j]).1 < n.len()
                &&& p[n[i].children@[j].1 as int] == p[i].push(n[i].children@[j].0@)
            }
        &&& forall|i: int, j: int|
            0 <= i < n.len() && 0 <= j < n.len() && i != j ==> #[trigger] p[i] != #[trigger] p[j]
        &&& forall|c: int|
            0 < c < n.len() ==> {
                let (i, j) = #[trigger] self.parents@[c];
                &&& 0 <= i < n.len()
                &&& 0 <= j < n[i].children@.len()
                &&& n[i].children@[j].1 == c
            }
        &&& forall|i: int|
            0 <= i < n.len() ==> (#[trigger] n[i]).payload == if m.contains_key(p[i]) {
                Some(m[p[i]])
            } else {
                None
            }
        &&& forall|q: Seq<Seq<u8>>|
            #[trigger] m.contains_key(q) ==> exists|i: int| 0 <= i < n.len() && p[i] == q
    }

    /// Every prefix of a node's key is the key of a node.
    pub proof fn lemma_prefix_closed(&self, x: int, k: int)
        requires
            self.wf(),
            0 <= x < self.len(),
            0 <= k <= self.path(x).len(),
        ensures
            exists|j: int| 0 <= j < self.len() && self.path(j) == self.path(x).take(k),
        decreases self.path(x).len(),
    {
        let p = self.paths@;
        if k == p[x].len() {
            assert(p[x].take(k) =~= p[x]);
        } else {
            let (i, j) = self.parents@[x];
            assert(x != 0);
            let e = self.nodes@[i].children@[j];
            assert(p[x] == p[i].push(e.0@));
            assert(p[x].take(k) =~= p[i].take(k));
            self.lemma_prefix_closed(i, k);
        }
    }

    /// Only keys with a node can hold a payload.
    pub proof fn lemma_contents_have_nodes(&self, q: Seq<Seq<u8>>)
        requires
            self.wf(),
            self@.contains_key(q),
        ensures
            exists|i: int| 0 <= i < self.len() && self.path(i) == q,
    {
        assert(self.contents@.contains_key(q));
        let i = choose|i: int| 0 <= i < self.nodes@.len() && self.paths@[i] == q;
        assert(self.path(i) == q);
    }

    pub fn new() -> (r: Self)
        ensures
            r.wf(),
            r@ == Map::<Seq<Seq<u8>>, T>::empty(),
    {
        let root = TrieNode { children: Vec::new(), payload: None };
        let mut nodes: Vec<TrieNode<T>> = Vec::new();
        nodes.push(root);
        let ghost paths = seq![Seq::<Seq<u8>>::empty()];
        let ghost parents = seq![(0int, 0int)];
        LabelTrie {
            nodes,
            paths: Ghost(paths),
            parents: Ghost(parents),
            contents: Ghost(Map::empty()),
        }
    }

    pub fn root() -> (r: usize)
        ensures
            r == 0,
    {
        0
    }

    pub proof fn lemma_root(&self)
        requires
            self.wf(),
        ensures
            self.len() >= 1,
            self.path(0) == Seq::<Seq<u8>>::empty(),
    {
    }

    /// The child of node `cur` under `label`, if there is one.
    pub fn child(&self, cur: usize, label: &Vec<u8>) -> (r: Option<usize>)
        requires
            self.wf(),
            cur < self.len(),
        ensures
            match r {
                Some(c) => c < self.len() && self.path(c as int) == self.path(cur as int).push(
                    label@,
                ),
                None => forall|c: int|
                    0 <= c < self.len() ==> self.path(c) != self.path(cur as int).push(label@),
            },
    {
        let node = &self.nodes[cur];
        let mut j: usize = 0;
        while j < node.children.len()
            invariant
                self.wf(),
                cur < self.nodes@.len(),
                *node == self.nodes@[cur as int],
                j <= node.children@.len(),
                forall|k: int| 0 <= k < j ==> node.children@[k].0@ != label@,
            decreases node.children@.len() - j,
        {
            if label_eq(&node.children[j].0, label) {
                assert(self.nodes@[cur as int].children@[j as int] == node.children@[j as int]);
                return Some(node.children[j].1);
            }
            j = j + 1;
        }
        proof {
            let p = self.paths@;
            let want = p[cur as int].push(label@);
            assert forall|c: int| 0 <= c < self.len() implies self.path(c) != want by {
                if p[c] == want {
                    assert(p[c].len() > 0);
                    assert(c != 0);
                    let (i, k) = self.parents@[c];
                    let e = self.nodes@[i].children@[k];
                    assert(p[c] == p[i].push(e.0@));
                    assert(p[i] =~= p[c].drop_last());
                    assert(p[cur as int] =~= want.drop_last());
                    assert(i == cur);
                    assert(e.0@ == want.last());
                }
            }
        }
        None
    }

    /// The payload at node `i`.
    pub fn payload(&self, i: usize) -> (r: Option<T>)
        requires
            self.wf(),
            i < self.len(),
        ensures
            r == if self@.contains_key(self.path(i as int)) {
                Some(self@[self.path(i as int)])
            } else {
                None
            },
    {
        self.nodes[i].payload
    }

    /// Adds a child of `cur` under `label`, which `cur` does not have yet.
    fn add_child(&mut self, cur: usize, label: Vec<u8>) -> (r: usize)
        requires
            old(self).wf(),
            cur < old(self).len(),
            forall|c: int|
                0 <= c < old(self).len() ==> old(self).path(c) != old(self).path(cur as int).push(
                    label@,
                ),
        ensures
            final(self).wf(),
            final(self)@ == old(self)@,
            r < final(self).len(),
            final(self).path(r as int) == old(self).path(cur as int).push(label@),
            forall|c: int| 0 <= c < old(self).len() ==> final(self).path(c) == old(self).path(c),
            old(self).len() <= final(self).len(),
    {
        let ghost old_p = self.paths@;
        let ghost new_path = old_p[cur as int].push(label@);
        let idx = self.nodes.len();
        let slot = self.nodes[cur].children.len();
        self.nodes.push(TrieNode { children: Vec::new(), payload: None });
        proof {
            self.paths@ = self.paths@.push(new_path);
            self.parents@ = self.parents@.push((cur as int, slot as int));
        }
        self.nodes[cur].children.push((label, idx));
        proof {
            let n = self.nodes@;
            let p = self.paths@;
            let m = self.contents@;
            assert forall|i: int, j: int|
                0 <= i < n.len() && 0 <= j < n[i].children@.len() implies {
                &&& (#[trigger] n[i].children@[j]).1 < n.len()
                &&& p[n[i].children@[j].1 as int] == p[i].push(n[i].children@[j].0@)
            } by {
                if i == cur && j == slot {
                } else if i < idx {
                    assert(n[i].children@[j] == old(self).nodes@[i].children@[j]);
                }
            }
            assert forall|i: int, j: int|
                0 <= i < n.len() && 0 <= j < n.len() && i != j implies #[trigger] p[i]
                != #[trigger] p[j] by {
                if i == idx {
                    assert(p[j] == old_p[j]);
                    assert(old(self).path(j) != old(self).path(cur as int).push(label@));
                } else if j == idx {
                    assert(p[i] == old_p[i]);
                    assert(old(self).path(i) != old(self).path(cur as int).push(label@));
                } else {
                    assert(old_p[i] != old_p[j]);
                }
            }
            assert forall|c: int| 0 < c < n.len() implies {
                let (i, j) = #[trigger] self.parents@[c];
                &&& 0 <= i < n.len()
                &&& 0 <= j < n[i].children@.len()
                &&& n[i].children@[j].1 == c
            } by {
                if c < idx {
                    let (i, j) = old(self).parents@[c];
                    assert(self.parents@[c] == old(self).parents@[c]);
                    assert(n[i].children@[j] == old(self).nodes@[i].children@[j]);
                }
            }
            assert forall|i: int| 0 <= i < n.len() implies (#[trigger] n[i]).payload == if m.contains_key(p[i]) {
                Some(m[p[i]])
            } else {
                None
            } by {
                if i == idx {
                    if m.contains_key(new_path) {
                        let w = choose|w: int| 0 <= w < old(self).nodes@.len() && old_p[w] == new_path;
                        assert(old(self).path(w) != old(self).path(cur as int).push(label@));
                    }
                } else {
                    assert(n[i].payload == old(self).nodes@[i].payload);
                }
            }
            assert forall|q: Seq<Seq<u8>>| #[trigger] m.contains_key(q) implies exists|i: int|
                0 <= i < n.len() && p[i] == q by {
                let w = choose|w: int| 0 <= w < old(self).len() && old_p[w] == q;
                assert(p[w] == q);
            }
        }
        idx
    }

    /// Gives `key` the payload `v`, or takes its payload away where `v` is `None`.
    pub fn set(&mut self, key: &Vec<Vec<u8>>, v: Option<T>)
        requires
            old(self).wf(),
        ensures
            final(self).wf(),
            final(self)@ == match v {
                Some(x) => old(self)@.insert(key_view(key@), x),
                None => old(self)@.remove(key_view(key@)),
            },
    {
        let ghost k = key_view(key@);
        let mut cur: usize = 0;
        let mut d: usize = 0;
        while d < key.len()
            invariant
                self.wf(),
                self@ == old(self)@,
                d <= key@.len(),
                k == key_view(key@),
                cur < self.len(),
                self.path(cur as int) == k.take(d as int),
            decreases key@.len() - d,
        {
            match self.child(cur, &key[d]) {
                Some(c) => {
                    cur = c;
                },
                None => {
                    let l = copy_bytes(&key[d]);
                    cur = self.add_child(cur, l);
                },
            }
            assert(k.take(d + 1) =~= k.take(d as int).push(key@[d as int]@));
            d = d + 1;
        }
        assert(k.take(d as int) =~= k);
        self.nodes[cur].payload = v;
        proof {
            let ghost newm = match v {
                Some(x) => old(self)@.insert(k, x),
                None => old(self)@.remove(k),
            };
            self.contents@ = newm;
            let n = self.nodes@;
            let p = self.paths@;
            assert forall|i: int| 0 <= i < n.len() implies (#[trigger] n[i]).payload == if newm.contains_key(p[i]) {
                Some(newm[p[i]])
            } else {
                None
            } by {
                if i != cur {
                    assert(p[i] != p[cur as int]);
                }
            }
            assert forall|q: Seq<Seq<u8>>| #[trigger] newm.contains_key(q) implies exists|i: int|
                0 <= i < n.len() && p[i] == q by {
                if q != k {
                    assert(old(self)@.contains_key(q));
                    let w = choose|w: int| 0 <= w < n.len() && p[w] == q;
                } else {
                    assert(p[cur as int] == q);
                }
            }
        }
    }
}

} // verus!
