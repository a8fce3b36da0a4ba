//! A set of domain suffixes over a reverse-label trie.
use vstd::prelude::*;
use crate::name::{copy_range, name_labels, parse_name, reversed_key, rkey, split, split_fold, valid_name_text};
use crate::trie::{key_view, LabelTrie};

verus! {

/// Some prefix of `key`, the key itself or the empty one included, is in `s`.
pub open spec fn suffix_match(s: Set<Seq<Seq<u8>>>, key: Seq<Seq<u8>>) -> bool {
    exists|j: int| 0 <= j <= key.len() && #[trigger] s.contains(key.take(j))
}

/// The key of a name's last `j` labels is the first `j` labels of its key.
pub proof fn lemma_suffix_key(q: Seq<Seq<u8>>, j: int)
    requires
        0 <= j <= q.len(),
    ensures
        rkey(q.subrange(q.len() - j, q.len() as int)) == rkey(q).take(j),
{
    assert(rkey(q.subrange(q.len() - j, q.len() as int)) =~= rkey(q).take(j));
}

/// After a suffix of a name is inserted into a set, the name matches it.
pub proof fn lemma_inserted_suffix_matches(
    set: Set<Seq<Seq<u8>>>,
    q: Seq<Seq<u8>>,
    s: Seq<Seq<u8>>,
)
    requires
        s.len() <= q.len(),
        s == q.subrange(q.len() - s.len(), q.len() as int),
    ensures
        suffix_match(set.insert(rkey(s)), rkey(q)),
{
    lemma_suffix_key(q, s.len() as int);
    assert(set.insert(rkey(s)).contains(rkey(q).take(s.len() as int)));
}

/// A name none of whose suffixes is in a set does not match it.
pub proof fn lemma_disjoint_suffixes_miss(set: Set<Seq<Seq<u8>>>, q: Seq<Seq<u8>>)
    requires
        forall|j: int|
            0 <= j <= q.len() ==> !set.contains(
                rkey(#[trigger] q.subrange(q.len() - j, q.len() as int)),
            ),
    ensures
        !suffix_match(set, rkey(q)),
{
    assert forall|j: int| 0 <= j <= rkey(q).len() implies !set.contains(
        #[trigger] rkey(q).take(j),
    ) by {
        lemma_suffix_key(q, j);
        assert(!set.contains(rkey(q.subrange(q.len() - j, q.len() as int))));
    }
}

/// The set after each line of `lines` that spells a name is added.
pub open spec fn with_lines(s: Set<Seq<Seq<u8>>>, lines: Seq<Seq<u8>>) -> Set<Seq<Seq<u8>>>
    decreases lines.len(),
{
    if lines.len() == 0 {
        s
    } else {
        let rest = with_lines(s, lines.drop_last());
        let l = lines.last();
        if l.len() > 0 && valid_name_text(l) {
            rest.insert(rkey(name_labels(l)))
        } else {
            rest
        }
    }
}

/// Where domains come from.
#[derive(Clone, Debug, PartialEq, Eq)]
pub enum ResourceType {
    /// A name, or several on lines of their own.
    Qname(String),
    /// A file of names, one on each line.
    File(String),
}

/// A domain-suffix matcher.
pub struct Domain {
    trie: LabelTrie<()>,
}

impl Domain {
    /// The inserted names, as reversed, lowercased label keys.
    pub closed spec fn view(&self) -> Set<Seq<Seq<u8>>> {
        self.trie@.dom()
    }

    pub closed spec fn wf(&self) -> bool {
        self.trie.wf()
    }

    /// An empty matcher.
    pub fn new() -> (r: Self)
        ensures
            r.wf(),
            r@ == Set::<Seq<Seq<u8>>>::empty(),
    {
        let r = Domain { trie: LabelTrie::new() };
        assert(r@ =~= Set::<Seq<Seq<u8>>>::empty());
        r
    }

    /// Adds one name.
    pub fn insert(&mut self, domain: &Vec<Vec<u8>>)
        requires
            old(self).wf(),
        ensures
            final(self).wf(),
            final(self)@ == old(self)@.insert(rkey(key_view(domain@))),
    {
        let key = reversed_key(domain);
        self.trie.set(&key, Some(()));
        assert(self@ =~= old(self)@.insert(rkey(key_view(domain@))));
    }

    /// Adds the name on each line of `data`; empty lines and lines that do not
    /// spell a name are skipped.
    pub fn insert_multi(&mut self, data: &[u8])
        requires
            old(self).wf(),
        ensures
            final(self).wf(),
            final(self)@ == with_lines(old(self)@, split(data@, 10u8)),
    {
        let ghost lines: Seq<Seq<u8>> = Seq::empty();
        let mut start: usize = 0;
        let mut i: usize = 0;
        while i < data.len()
            invariant
                self.wf(),
                start <= i <= data@.len(),
                split_fold(data@.take(i as int), 10u8) == (lines, data@.subrange(
                    start as int,
                    i as int,
                )),
                self@ == with_lines(old(self)@, lines),
            decreases data@.len() - i,
        {
            assert(data@.take(i + 1).drop_last() =~= data@.take(i as int));
            if data[i] == 10 {
                let line = copy_range(data, start, i);
                self.add_line(&line);
                proof {
                    assert(lines.push(line@).drop_last() =~= lines);
                    lines = lines.push(line@);
                    assert(data@.subrange((i + 1) as int, (i + 1) as int) =~= Seq::<u8>::empty());
                }
                start = i + 1;
            } else {
                assert(data@.subrange(start as int, i + 1) =~= data@.subrange(
                    start as int,
                    i as int,
                ).push(data@[i as int]));
            }
            i = i + 1;
        }
        let line = copy_range(data, start, data.len());
        self.add_line(&line);
        proof {
            assert(data@.take(data@.len() as int) =~= data@);
            assert(lines.push(line@).drop_last() =~= lines);
        }
    }

    /// Adds the name that one line spells, if it spells one.
    fn add_line(&mut self, line: &Vec<u8>)
        requires
            old(self).wf(),
        ensures
            final(self).wf(),
            final(self)@ == if line@.len() > 0 && valid_name_text(line@) {
                old(self)@.insert(rkey(name_labels(line@)))
            } else {
                old(self)@
            },
    {
        if line.len() > 0 {
            match parse_name(line.as_slice()) {
                Some(v) => self.insert(&v),
                None => {},
            }
        }
    }

    /// Whether some suffix of `domain` has been inserted.
    pub fn matches(&self, domain: &Vec<Vec<u8>>) -> (r: bool)
        requires
            self.wf(),
        ensures
            r == suffix_match(self@, rkey(key_view(domain@))),
    {
        let key = reversed_key(domain);
        let ghost k = key_view(key@);
        let ghost s = self@;
        let mut cur: usize = LabelTrie::<()>::root();
        proof {
            self.trie.lemma_root();
            assert(k.take(0) =~= Seq::<Seq<u8>>::empty());
        }
        if self.trie.payload(cur).is_some() {
            assert(s.contains(k.take(0)));
            return true;
        }
        let mut d: usize = 0;
        while d < key.len()
            invariant
                self.wf(),
                s == self@,
                k == key_view(key@),
                k == rkey(key_view(domain@)),
                d <= key@.len(),
                cur < self.trie.len(),
                self.trie.path(cur as int) == k.take(d as int),
                forall|j: int| 0 <= j <= d ==> !s.contains(#[trigger] k.take(j)),
            decreases key@.len() - d,
        {
            assert(k.take(d + 1) =~= k.take(d as int).push(key@[d as int]@));
            match self.trie.child(cur, &key[d]) {
                Some(c) => {
                    cur = c;
                    d = d + 1;
                    if self.trie.payload(c).is_some() {
                        assert(s.contains(k.take(d as int)));
                        return true;
                    }
                },
                None => {
                    proof {
                        assert forall|j: int| 0 <= j <= k.len() implies !s.contains(
                            #[trigger] k.take(j),
                        ) by {
                            if j > d && s.contains(k.take(j)) {
                                assert(self.trie@.contains_key(k.take(j)));
                                self.trie.lemma_contents_have_nodes(k.take(j));
                                let x = choose|x: int|
                                    0 <= x < self.trie.len() && self.trie.path(x) == k.take(j);
                                self.trie.lemma_prefix_closed(x, d + 1);
                                assert(k.take(j).take(d + 1) =~= k.take(d + 1));
                            }
                        }
                    }
                    return false;
                },
            }
        }
        false
    }
}

} // verus!
