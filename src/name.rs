//! Domain names as label sequences, compared ASCII-case-insensitively.
use vstd::prelude::*;
use crate::trie::key_view;

verus! {

/// The ASCII lowercase form of one byte.
pub open spec fn lower_byte(b: u8) -> u8 {
    if 65 <= b <= 90 {
        (b + 32) as u8
    } else {
        b
    }
}

/// The normalised form of a label: every ASCII letter in lower case.
pub open spec fn norm_label(l: Seq<u8>) -> Seq<u8> {
    l.map_values(|b: u8| lower_byte(b))
}

/// The trie key of a name: its labels normalised, top-level label first.
pub open spec fn rkey(name: Seq<Seq<u8>>) -> Seq<Seq<u8>> {
    Seq::new(name.len(), |i: int| norm_label(name[name.len() - 1 - i]))
}

/// A byte that may stand in a label: `[A-Za-z0-9-]`.
pub open spec fn is_name_byte(b: u8) -> bool {
    (48 <= b <= 57) || (65 <= b <= 90) || (97 <= b <= 122) || b == 45
}

/// Cuts `s` at each `sep`: the pieces finished so far and the piece being read.
pub open spec fn split_fold(s: Seq<u8>, sep: u8) -> (Seq<Seq<u8>>, Seq<u8>)
    decreases s.len(),
{
    if s.len() == 0 {
        (Seq::empty(), Seq::empty())
    } else {
        let (done, cur) = split_fold(s.drop_last(), sep);
        if s.last() == sep {
            (done.push(cur), Seq::empty())
        } else {
            (done, cur.push(s.last()))
        }
    }
}

/// The pieces of `s` between the bytes `sep`.
pub open spec fn split(s: Seq<u8>, sep: u8) -> Seq<Seq<u8>> {
    split_fold(s, sep).0.push(split_fold(s, sep).1)
}

/// The labels that a name's text spells.
pub open spec fn name_labels(s: Seq<u8>) -> Seq<Seq<u8>> {
    if trim_root(s).len() == 0 {
        Seq::empty()
    } else {
        split(trim_root(s), 46u8)
    }
}

/// A name's text without its one optional trailing dot.
pub open spec fn trim_root(s: Seq<u8>) -> Seq<u8> {
    if s.len() > 0 && s.last() == 46u8 {
        s.drop_last()
    } else {
        s
    }
}

/// A byte that may stand in a label written without escapes: printable
/// ASCII but for `.` and `\`.
pub open spec fn is_wide_name_byte(b: u8) -> bool {
    32 <= b <= 126 && b != 46 && b != 92
}

/// A label byte: `[A-Za-z0-9-]`, or any of the wide alphabet where `wide`.
pub open spec fn label_byte(b: u8, wide: bool) -> bool {
    if wide {
        is_wide_name_byte(b)
    } else {
        is_name_byte(b)
    }
}

/// Text of `[A-Za-z0-9.-]` that spells a name.
pub open spec fn valid_name_text(s: Seq<u8>) -> bool {
    valid_name_in(s, false)
}

/// Text of printable ASCII, without escapes, that spells a name.
pub open spec fn valid_host_name(s: Seq<u8>) -> bool {
    valid_name_in(s, true)
}

/// Text that spells a name: a name of at most 255 bytes on the wire whose
/// labels have at most 63 bytes each. The empty text is the root; a lone dot
/// is refused.
pub open spec fn valid_name_in(s: Seq<u8>, wide: bool) -> bool {
    &&& name_syntax(s, wide)
    &&& trim_root(s).len() == 0 ==> s.len() == 0
    &&& trim_root(s).len() <= 253
    &&& forall|k: int| 0 <= k < name_labels(s).len() ==> (#[trigger] name_labels(s)[k]).len() <= 63
}

/// Labels of label bytes, none of them empty, with a dot between each two and
/// at most one dot at the end.
pub open spec fn name_syntax(s: Seq<u8>, wide: bool) -> bool {
    let t = trim_root(s);
    &&& forall|i: int| 0 <= i < t.len() ==> label_byte(#[trigger] t[i], wide) || t[i] == 46u8
    &&& t.len() > 0 ==> t[0] != 46u8 && t.last() != 46u8
    &&& forall|i: int| 0 <= i < t.len() - 1 && #[trigger] t[i] == 46u8 ==> t[i + 1] != 46u8
}

pub fn to_lower_byte(b: u8) -> (r: u8)
    ensures
        r == lower_byte(b),
{
    if 65 <= b && b <= 90 {
        b + 32
    } else {
        b
    }
}

pub fn is_name_char(b: u8) -> (r: bool)
    ensures
        r == is_name_byte(b),
{
    (48 <= b && b <= 57) || (65 <= b && b <= 90) || (97 <= b && b <= 122) || b == 45
}

/// Splits the text of a name of `[A-Za-z0-9.-]` into its labels.
///
/// Gives `None` where the text does not spell such a name.
pub fn parse_name(s: &[u8]) -> (r: Option<Vec<Vec<u8>>>)
    ensures
        r is Some <==> valid_name_text(s@),
        r matches Some(v) ==> key_view(v@) == name_labels(s@),
{
    parse_name_in(s, false)
}

/// Splits the text of a name of printable ASCII, written without escapes,
/// into its labels.
///
/// Gives `None` where the text does not spell such a name.
pub fn parse_host_name(s: &[u8]) -> (r: Option<Vec<Vec<u8>>>)
    ensures
        r is Some <==> valid_host_name(s@),
        r matches Some(v) ==> key_view(v@) == name_labels(s@),
{
    parse_name_in(s, true)
}

fn is_label_byte(b: u8, wide: bool) -> (r: bool)
    ensures
        r == label_byte(b, wide),
{
    if wide {
        32 <= b && b <= 126 && b != 46 && b != 92
    } else {
        is_name_char(b)
    }
}

fn parse_name_in(s: &[u8], wide: bool) -> (r: Option<Vec<Vec<u8>>>)
    ensures
        r is Some <==> valid_name_in(s@, wide),
        r matches Some(v) ==> key_view(v@) == name_labels(s@),
{
    let labels = match split_name(s, wide) {
        Some(v) => v,
        None => return None,
    };
    let n = labels.len();
    let mut total: usize = 0;
    if s.len() > 0 && s[s.len() - 1] == 46 {
        total = s.len() - 1;
    } else {
        total = s.len();
    }
    if total == 0 && s.len() > 0 {
        return None;
    }
    if total > 253 {
        return None;
    }
    let mut k: usize = 0;
    while k < n
        invariant
            n == labels@.len(),
            key_view(labels@) == name_labels(s@),
            k <= n,
            forall|j: int| 0 <= j < k ==> (#[trigger] name_labels(s@)[j]).len() <= 63,
        decreases n - k,
    {
        assert(labels@[k as int]@ == name_labels(s@)[k as int]);
        if labels[k].len() > 63 {
            return None;
        }
        k = k + 1;
    }
    Some(labels)
}

/// Splits text into labels where it has a name's syntax.
fn split_name(s: &[u8], wide: bool) -> (r: Option<Vec<Vec<u8>>>)
    ensures
        r is Some <==> name_syntax(s@, wide),
        r matches Some(v) ==> key_view(v@) == name_labels(s@),
{
    let ghost t = trim_root(s@);
    let n: usize = if s.len() > 0 && s[s.len() - 1] == 46 {
        s.len() - 1
    } else {
        s.len()
    };
    assert(t.len() == n);
    let mut labels: Vec<Vec<u8>> = Vec::new();
    let mut cur: Vec<u8> = Vec::new();
    let mut i: usize = 0;
    while i < n
        invariant
            n == t.len(),
            t == trim_root(s@),
            t =~= s@.take(n as int),
            i <= n,
            split_fold(t.take(i as int), 46u8) == (key_view(labels@), cur@),
            forall|j: int| 0 <= j < i ==> label_byte(#[trigger] t[j], wide) || t[j] == 46u8,
            i > 0 ==> t[0] != 46u8,
            forall|j: int| 0 <= j < i - 1 && #[trigger] t[j] == 46u8 ==> t[j + 1] != 46u8,
            cur@.len() == 0 && i > 0 ==> t[i - 1] == 46u8,
            cur@.len() > 0 ==> t[i - 1] != 46u8,
        decreases n - i,
    {
        let b = s[i];
        assert(b == t[i as int]);
        if b == 46 {
            if cur.len() == 0 {
                return None;
            }
            proof {
                assert(key_view(labels@.push(cur)) =~= key_view(labels@).push(cur@));
                assert(t.take(i + 1).drop_last() =~= t.take(i as int));
            }
            labels.push(cur);
            cur = Vec::new();
        } else {
            if !is_label_byte(b, wide) {
                return None;
            }
            proof {
                assert(t.take(i + 1).drop_last() =~= t.take(i as int));
            }
            cur.push(b);
        }
        i = i + 1;
    }
    if n > 0 && cur.len() == 0 {
        return None;
    }
    proof {
        assert(t.take(n as int) =~= t);
    }
    if cur.len() > 0 {
        proof {
            assert(key_view(labels@.push(cur)) =~= key_view(labels@).push(cur@));
        }
        labels.push(cur);
    } else {
        assert(key_view(labels@) =~= Seq::<Seq<u8>>::empty());
    }
    Some(labels)
}

/// The bytes of `s` from `a` up to `b`.
pub fn copy_range(s: &[u8], a: usize, b: usize) -> (r: Vec<u8>)
    requires
        a <= b <= s@.len(),
    ensures
        r@ == s@.subrange(a as int, b as int),
{
    let mut r: Vec<u8> = Vec::new();
    let mut i: usize = a;
    while i < b
        invariant
            a <= i <= b,
            b <= s@.len(),
            r@ == s@.subrange(a as int, i as int),
        decreases b - i,
    {
        r.push(s[i]);
        i = i + 1;
        assert(r@ =~= s@.subrange(a as int, i as int));
    }
    r
}

/// The pieces of `s` between the bytes `sep`.
pub fn split_bytes(s: &[u8], sep: u8) -> (r: Vec<Vec<u8>>)
    ensures
        key_view(r@) == split(s@, sep),
{
    let mut done: Vec<Vec<u8>> = Vec::new();
    let mut cur: Vec<u8> = Vec::new();
    let mut i: usize = 0;
    while i < s.len()
        invariant
            i <= s@.len(),
            split_fold(s@.take(i as int), sep) == (key_view(done@), cur@),
        decreases s@.len() - i,
    {
        assert(s@.take(i + 1).drop_last() =~= s@.take(i as int));
        if s[i] == sep {
            assert(key_view(done@.push(cur)) =~= key_view(done@).push(cur@));
            done.push(cur);
            cur = Vec::new();
        } else {
            cur.push(s[i]);
        }
        i = i + 1;
    }
    assert(s@.take(s@.len() as int) =~= s@);
    assert(key_view(done@.push(cur)) =~= key_view(done@).push(cur@));
    done.push(cur);
    done
}

/// The trie key of `name`: its labels lowercased, in reverse order.
pub fn reversed_key(name: &Vec<Vec<u8>>) -> (r: Vec<Vec<u8>>)
    ensures
        key_view(r@) == rkey(key_view(name@)),
{
    let ghost want = rkey(key_view(name@));
    let mut r: Vec<Vec<u8>> = Vec::new();
    let mut i: usize = name.len();
    while i > 0
        invariant
            i <= name@.len(),
            want == rkey(key_view(name@)),
            key_view(r@) =~= want.take(name@.len() - i),
        decreases i,
    {
        i = i - 1;
        let l = &name[i];
        let mut low: Vec<u8> = Vec::new();
        let mut k: usize = 0;
        while k < l.len()
            invariant
                k <= l@.len(),
                low@ =~= norm_label(l@).take(k as int),
            decreases l@.len() - k,
        {
            low.push(to_lower_byte(l[k]));
            k = k + 1;
            assert(low@ =~= norm_label(l@).take(k as int));
        }
        assert(norm_label(l@).take(k as int) =~= norm_label(l@));
        let ghost before = r@;
        r.push(low);
        proof {
            let j = name@.len() - 1 - i;
            assert(key_view(name@)[i as int] == l@);
            assert(want[j] == norm_label(l@));
            assert(key_view(r@) =~= key_view(before).push(low@));
            assert(want.take(j + 1) =~= want.take(j).push(want[j]));
        }
        assert(key_view(r@) =~= want.take(name@.len() - i));
    }
    r
}

} // verus!
