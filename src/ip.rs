//! IP addresses as plain values, and the dotted-quad text of IPv4.
use vstd::prelude::*;
use crate::name::{copy_range, split, split_bytes};
use crate::trie::key_view;

verus! {

/// An IPv4 or IPv6 address.
#[derive(Clone, Copy, Debug, PartialEq, Eq)]
pub enum IpAddr {
    V4([u8; 4]),
    V6([u16; 8]),
}

pub open spec fn is_digit(b: u8) -> bool {
    48 <= b <= 57
}

pub open spec fn digit_val(b: u8) -> int {
    b - 48
}

/// The value of one to three decimal digits.
pub open spec fn digits_val(p: Seq<u8>) -> int {
    if p.len() == 1 {
        digit_val(p[0])
    } else if p.len() == 2 {
        10 * digit_val(p[0]) + digit_val(p[1])
    } else {
        100 * digit_val(p[0]) + 10 * digit_val(p[1]) + digit_val(p[2])
    }
}

/// One part of a dotted quad: one to three digits, no leading zero, at most 255.
pub open spec fn octet_ok(p: Seq<u8>) -> bool {
    &&& 1 <= p.len() <= 3
    &&& forall|k: int| 0 <= k < p.len() ==> is_digit(#[trigger] p[k])
    &&& p.len() > 1 ==> p[0] != 48u8
    &&& digits_val(p) <= 255
}

/// Text of the form `a.b.c.d`.
pub open spec fn ipv4_ok(s: Seq<u8>) -> bool {
    let parts = split(s, 46u8);
    &&& parts.len() == 4
    &&& forall|k: int| 0 <= k < 4 ==> octet_ok(#[trigger] parts[k])
}

/// The address that valid text of the form `a.b.c.d` gives.
pub open spec fn ipv4_of(s: Seq<u8>) -> [u8; 4] {
    let parts = split(s, 46u8);
    [
        digits_val(parts[0]) as u8,
        digits_val(parts[1]) as u8,
        digits_val(parts[2]) as u8,
        digits_val(parts[3]) as u8,
    ]
}

fn octet(p: &Vec<u8>) -> (r: Option<u8>)
    ensures
        r is Some <==> octet_ok(p@),
        r matches Some(v) ==> v as int == digits_val(p@),
{
    let n = p.len();
    if n < 1 || n > 3 {
        return None;
    }
    let mut k: usize = 0;
    while k < n
        invariant
            n == p@.len(),
            k <= n,
            forall|j: int| 0 <= j < k ==> is_digit(#[trigger] p@[j]),
        decreases n - k,
    {
        if p[k] < 48 || p[k] > 57 {
            return None;
        }
        k = k + 1;
    }
    if n > 1 && p[0] == 48 {
        return None;
    }
    let v: u32 = if n == 1 {
        (p[0] - 48) as u32
    } else if n == 2 {
        10 * ((p[0] - 48) as u32) + ((p[1] - 48) as u32)
    } else {
        100 * ((p[0] - 48) as u32) + 10 * ((p[1] - 48) as u32) + ((p[2] - 48) as u32)
    };
    if v > 255 {
        return None;
    }
    Some(v as u8)
}

/// Reads an IPv4 address written `a.b.c.d`.
pub fn parse_ipv4(s: &[u8]) -> (r: Option<[u8; 4]>)
    ensures
        r is Some <==> ipv4_ok(s@),
        r matches Some(a) ==> a == ipv4_of(s@),
{
    let parts = split_bytes(s, 46);
    let ghost ps = split(s@, 46u8);
    if parts.len() != 4 {
        return None;
    }
    assert(parts@[0]@ == ps[0] && parts@[1]@ == ps[1] && parts@[2]@ == ps[2] && parts@[3]@ == ps[3]);
    let a = match octet(&parts[0]) {
        Some(v) => v,
        None => return None,
    };
    let b = match octet(&parts[1]) {
        Some(v) => v,
        None => return None,
    };
    let c = match octet(&parts[2]) {
        Some(v) => v,
        None => return None,
    };
    let d = match octet(&parts[3]) {
        Some(v) => v,
        None => return None,
    };
    assert forall|k: int| 0 <= k < 4 implies octet_ok(#[trigger] ps[k]) by {
        if k == 0 {
        } else if k == 1 {
        } else if k == 2 {
        } else {
        }
    }
    let r = [a, b, c, d];
    assert(r =~= ipv4_of(s@));
    Some(r)
}

pub open spec fn hex_digit_val(b: u8) -> int {
    if 48 <= b <= 57 {
        b - 48
    } else if 97 <= b <= 102 {
        b - 87
    } else if 65 <= b <= 70 {
        b - 55
    } else {
        -1
    }
}

/// The value of a run of hexadecimal digits.
pub open spec fn hex_val(p: Seq<u8>) -> int
    decreases p.len(),
{
    if p.len() == 0 {
        0
    } else {
        16 * hex_val(p.drop_last()) + hex_digit_val(p.last())
    }
}

/// One group of an IPv6 address: one to four hexadecimal digits.
pub open spec fn group_ok(p: Seq<u8>) -> bool {
    &&& 1 <= p.len() <= 4
    &&& forall|k: int| 0 <= k < p.len() ==> hex_digit_val(#[trigger] p[k]) >= 0
}

/// Groups with a colon between each two, or nothing.
pub open spec fn group_list(t: Seq<u8>) -> bool {
    t.len() == 0 || forall|k: int| 0 <= k < split(t, 58u8).len() ==> group_ok(#[trigger] split(t, 58u8)[k])
}

/// The values of the groups of a group list.
pub open spec fn groups_of(t: Seq<u8>) -> Seq<int> {
    if t.len() == 0 {
        Seq::empty()
    } else {
        split(t, 58u8).map_values(|p: Seq<u8>| hex_val(p))
    }
}

/// A `::` starts at `i`.
pub open spec fn dc_at(s: Seq<u8>, i: int) -> bool {
    0 <= i < s.len() - 1 && s[i] == 58u8 && s[i + 1] == 58u8
}

pub open spec fn has_dc(s: Seq<u8>) -> bool {
    exists|i: int| #[trigger] dc_at(s, i)
}

/// Where the first `::` starts.
pub open spec fn first_dc(s: Seq<u8>) -> int {
    choose|i: int| #[trigger] dc_at(s, i) && forall|j: int| 0 <= j < i ==> !dc_at(s, j)
}

/// IPv6 text of hexadecimal groups: eight of them, or fewer around one `::`
/// that stands for at least one zero group.
pub open spec fn ipv6_ok(s: Seq<u8>) -> bool {
    if !has_dc(s) {
        group_list(s) && groups_of(s).len() == 8
    } else {
        let i = first_dc(s);
        let a = s.subrange(0, i);
        let b = s.subrange(i + 2, s.len() as int);
        group_list(a) && group_list(b) && groups_of(a).len() + groups_of(b).len() <= 7
    }
}

/// The eight groups of valid IPv6 text.
pub open spec fn ipv6_groups(s: Seq<u8>) -> Seq<int> {
    if !has_dc(s) {
        groups_of(s)
    } else {
        let i = first_dc(s);
        let a = groups_of(s.subrange(0, i));
        let b = groups_of(s.subrange(i + 2, s.len() as int));
        a + Seq::new((8 - a.len() - b.len()) as nat, |k: int| 0int) + b
    }
}

fn hex_digit(b: u8) -> (r: Option<u16>)
    ensures
        r is Some <==> hex_digit_val(b) >= 0,
        r matches Some(v) ==> v as int == hex_digit_val(b),
{
    if 48 <= b && b <= 57 {
        Some((b - 48) as u16)
    } else if 97 <= b && b <= 102 {
        Some((b - 87) as u16)
    } else if 65 <= b && b <= 70 {
        Some((b - 55) as u16)
    } else {
        None
    }
}

fn group(p: &Vec<u8>) -> (r: Option<u16>)
    ensures
        r is Some <==> group_ok(p@),
        r matches Some(v) ==> v as int == hex_val(p@),
{
    if p.len() < 1 || p.len() > 4 {
        return None;
    }
    let mut v: u16 = 0;
    let mut k: usize = 0;
    while k < p.len()
        invariant
            1 <= p@.len() <= 4,
            k <= p@.len(),
            v as int == hex_val(p@.take(k as int)),
            v < pow16(k as nat),
            forall|j: int| 0 <= j < k ==> hex_digit_val(#[trigger] p@[j]) >= 0,
        decreases p@.len() - k,
    {
        let d = match hex_digit(p[k]) {
            Some(d) => d,
            None => return None,
        };
        proof {
            assert(p@.take(k + 1).drop_last() =~= p@.take(k as int));
            assert(pow16((k + 1) as nat) == 16 * pow16(k as nat));
            assert(k < 4);
            lemma_pow16_mono(k as nat);
        }
        v = 16 * v + d;
        k = k + 1;
    }
    assert(p@.take(p@.len() as int) =~= p@);
    Some(v)
}

spec fn pow16(n: nat) -> int
    decreases n,
{
    if n == 0 {
        1
    } else {
        16 * pow16((n - 1) as nat)
    }
}

proof fn lemma_pow16_mono(k: nat)
    requires
        k < 4,
    ensures
        16 * pow16(k) <= 65536,
{
    assert(pow16(0) == 1);
    assert(pow16(1) == 16);
    assert(pow16(2) == 256);
    assert(pow16(3) == 4096);
    assert(pow16(4) == 65536);
}

/// The group values of a group list, where `t` is one.
fn group_values(t: &[u8]) -> (r: Option<Vec<u16>>)
    ensures
        r is Some <==> group_list(t@),
        r matches Some(v) ==> v@.len() == groups_of(t@).len() && forall|k: int|
            0 <= k < v@.len() ==> v@[k] as int == #[trigger] groups_of(t@)[k],
{
    let mut out: Vec<u16> = Vec::new();
    if t.len() == 0 {
        return Some(out);
    }
    let parts = split_bytes(t, 58);
    let ghost ps = split(t@, 58u8);
    let mut k: usize = 0;
    while k < parts.len()
        invariant
            key_view(parts@) == ps,
            ps == split(t@, 58u8),
            t@.len() > 0,
            k <= parts@.len(),
            out@.len() == k,
            forall|j: int| 0 <= j < k ==> group_ok(#[trigger] ps[j]),
            forall|j: int| 0 <= j < k ==> out@[j] as int == hex_val(#[trigger] ps[j]),
        decreases parts@.len() - k,
    {
        assert(parts@[k as int]@ == ps[k as int]);
        let g = match group(&parts[k]) {
            Some(g) => g,
            None => return None,
        };
        out.push(g);
        k = k + 1;
    }
    assert forall|j: int| 0 <= j < out@.len() implies out@[j] as int == #[trigger] groups_of(t@)[j] by {
        assert(out@[j] as int == hex_val(ps[j]));
    }
    Some(out)
}

/// Reads an IPv6 address written as hexadecimal groups, with at most one `::`.
pub fn parse_ipv6(s: &[u8]) -> (r: Option<[u16; 8]>)
    ensures
        r is Some <==> ipv6_ok(s@),
        r matches Some(g) ==> forall|k: int| 0 <= k < 8 ==> g[k] as int == #[trigger] ipv6_groups(s@)[k],
{
    let mut i: usize = 0;
    let mut found = false;
    while !found && s.len() > 0 && i < s.len() - 1
        invariant
            forall|j: int| 0 <= j < i ==> !dc_at(s@, j),
            found ==> dc_at(s@, i as int),
            i <= s@.len(),
        decreases s@.len() - i + (if found { 0int } else { 1int }),
    {
        if s[i] == 58 && s[i + 1] == 58 {
            found = true;
        } else {
            i = i + 1;
        }
    }
    let mut g: [u16; 8] = [0; 8];
    if !found {
        assert(!has_dc(s@)) by {
            if has_dc(s@) {
                let j = choose|j: int| #[trigger] dc_at(s@, j);
                assert(j < i);
            }
        }
        let v = match group_values(s) {
            Some(v) => v,
            None => return None,
        };
        if v.len() != 8 {
            return None;
        }
        let mut k: usize = 0;
        while k < 8
            invariant
                v@.len() == 8,
                k <= 8,
                forall|j: int| 0 <= j < k ==> g[j] == v@[j],
            decreases 8 - k,
        {
            g[k] = v[k];
            k = k + 1;
        }
        return Some(g);
    }
    proof {
        assert(has_dc(s@));
        let f = first_dc(s@);
        if f != i {
            assert(!dc_at(s@, f) || f >= i);
            assert(forall|j: int| 0 <= j < f ==> !dc_at(s@, j));
        }
        assert(first_dc(s@) == i);
    }
    assert(dc_at(s@, i as int));
    let a = copy_range(s, 0, i);
    let n = s.len();
    assert(i + 2 <= n);
    let b = copy_range(s, i + 2, n);
    let va = match group_values(a.as_slice()) {
        Some(v) => v,
        None => return None,
    };
    let vb = match group_values(b.as_slice()) {
        Some(v) => v,
        None => return None,
    };
    if va.len() > 7 || vb.len() > 7 - va.len() {
        return None;
    }
    let ghost ga = groups_of(a@);
    let ghost gb = groups_of(b@);
    let ghost want = ipv6_groups(s@);
    let gap = 8 - va.len() - vb.len();
    proof {
        assert(want == ga + Seq::new((8 - ga.len() - gb.len()) as nat, |k: int| 0int) + gb);
    }
    let mut k: usize = 0;
    while k < va.len()
        invariant
            want == ga + Seq::new(gap as nat, |k: int| 0int) + gb,
            va@.len() == ga.len(),
            vb@.len() == gb.len(),
            gap == 8 - va@.len() - vb@.len(),
            k <= va@.len(),
            forall|j: int| 0 <= j < k ==> g[j] as int == want[j],
            forall|j: int| 0 <= j < va@.len() ==> va@[j] as int == #[trigger] ga[j],
        decreases va@.len() - k,
    {
        g[k] = va[k];
        k = k + 1;
    }
    while k < va.len() + gap
        invariant
            want == ga + Seq::new(gap as nat, |k: int| 0int) + gb,
            va@.len() == ga.len(),
            vb@.len() == gb.len(),
            gap == 8 - va@.len() - vb@.len(),
            va@.len() <= k <= va@.len() + gap,
            forall|j: int| 0 <= j < k ==> g[j] as int == want[j],
        decreases va@.len() + gap - k,
    {
        g[k] = 0;
        k = k + 1;
    }
    while k < 8
        invariant
            want == ga + Seq::new(gap as nat, |k: int| 0int) + gb,
            va@.len() == ga.len(),
            vb@.len() == gb.len(),
            gap == 8 - va@.len() - vb@.len(),
            va@.len() + gap <= k <= 8,
            forall|j: int| 0 <= j < k ==> g[j] as int == want[j],
            forall|j: int| 0 <= j < vb@.len() ==> vb@[j] as int == #[trigger] gb[j],
        decreases 8 - k,
    {
        g[k] = vb[k - va.len() - gap];
        k = k + 1;
    }
    Some(g)
}

/// Text of an IPv4 or an IPv6 address.
pub open spec fn ip_ok(s: Seq<u8>) -> bool {
    ipv4_ok(s) || ipv6_ok(s)
}

/// The address that valid address text gives.
pub open spec fn ip_of(s: Seq<u8>) -> IpAddr {
    if ipv4_ok(s) {
        IpAddr::V4(ipv4_of(s))
    } else {
        IpAddr::V6(groups_array(ipv6_groups(s)))
    }
}

/// The first eight groups, as an address's group array.
pub open spec fn groups_array(w: Seq<int>) -> [u16; 8] {
    [w[0] as u16, w[1] as u16, w[2] as u16, w[3] as u16, w[4] as u16, w[5] as u16, w[6] as u16, w[7] as u16]
}

/// Reads an IPv4 address written `a.b.c.d`, or an IPv6 address.
#[verifier::rlimit(80)]
pub fn parse_ip(s: &[u8]) -> (r: Option<IpAddr>)
    ensures
        r is Some <==> ip_ok(s@),
        r matches Some(a) ==> a == ip_of(s@),
{
    match parse_ipv4(s) {
        Some(a) => Some(IpAddr::V4(a)),
        None => match parse_ipv6(s) {
            Some(g) => {
                proof {
                    let w = ipv6_groups(s@);
                    let arr = groups_array(w);
                    assert forall|k: int| 0 <= k < 8 implies g[k] == arr[k] by {
                        assert(g[k] as int == w[k]);
                    }
                    assert(g =~= arr);
                }
                Some(IpAddr::V6(g))
            },
            None => None,
        },
    }
}

} // verus!
