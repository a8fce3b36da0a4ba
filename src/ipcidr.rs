//! Address prefixes, and sets of them.
use vstd::prelude::*;
use crate::ip::IpAddr;

verus! {

/// An address prefix: the addresses whose first `len` bits are those of `addr`.
#[derive(Clone, Copy, Debug, PartialEq, Eq)]
pub struct Cidr {
    pub addr: IpAddr,
    pub len: u8,
}

/// The bytes of an address in network order.
pub open spec fn ip_bytes(ip: IpAddr) -> Seq<u8> {
    match ip {
        IpAddr::V4(a) => seq![a[0], a[1], a[2], a[3]],
        IpAddr::V6(w) => Seq::new(
            16,
            |i: int|
                if i % 2 == 0 {
                    (w[i / 2] / 256) as u8
                } else {
                    (w[i / 2] % 256) as u8
                },
        ),
    }
}

/// `2` to the power `8 - r`, for `r` in `1..8`.
pub open spec fn low_span(r: int) -> int {
    if r == 1 {
        128
    } else if r == 2 {
        64
    } else if r == 3 {
        32
    } else if r == 4 {
        16
    } else if r == 5 {
        8
    } else if r == 6 {
        4
    } else {
        2
    }
}

/// The first `len` bits of `a` and `b` agree.
pub open spec fn prefix_eq(a: Seq<u8>, b: Seq<u8>, len: int) -> bool {
    &&& forall|k: int| 0 <= k < len / 8 ==> #[trigger] a[k] == b[k]
    &&& len % 8 != 0 ==> a[len / 8] as int / low_span(len % 8) == b[len / 8] as int / low_span(
        len % 8,
    )
}

/// The address lies in the prefix: same family, and its first bits agree.
pub open spec fn in_cidr(ip: IpAddr, c: Cidr) -> bool {
    &&& (ip is V4) == (c.addr is V4)
    &&& c.len <= 8 * ip_bytes(ip).len()
    &&& prefix_eq(ip_bytes(ip), ip_bytes(c.addr), c.len as int)
}

pub(crate) fn bytes_of(ip: &IpAddr) -> (r: Vec<u8>)
    ensures
        r@ == ip_bytes(*ip),
{
    match ip {
        IpAddr::V4(a) => {
            let mut r: Vec<u8> = Vec::new();
            r.push(a[0]);
            r.push(a[1]);
            r.push(a[2]);
            r.push(a[3]);
            assert(r@ =~= ip_bytes(*ip));
            r
        },
        IpAddr::V6(w) => {
            let mut r: Vec<u8> = Vec::new();
            let mut k: usize = 0;
            while k < 8
                invariant
                    k <= 8,
                    r@.len() == 2 * k,
                    forall|i: int| 0 <= i < 2 * k ==> r@[i] == ip_bytes(*ip)[i],
                    *ip == IpAddr::V6(*w),
                decreases 8 - k,
            {
                r.push((w[k] / 256) as u8);
                r.push((w[k] % 256) as u8);
                k = k + 1;
            }
            assert(r@ =~= ip_bytes(*ip));
            r
        },
    }
}

fn span(r: u8) -> (d: u8)
    requires
        1 <= r < 8,
    ensures
        d as int == low_span(r as int),
{
    if r == 1 {
        128
    } else if r == 2 {
        64
    } else if r == 3 {
        32
    } else if r == 4 {
        16
    } else if r == 5 {
        8
    } else if r == 6 {
        4
    } else {
        2
    }
}

/// Whether `ip` lies in the prefix `c`.
pub fn cidr_contains(c: &Cidr, ip: &IpAddr) -> (r: bool)
    ensures
        r == in_cidr(*ip, *c),
{
    let same = match (ip, &c.addr) {
        (IpAddr::V4(_), IpAddr::V4(_)) => true,
        (IpAddr::V6(_), IpAddr::V6(_)) => true,
        _ => false,
    };
    if !same {
        return false;
    }
    let a = bytes_of(ip);
    let b = bytes_of(&c.addr);
    assert(a@.len() == b@.len());
    if (c.len as usize) > 8 * a.len() {
        return false;
    }
    let whole = (c.len / 8) as usize;
    let mut k: usize = 0;
    while k < whole
        invariant
            whole == c.len / 8,
            a@ == ip_bytes(*ip),
            b@ == ip_bytes(c.addr),
            whole <= a@.len(),
            a@.len() == b@.len(),
            k <= whole,
            forall|j: int| 0 <= j < k ==> #[trigger] a@[j] == b@[j],
        decreases whole - k,
    {
        if a[k] != b[k] {
            assert(!prefix_eq(a@, b@, c.len as int)) by {
                assert(a@[k as int] != b@[k as int]);
            }
            return false;
        }
        k = k + 1;
    }
    let rem = c.len % 8;
    if rem != 0 {
        let d = span(rem);
        if a[whole] / d != b[whole] / d {
            return false;
        }
    }
    true
}

/// A set of address prefixes.
pub struct IpCidr {
    nets: Vec<Cidr>,
}

impl IpCidr {
    pub closed spec fn view(&self) -> Seq<Cidr> {
        self.nets@
    }

    /// An empty set.
    pub fn new() -> (r: Self)
        ensures
            r@ == Seq::<Cidr>::empty(),
    {
        IpCidr { nets: Vec::new() }
    }

    /// Adds a prefix; one longer than its family's addresses is refused.
    pub fn add(&mut self, c: Cidr) -> (r: bool)
        ensures
            r == (c.len <= 8 * ip_bytes(c.addr).len()),
            r ==> final(self)@ == old(self)@.push(c),
            !r ==> final(self)@ == old(self)@,
    {
        let max: u8 = match c.addr {
            IpAddr::V4(_) => 32,
            IpAddr::V6(_) => 128,
        };
        if c.len > max {
            return false;
        }
        self.nets.push(c);
        true
    }

    /// Whether some prefix of the set holds `ip`.
    pub fn contains(&self, ip: &IpAddr) -> (r: bool)
        ensures
            r == exists|k: int| 0 <= k < self@.len() && in_cidr(*ip, #[trigger] self@[k]),
    {
        let mut k: usize = 0;
        while k < self.nets.len()
            invariant
                k <= self.nets@.len(),
                forall|j: int| 0 <= j < k ==> !in_cidr(*ip, #[trigger] self.nets@[j]),
            decreases self.nets@.len() - k,
        {
            if cidr_contains(&self.nets[k], ip) {
                assert(in_cidr(*ip, self@[k as int]));
                return true;
            }
            k = k + 1;
        }
        false
    }
}

} // verus!
