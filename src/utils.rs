//! The hosts matcher that rules use, and the hosts-file format.
use vstd::prelude::*;
use crate::hosts::{with_entry, Hosts as HostsAlg, MatchType};
use crate::ip::{ip_of, ip_ok, parse_ip, IpAddr};
use crate::name::{
    name_labels, parse_host_name, parse_name, rkey, split, split_bytes, valid_host_name, valid_name_text,
};
use crate::trie::key_view;
use vstd::string::StringSliceAdditionalSpecFns;

verus! {

/// Why hosts text was refused.
#[derive(Clone, Copy, Debug, PartialEq, Eq)]
pub enum HostsError {
    /// A name that does not spell a domain name.
    InvalidName,
    /// An address that is neither IPv4 `a.b.c.d` nor IPv6 text.
    InvalidIp,
    /// A name with no address after it.
    MissingIp,
}

pub open spec fn is_ws(b: u8) -> bool {
    b == 32u8 || b == 9u8 || b == 10u8 || b == 11u8 || b == 12u8 || b == 13u8
}

/// The fields found so far and the field being read.
pub open spec fn fields_fold(s: Seq<u8>) -> (Seq<Seq<u8>>, Seq<u8>)
    decreases s.len(),
{
    if s.len() == 0 {
        (Seq::empty(), Seq::empty())
    } else {
        let (done, cur) = fields_fold(s.drop_last());
        if is_ws(s.last()) {
            if cur.len() > 0 {
                (done.push(cur), Seq::empty())
            } else {
                (done, cur)
            }
        } else {
            (done, cur.push(s.last()))
        }
    }
}

/// The runs of non-whitespace bytes of `s`.
pub open spec fn fields(s: Seq<u8>) -> Seq<Seq<u8>> {
    let (done, cur) = fields_fold(s);
    if cur.len() > 0 {
        done.push(cur)
    } else {
        done
    }
}

/// A name field of letters, digits, `-` and `.` only.
pub open spec fn name_field_ok(f: Seq<u8>) -> bool {
    forall|k: int| 0 <= k < f.len() ==> crate::name::is_name_byte(#[trigger] f[k]) || f[k] == 46u8
}

/// What one line of a hosts file says.
pub enum HostLine {
    Skip,
    Entry(Seq<Seq<u8>>, MatchType),
    Fail(HostsError),
}


/// One line: `name [!]ip`. Blank lines, and lines whose name field holds
/// other bytes (comments among them), say nothing; a name without an address
/// is refused; a leading `!` binds the name only.
pub open spec fn host_line(l: Seq<u8>) -> HostLine {
    let f = fields(l);
    if f.len() == 0 || !name_field_ok(f[0]) {
        HostLine::Skip
    } else if f.len() < 2 {
        HostLine::Fail(HostsError::MissingIp)
    } else {
        let server = f[1].len() > 0 && f[1][0] == 33u8;
        let ip = if server {
            f[1].drop_first()
        } else {
            f[1]
        };
        if !valid_name_text(f[0]) {
            HostLine::Fail(HostsError::InvalidName)
        } else if !ip_ok(ip) {
            HostLine::Fail(HostsError::InvalidIp)
        } else if server {
            HostLine::Entry(name_labels(f[0]), MatchType::Server(ip_of(ip)))
        } else {
            HostLine::Entry(name_labels(f[0]), MatchType::Subdomain(ip_of(ip)))
        }
    }
}

/// The entries of hosts lines, or the error of the first line that fails.
pub open spec fn hosts_config(lines: Seq<Seq<u8>>) -> Result<Seq<(Seq<Seq<u8>>, MatchType)>, HostsError>
    decreases lines.len(),
{
    if lines.len() == 0 {
        Ok(Seq::empty())
    } else {
        match hosts_config(lines.drop_last()) {
            Err(e) => Err(e),
            Ok(v) => match host_line(lines.last()) {
                HostLine::Skip => Ok(v),
                HostLine::Entry(n, t) => Ok(v.push((n, t))),
                HostLine::Fail(e) => Err(e),
            },
        }
    }
}

/// The entries as plain values.
pub open spec fn entries_view(v: Seq<(Vec<Vec<u8>>, MatchType)>) -> Seq<(Seq<Seq<u8>>, MatchType)> {
    v.map_values(|e: (Vec<Vec<u8>>, MatchType)| (key_view(e.0@), e.1))
}

/// A hosts table after each entry is inserted in turn.
pub open spec fn with_entries(m: Map<Seq<Seq<u8>>, MatchType>, v: Seq<(Seq<Seq<u8>>, MatchType)>) -> Map<
    Seq<Seq<u8>>,
    MatchType,
>
    decreases v.len(),
{
    if v.len() == 0 {
        m
    } else {
        with_entry(with_entries(m, v.drop_last()), rkey(v.last().0), v.last().1)
    }
}

/// The runs of non-whitespace bytes of `s`.
pub fn split_fields(s: &[u8]) -> (r: Vec<Vec<u8>>)
    ensures
        key_view(r@) == fields(s@),
{
    let mut done: Vec<Vec<u8>> = Vec::new();
    let mut cur: Vec<u8> = Vec::new();
    let mut i: usize = 0;
    while i < s.len()
        invariant
            i <= s@.len(),
            fields_fold(s@.take(i as int)) == (key_view(done@), cur@),
        decreases s@.len() - i,
    {
        assert(s@.take(i + 1).drop_last() =~= s@.take(i as int));
        let b = s[i];
        if b == 32 || b == 9 || b == 10 || b == 11 || b == 12 || b == 13 {
            if cur.len() > 0 {
                assert(key_view(done@.push(cur)) =~= key_view(done@).push(cur@));
                done.push(cur);
                cur = Vec::new();
            }
        } else {
            cur.push(b);
        }
        i = i + 1;
    }
    assert(s@.take(s@.len() as int) =~= s@);
    if cur.len() > 0 {
        assert(key_view(done@.push(cur)) =~= key_view(done@).push(cur@));
        done.push(cur);
    }
    done
}

fn is_name_field(f: &Vec<u8>) -> (r: bool)
    ensures
        r == name_field_ok(f@),
{
    let mut k: usize = 0;
    while k < f.len()
        invariant
            k <= f@.len(),
            forall|j: int| 0 <= j < k ==> crate::name::is_name_byte(#[trigger] f@[j]) || f@[j] == 46u8,
        decreases f@.len() - k,
    {
        if !crate::name::is_name_char(f[k]) && f[k] != 46 {
            return false;
        }
        k = k + 1;
    }
    true
}

/// Reads one line of a hosts file.
fn parse_line(l: &Vec<u8>) -> (r: Result<Option<(Vec<Vec<u8>>, MatchType)>, HostsError>)
    ensures
        match host_line(l@) {
            HostLine::Skip => r == Ok::<Option<(Vec<Vec<u8>>, MatchType)>, HostsError>(None),
            HostLine::Entry(n, t) => r matches Ok(Some(e)) && key_view(e.0@) == n && e.1 == t,
            HostLine::Fail(e) => r == Err::<Option<(Vec<Vec<u8>>, MatchType)>, HostsError>(e),
        },
{
    let f = split_fields(l.as_slice());
    let ghost fs = fields(l@);
    if f.len() == 0 {
        return Ok(None);
    }
    assert(f@[0]@ == fs[0]);
    if !is_name_field(&f[0]) {
        return Ok(None);
    }
    if f.len() < 2 {
        return Err(HostsError::MissingIp);
    }
    assert(f@[1]@ == fs[1]);
    let ipf = &f[1];
    let server = ipf.len() > 0 && ipf[0] == 33;
    let ip_text: Vec<u8> = if server {
        crate::name::copy_range(ipf.as_slice(), 1, ipf.len())
    } else {
        crate::name::copy_range(ipf.as_slice(), 0, ipf.len())
    };
    assert(ipf@.subrange(0, ipf@.len() as int) =~= ipf@);
    assert(server ==> ipf@.subrange(1, ipf@.len() as int) =~= ipf@.drop_first());
    let labels = match parse_name(f[0].as_slice()) {
        Some(v) => v,
        None => return Err(HostsError::InvalidName),
    };
    let a = match parse_ip(ip_text.as_slice()) {
        Some(a) => a,
        None => return Err(HostsError::InvalidIp),
    };
    if server {
        Ok(Some((labels, MatchType::Server(a))))
    } else {
        Ok(Some((labels, MatchType::Subdomain(a))))
    }
}

/// Reads hosts text: one `name [!]ip` on each line.
pub fn into_hosts_config(list: &[u8]) -> (r: Result<Vec<(Vec<Vec<u8>>, MatchType)>, HostsError>)
    ensures
        match hosts_config(split(list@, 10u8)) {
            Ok(v) => r matches Ok(x) && entries_view(x@) == v,
            Err(e) => r == Err::<Vec<(Vec<Vec<u8>>, MatchType)>, HostsError>(e),
        },
{
    let lines = split_bytes(list, 10);
    let ghost ls = split(list@, 10u8);
    let mut cfg: Vec<(Vec<Vec<u8>>, MatchType)> = Vec::new();
    let mut i: usize = 0;
    assert(ls.take(0) =~= Seq::<Seq<u8>>::empty());
    assert(entries_view(cfg@) =~= Seq::<(Seq<Seq<u8>>, MatchType)>::empty());
    while i < lines.len()
        invariant
            key_view(lines@) == ls,
            ls == split(list@, 10u8),
            i <= lines@.len(),
            hosts_config(ls.take(i as int)) == Ok::<Seq<(Seq<Seq<u8>>, MatchType)>, HostsError>(
                entries_view(cfg@),
            ),
        decreases lines@.len() - i,
    {
        assert(ls.take(i + 1).drop_last() =~= ls.take(i as int));
        assert(lines@[i as int]@ == ls[i as int]);
        match parse_line(&lines[i]) {
            Err(e) => {
                proof {
                    assert(ls.take(i + 1).last() == ls[i as int]);
                    assert(host_line(ls[i as int]) == HostLine::Fail(e));
                    assert(hosts_config(ls.take(i + 1)) == Err::<Seq<(Seq<Seq<u8>>, MatchType)>, HostsError>(e));
                    lemma_config_err_stays(ls, (i + 1) as int, e);
                    assert(ls.take(ls.len() as int) =~= ls);
                }
                return Err(e);
            },
            Ok(None) => {},
            Ok(Some(e)) => {
                let ghost before = cfg@;
                cfg.push(e);
                assert(entries_view(cfg@) =~= entries_view(before).push((key_view(e.0@), e.1)));
            },
        }
        i = i + 1;
    }
    assert(ls.take(ls.len() as int) =~= ls);
    Ok(cfg)
}

proof fn lemma_config_err_stays(ls: Seq<Seq<u8>>, i: int, e: HostsError)
    requires
        0 <= i <= ls.len(),
        hosts_config(ls.take(i)) == Err::<Seq<(Seq<Seq<u8>>, MatchType)>, HostsError>(e),
    ensures
        hosts_config(ls) == Err::<Seq<(Seq<Seq<u8>>, MatchType)>, HostsError>(e),
    decreases ls.len() - i,
{
    if i < ls.len() {
        assert(ls.take(i + 1).drop_last() =~= ls.take(i));
        lemma_config_err_stays(ls, i + 1, e);
    } else {
        assert(ls.take(i) =~= ls);
    }
}

/// The hosts matcher of rules.
pub struct Hosts(HostsAlg);

impl Default for Hosts {
    fn default() -> (r: Self)
        ensures
            r.wf(),
            r@ == Map::<Seq<Seq<u8>>, MatchType>::empty(),
    {
        Hosts::new()
    }
}

impl Hosts {
    pub closed spec fn view(&self) -> Map<Seq<Seq<u8>>, MatchType> {
        self.0@
    }

    pub closed spec fn wf(&self) -> bool {
        self.0.wf()
    }

    /// An empty matcher.
    pub fn new() -> (r: Self)
        ensures
            r.wf(),
            r@ == Map::<Seq<Seq<u8>>, MatchType>::empty(),
    {
        Hosts(HostsAlg::new())
    }

    /// Binds the name `s`, printable ASCII without escapes, to the address
    /// `ip` (IPv4 or IPv6), that name alone where
    /// `is_server` holds, else that name and the names below it.
    pub fn add_host(&mut self, s: &str, ip: &str, is_server: bool) -> (r: Result<(), HostsError>)
        requires
            old(self).wf(),
        ensures
            final(self).wf(),
            !valid_host_name(s.spec_bytes()) ==> r == Err::<(), HostsError>(HostsError::InvalidName)
                && final(self)@ == old(self)@,
            valid_host_name(s.spec_bytes()) && !ip_ok(ip.spec_bytes()) ==> r == Err::<(), HostsError>(
                HostsError::InvalidIp,
            ) && final(self)@ == old(self)@,
            valid_host_name(s.spec_bytes()) && ip_ok(ip.spec_bytes()) ==> r is Ok && final(self)@
                == with_entry(
                old(self)@,
                rkey(name_labels(s.spec_bytes())),
                if is_server {
                    MatchType::Server(ip_of(ip.spec_bytes()))
                } else {
                    MatchType::Subdomain(ip_of(ip.spec_bytes()))
                },
            ),
    {
        let domain = match parse_host_name(s.as_bytes()) {
            Some(d) => d,
            None => return Err(HostsError::InvalidName),
        };
        let a = match parse_ip(ip.as_bytes()) {
            Some(a) => a,
            None => return Err(HostsError::InvalidIp),
        };
        let t = if is_server {
            MatchType::Server(a)
        } else {
            MatchType::Subdomain(a)
        };
        self.0.insert(&domain, &t);
        Ok(())
    }

    /// Adds every entry of hosts text, or none where a line fails.
    pub fn add_text(&mut self, data: &[u8]) -> (r: Result<(), HostsError>)
        requires
            old(self).wf(),
        ensures
            final(self).wf(),
            match hosts_config(split(data@, 10u8)) {
                Ok(v) => r is Ok && final(self)@ == with_entries(old(self)@, v),
                Err(e) => r == Err::<(), HostsError>(e) && final(self)@ == old(self)@,
            },
    {
        let cfg = match into_hosts_config(data) {
            Ok(c) => c,
            Err(e) => return Err(e),
        };
        let ghost v = entries_view(cfg@);
        let mut i: usize = 0;
        while i < cfg.len()
            invariant
                self.wf(),
                i <= cfg@.len(),
                v == entries_view(cfg@),
                self@ == with_entries(old(self)@, v.take(i as int)),
            decreases cfg@.len() - i,
        {
            assert(v.take(i + 1).drop_last() =~= v.take(i as int));
            self.0.insert(&cfg[i].0, &cfg[i].1);
            i = i + 1;
        }
        assert(v.take(v.len() as int) =~= v);
        Ok(())
    }

    /// The address bound to `qname`.
    pub fn reslove(&self, qname: &Vec<Vec<u8>>) -> (r: Option<IpAddr>)
        requires
            self.wf(),
        ensures
            r == crate::hosts::resolve(self@, rkey(key_view(qname@))),
    {
        self.0.matches(qname)
    }
}

} // verus!
