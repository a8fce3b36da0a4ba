//! Predicates over a query, and the actions a branch takes.
use vstd::prelude::*;
use crate::domain::{suffix_match, Domain};
use crate::hosts::{resolve, Hosts};
use crate::ip::IpAddr;
use crate::ipcidr::{in_cidr, IpCidr};
use crate::name::rkey;
use crate::trie::key_view;

verus! {

/// Who sent a query.
#[derive(Clone, Copy, Debug, PartialEq, Eq)]
pub struct QueryContext {
    /// The sender's address.
    pub ip: IpAddr,
}

/// What matchers read of a query: its first question and who sent it.
pub struct QueryInfo {
    /// The labels of the queried name, top-level label last.
    pub name: Vec<Vec<u8>>,
    pub qtype: u16,
    pub qclass: u16,
    pub ctx: Option<QueryContext>,
}

impl QueryInfo {
    /// The sender's address, where it is known.
    pub open spec fn client(&self) -> Option<IpAddr> {
        match self.ctx {
            Some(c) => Some(c.ip),
            None => None,
        }
    }
}

/// A predicate over a query.
pub enum Matcher {
    /// Always matches.
    Any,
    /// The queried name has a suffix in the set.
    Domain(Domain),
    /// The hosts table binds the queried name.
    Hosts(Hosts),
    /// The query asks for this record type.
    QType(u16),
    /// The query comes from an address in the set.
    IpCidr(IpCidr),
    Not(Box<Matcher>),
    And(Box<Matcher>, Box<Matcher>),
    Or(Box<Matcher>, Box<Matcher>),
}

/// How a query to an upstream uses its cache.
#[derive(Clone, Copy, Debug, PartialEq, Eq, Structural)]
pub enum CacheMode {
    Disabled,
    Standard,
    Persistent,
}

impl Default for CacheMode {
    fn default() -> (r: Self)
        ensures
            r == CacheMode::Standard,
    {
        CacheMode::Standard
    }
}

/// One step of a branch.
#[derive(Clone, Debug, PartialEq, Eq)]
pub enum Action {
    /// Send the query to the named upstream, with its own cache mode or, where
    /// it gives none, the mode set last.
    Query(String, Option<CacheMode>),
    /// Answer with an empty response.
    Blackhole,
    /// Answer with one A record.
    FastAnswerA(u8, u8, u8, u8),
    /// Answer with one A or AAAA record, after the address family.
    FastAnswerIp(IpAddr),
    /// Set the cache mode for later queries that give none.
    SetCacheMode(CacheMode),
}

impl Matcher {
    pub open spec fn wf(&self) -> bool
        decreases self,
    {
        match self {
            Matcher::Domain(d) => d.wf(),
            Matcher::Hosts(h) => h.wf(),
            Matcher::Not(m) => m.wf(),
            Matcher::And(a, b) => a.wf() && b.wf(),
            Matcher::Or(a, b) => a.wf() && b.wf(),
            _ => true,
        }
    }

    /// Whether the matcher holds of a query with name `name` and type `qtype`
    /// from `client`.
    pub open spec fn holds(&self, name: Seq<Seq<u8>>, qtype: u16, client: Option<IpAddr>) -> bool
        decreases self,
    {
        match self {
            Matcher::Any => true,
            Matcher::Domain(d) => suffix_match(d@, rkey(name)),
            Matcher::Hosts(h) => resolve(h@, rkey(name)) is Some,
            Matcher::QType(t) => qtype == *t,
            Matcher::IpCidr(c) => match client {
                Some(ip) => exists|k: int| 0 <= k < c@.len() && in_cidr(ip, #[trigger] c@[k]),
                None => false,
            },
            Matcher::Not(m) => !m.holds(name, qtype, client),
            Matcher::And(a, b) => a.holds(name, qtype, client) && b.holds(name, qtype, client),
            Matcher::Or(a, b) => a.holds(name, qtype, client) || b.holds(name, qtype, client),
        }
    }

    pub fn matches(&self, q: &QueryInfo) -> (r: bool)
        requires
            self.wf(),
        ensures
            r == self.holds(key_view(q.name@), q.qtype, q.client()),
        decreases self,
    {
        match self {
            Matcher::Any => true,
            Matcher::Domain(d) => d.matches(&q.name),
            Matcher::Hosts(h) => h.matches(&q.name).is_some(),
            Matcher::QType(t) => q.qtype == *t,
            Matcher::IpCidr(c) => match &q.ctx {
                Some(ctx) => c.contains(&ctx.ip),
                None => false,
            },
            Matcher::Not(m) => !m.matches(q),
            Matcher::And(a, b) => a.matches(q) && b.matches(q),
            Matcher::Or(a, b) => a.matches(q) || b.matches(q),
        }
    }
}

impl Action {
    /// The upstream that the action sends to, if any.
    pub open spec fn upstream(&self) -> Option<Seq<char>> {
        match self {
            Action::Query(u, _) => Some(u@),
            _ => None,
        }
    }
}

} // verus!
