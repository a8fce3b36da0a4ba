//! A rule-driven DNS router: domain and hosts matchers over a reverse-label
//! trie, a routing table validated to be finite, connected and free of
//! recursion, the walk that routes a query through it, and the response cache
//! of an upstream.
use vstd::prelude::*;

pub mod name;
pub mod trie;
pub mod ip;
pub mod hosts;
pub mod domain;
pub mod matcher;
pub mod table;
pub mod utils;
pub mod parsed;
pub mod cache;
pub mod ipcidr;
pub mod upstreams;
pub mod answer;

verus! {

} // verus!
