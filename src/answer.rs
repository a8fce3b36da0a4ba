//! Synthesised answers: one record for the question of a query, built by the
//! `domain` crate's message builder.
use vstd::prelude::*;
use crate::ip::IpAddr;
use crate::ipcidr::{bytes_of, ip_bytes};
use domain::base::iana::{Class, Rcode, Rtype};
use domain::base::rdata::UnknownRecordData;
use domain::base::{Message, MessageBuilder};

verus! {

/// One answer record, less its owner name: type, class, time to live and data.
pub struct AnswerRecord {
    pub rtype: u16,
    pub class: u16,
    pub ttl: u32,
    pub rdata: Vec<u8>,
}

/// The response that the message builder makes of query bytes and one
/// answer record, or `None` where it refuses.
pub uninterp spec fn answer_of(query: Seq<u8>, rtype: u16, class: u16, ttl: u32, rdata: Seq<u8>) -> Option<Seq<u8>>;

/// Relies on `Message::from_octets`, `Message::first_question`,
/// `MessageBuilder::start_answer`, `AnswerBuilder::push` and
/// `AnswerBuilder::into_message` of `domain`, and `Header::set_ra`: the
/// answer to the query, recursion available, with one record owned by its
/// first question's name. The result depends on the arguments alone.
#[verifier::external_body]
fn build_answer(query: &Vec<u8>, rec: &AnswerRecord) -> (r: Option<Vec<u8>>)
    ensures
        match r {
            Some(m) => answer_of(query@, rec.rtype, rec.class, rec.ttl, rec.rdata@) == Some(m@),
            None => answer_of(query@, rec.rtype, rec.class, rec.ttl, rec.rdata@) is None,
        },
{
    let msg = Message::from_octets(query.clone()).ok()?;
    let question = msg.first_question()?;
    let mut builder = MessageBuilder::from_target(Vec::new()).ok()?.start_answer(&msg, Rcode::NoError).ok()?;
    let data = UnknownRecordData::from_octets(Rtype::from_int(rec.rtype), rec.rdata.clone());
    builder.header_mut().set_ra(true);
    builder.push((question.qname(), Class::from_int(rec.class), rec.ttl, data)).ok()?;
    Some(builder.into_message().into_octets())
}

/// The NXDOMAIN response that the message builder makes of query bytes, or
/// `None` where it refuses.
pub uninterp spec fn blackhole_of(query: Seq<u8>) -> Option<Seq<u8>>;

/// Relies on `Message::from_octets`, `MessageBuilder::start_answer` with
/// `Rcode::NXDomain`, `Header::set_ra` and `AnswerBuilder::into_message` of
/// `domain`: the answer to the query, recursion available, with no record.
/// The result depends on the query alone.
#[verifier::external_body]
fn build_blackhole(query: &Vec<u8>) -> (r: Option<Vec<u8>>)
    ensures
        match r {
            Some(m) => blackhole_of(query@) == Some(m@),
            None => blackhole_of(query@) is None,
        },
{
    let msg = Message::from_octets(query.clone()).ok()?;
    let mut builder = MessageBuilder::from_target(Vec::new()).ok()?.start_answer(&msg, Rcode::NXDomain).ok()?;
    builder.header_mut().set_ra(true);
    Some(builder.into_message().into_octets())
}

/// An NXDOMAIN response to `query` that answers nothing.
pub fn blackhole(query: &Vec<u8>) -> (r: Option<Vec<u8>>)
    ensures
        r is Some <==> blackhole_of(query@) is Some,
        r matches Some(m) ==> blackhole_of(query@) == Some(m@),
{
    build_blackhole(query)
}

/// The record type that answers with `ip`: A for IPv4, AAAA for IPv6.
pub open spec fn answer_rtype(ip: IpAddr) -> u16 {
    match ip {
        IpAddr::V4(_) => 1,
        IpAddr::V6(_) => 28,
    }
}

/// The answer to `query` that gives `ip`, class IN, for a day.
pub open spec fn fast_answer_of(query: Seq<u8>, ip: IpAddr) -> Option<Seq<u8>> {
    answer_of(query, answer_rtype(ip), 1, 86400, ip_bytes(ip))
}

/// The record that answers with `ip`.
pub fn fast_answer_record(ip: &IpAddr) -> (r: AnswerRecord)
    ensures
        r.class == 1,
        r.ttl == 86400,
        r.rdata@ == ip_bytes(*ip),
        r.rtype == answer_rtype(*ip),
{
    let rtype: u16 = match ip {
        IpAddr::V4(_) => 1,
        IpAddr::V6(_) => 28,
    };
    AnswerRecord { rtype, class: 1, ttl: 86400, rdata: bytes_of(ip) }
}

/// A NOERROR response to `query` with one A or AAAA record, after the address
/// family of `ip`, for the query's name, class IN and a time to live of a day.
pub fn fast_answer_ip(query: &Vec<u8>, ip: IpAddr) -> (r: Option<Vec<u8>>)
    ensures
        r is Some <==> fast_answer_of(query@, ip) is Some,
        r matches Some(m) ==> fast_answer_of(query@, ip) == Some(m@),
{
    let rec = fast_answer_record(&ip);
    build_answer(query, &rec)
}

/// A NOERROR response to `query` with one A record for `a.b.c.d`.
pub fn fast_answer(query: &Vec<u8>, a: u8, b: u8, c: u8, d: u8) -> (r: Option<Vec<u8>>)
    ensures
        r is Some <==> fast_answer_of(query@, IpAddr::V4([a, b, c, d])) is Some,
        r matches Some(m) ==> fast_answer_of(query@, IpAddr::V4([a, b, c, d])) == Some(m@),
{
    fast_answer_ip(query, IpAddr::V4([a, b, c, d]))
}

} // verus!
