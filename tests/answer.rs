use droute::answer::{blackhole, fast_answer, fast_answer_ip, fast_answer_record};
use droute::ip::IpAddr;

fn query() -> Vec<u8> {
    let mut q = vec![0x12, 0x34, 0x01, 0x00, 0, 1, 0, 0, 0, 0, 0, 0];
    q.extend_from_slice(b"\x03www\x07example\x03com\x00");
    q.extend_from_slice(&[0, 1, 0, 1]);
    q
}

#[test]
fn fast_answer_builds_a_record() {
    let q = query();
    let r = fast_answer(&q, 1, 2, 3, 4).unwrap();
    assert_ne!(r, q);
    assert_eq!(&r[0..2], &[0x12, 0x34]);
    assert!(r[2] & 0x80 != 0);
    assert!(r[2] & 0x01 != 0);
    assert!(r[3] & 0x80 != 0);
    assert_eq!(r[3] & 0x0f, 0);
    assert_eq!(&r[4..8], &[0, 1, 0, 1]);
    assert_eq!(&r[r.len() - 14..], &[0, 1, 0, 1, 0, 1, 0x51, 0x80, 0, 4, 1, 2, 3, 4]);
}

#[test]
fn fast_answer_ip_picks_aaaa_for_v6() {
    let q = query();
    let r = fast_answer_ip(&q, IpAddr::V6([0x2001, 0xdb8, 0, 0, 0, 0, 0, 1])).unwrap();
    assert_eq!(&r[r.len() - 26..r.len() - 16], &[0, 28, 0, 1, 0, 1, 0x51, 0x80, 0, 16]);
    assert_eq!(&r[r.len() - 16..], &[0x20, 0x01, 0x0d, 0xb8, 0, 0, 0, 0, 0, 0, 0, 0, 0, 0, 0, 1]);
    assert_eq!(fast_answer_ip(&q, IpAddr::V4([1, 2, 3, 4])), fast_answer(&q, 1, 2, 3, 4));
}

#[test]
fn fast_answer_refuses_short_query() {
    assert_eq!(fast_answer(&vec![0, 1, 2], 1, 2, 3, 4), None);
    let mut no_question = query();
    no_question.truncate(12);
    no_question[5] = 0;
    assert_eq!(fast_answer(&no_question, 1, 2, 3, 4), None);
}

#[test]
fn answer_record_fields() {
    let r = fast_answer_record(&IpAddr::V4([9, 9, 9, 9]));
    assert_eq!((r.rtype, r.class, r.ttl), (1, 1, 86400));
    assert_eq!(r.rdata, vec![9, 9, 9, 9]);
}

#[test]
fn blackhole_is_nxdomain() {
    let q = query();
    let r = blackhole(&q).unwrap();
    assert_eq!(&r[0..2], &[0x12, 0x34]);
    assert!(r[2] & 0x80 != 0);
    assert!(r[3] & 0x80 != 0);
    assert_eq!(r[3] & 0x0f, 3);
    assert_eq!(&r[4..12], &[0, 1, 0, 0, 0, 0, 0, 0]);
    assert_eq!(&r[12..], &q[12..]);
    assert_eq!(blackhole(&vec![1, 2]), None);
}
