//! TLS ClientHello fragmentation.
//!
//! One ClientHello record is re-framed as two TLS records: the first carries
//! only the first three bytes of the handshake message (its type and two of
//! its three length bytes), the second carries the rest, including the SNI.
//! A server reassembles the handshake from both records; a DPI box that looks
//! for the SNI in the first record finds none.

use vstd::prelude::*;
use crate::bytes::append_bytes;

verus! {

/// The record type of a TLS handshake record.
pub const CONTENT_TYPE_HANDSHAKE: u8 = 0x16;

/// `d` starts with a TLS handshake record whose first message is a ClientHello.
pub open spec fn spec_is_client_hello(d: Seq<u8>) -> bool {
    &&& d.len() > 9
    &&& d[0] == 0x16
    &&& d[1] == 0x03
    &&& d[5] == 0x01
}

/// A TLS 1.0-versioned handshake record carrying `p`; the 16-bit length
/// field holds `p.len()` modulo 2^16.
pub open spec fn spec_record(p: Seq<u8>) -> Seq<u8> {
    seq![0x16u8, 0x03u8, 0x01u8, ((p.len() / 256) % 256) as u8, (p.len() % 256) as u8] + p
}

/// Where the fallback split of non-ClientHello data cuts it.
pub open spec fn spec_fallback_cut(len: nat) -> int {
    if len == 0 { 0 } else if len - 1 < 3 { len - 1 } else { 3 }
}

/// The two pieces `split_into_records` produces.
pub open spec fn spec_split(d: Seq<u8>) -> (Seq<u8>, Seq<u8>) {
    if !spec_is_client_hello(d) {
        let cut = spec_fallback_cut(d.len());
        (d.subrange(0, cut), d.subrange(cut, d.len() as int))
    } else {
        let payload = d.subrange(5, d.len() as int);
        (spec_record(payload.subrange(0, 3)), spec_record(payload.subrange(3, payload.len() as int)))
    }
}

/// True when `data` starts with a TLS handshake record holding a ClientHello.
pub fn is_client_hello(data: &[u8]) -> (r: bool)
    ensures
        r == spec_is_client_hello(data@),
{
    data.len() > 9 && data[0] == 0x16 && data[1] == 0x03 && data[5] == 0x01
}

/// Split one TLS ClientHello into two TLS records; anything else is cut
/// after at most three bytes, as a plain TCP-level split.
pub fn split_into_records(data: &[u8]) -> (r: (Vec<u8>, Vec<u8>))
    ensures
        (r.0@, r.1@) == spec_split(data@),
{
    if !is_client_hello(data) || data.len() <= 5 {
        let cut: usize = if data.len() == 0 { 0 } else if data.len() - 1 < 3 { data.len() - 1 } else { 3 };
        let mut a: Vec<u8> = Vec::new();
        let mut b: Vec<u8> = Vec::new();
        append_bytes(&mut a, &data[0..cut]);
        append_bytes(&mut b, &data[cut..data.len()]);
        return (a, b);
    }
    let payload = &data[5..data.len()];
    let cut: usize = 3;
    let r1 = build_record(&payload[0..cut]);
    let r2 = build_record(&payload[cut..payload.len()]);
    (r1, r2)
}

/// Frame `payload` as one TLS handshake record.
fn build_record(payload: &[u8]) -> (r: Vec<u8>)
    ensures
        r@ == spec_record(payload@),
{
    let n = payload.len();
    let mut r: Vec<u8> = Vec::new();
    r.push(0x16);
    r.push(0x03);
    r.push(0x01);
    r.push(((n / 256) % 256) as u8);
    r.push((n % 256) as u8);
    append_bytes(&mut r, payload);
    r
}

/// Reassembly: for a ClientHello, the payloads of the two records, read in
/// order, are exactly the handshake bytes of the original record, and the
/// first record holds only three of them.
pub proof fn lemma_split_reassembles(d: Seq<u8>)
    requires
        spec_is_client_hello(d),
    ensures
        spec_split(d).0.subrange(5, spec_split(d).0.len() as int)
            + spec_split(d).1.subrange(5, spec_split(d).1.len() as int)
            == d.subrange(5, d.len() as int),
        spec_split(d).0.len() == 8,
        spec_split(d).0.len() < d.len(),
{
    let payload = d.subrange(5, d.len() as int);
    let (r1, r2) = spec_split(d);
    assert(r1.subrange(5, r1.len() as int) =~= payload.subrange(0, 3));
    assert(r2.subrange(5, r2.len() as int) =~= payload.subrange(3, payload.len() as int));
    assert(payload.subrange(0, 3) + payload.subrange(3, payload.len() as int) =~= payload);
}

/// Both records of a ClientHello split are well-formed TLS handshake
/// records: type 0x16, version 3.1, and a length field equal to the number
/// of payload bytes that follow.
pub proof fn lemma_split_records_well_formed(d: Seq<u8>)
    requires
        spec_is_client_hello(d),
        d.len() < 65536 + 5,
    ensures
        spec_split(d).0[0] == CONTENT_TYPE_HANDSHAKE,
        spec_split(d).1[0] == CONTENT_TYPE_HANDSHAKE,
        spec_split(d).0[1] == 0x03 && spec_split(d).1[1] == 0x03,
        spec_split(d).0[3] as int * 256 + spec_split(d).0[4] as int == spec_split(d).0.len() - 5,
        spec_split(d).1[3] as int * 256 + spec_split(d).1[4] as int == spec_split(d).1.len() - 5,
{
    let payload = d.subrange(5, d.len() as int);
    let rest = payload.subrange(3, payload.len() as int);
    let n = rest.len();
    assert(n < 65536);
    assert((n / 256) % 256 == n / 256) by (nonlinear_arith) requires n < 65536;
    assert((n / 256) * 256 + n % 256 == n) by (nonlinear_arith);
}

/// Data that is not a ClientHello is split into two pieces that, joined,
/// give back the input unchanged.
pub proof fn lemma_fallback_split_concatenates(d: Seq<u8>)
    requires
        !spec_is_client_hello(d),
    ensures
        spec_split(d).0 + spec_split(d).1 == d,
        spec_split(d).0.len() <= 3,
{
    let cut = spec_fallback_cut(d.len());
    assert(d.subrange(0, cut) + d.subrange(cut, d.len() as int) =~= d);
}

/// A ClientHello is recognised by its length and bytes 0, 1 and 5 alone,
/// whatever its record length says: any `d` longer than 9 bytes with
/// `d[0] == 0x16`, `d[1] == 0x03` and `d[5] == 0x01` is split into a first
/// record of 8 bytes holding the handshake's first 3 bytes and a second
/// record holding the rest of it, `d.len() - 3` bytes in all.
pub proof fn lemma_client_hello_by_bytes(d: Seq<u8>)
    requires
        d.len() > 9,
        d[0] == 0x16u8,
        d[1] == 0x03u8,
        d[5] == 0x01u8,
    ensures
        spec_is_client_hello(d),
        spec_split(d).0 == seq![0x16u8, 0x03u8, 0x01u8, 0x00u8, 0x03u8] + d.subrange(5, 8),
        spec_split(d).1.len() == d.len() - 3,
        spec_split(d).1.subrange(0, 3) == seq![0x16u8, 0x03u8, 0x01u8],
        spec_split(d).1.subrange(5, spec_split(d).1.len() as int) == d.subrange(8, d.len() as int),
{
    let payload = d.subrange(5, d.len() as int);
    assert(payload.subrange(0, 3) =~= d.subrange(5, 8));
    assert(payload.subrange(3, payload.len() as int) =~= d.subrange(8, d.len() as int));
    let (r1, r2) = spec_split(d);
    assert(r1 =~= seq![0x16u8, 0x03u8, 0x01u8, 0x00u8, 0x03u8] + d.subrange(5, 8));
    assert(r2.subrange(0, 3) =~= seq![0x16u8, 0x03u8, 0x01u8]);
    assert(r2.subrange(5, r2.len() as int) =~= d.subrange(8, d.len() as int));
}

} // verus!
