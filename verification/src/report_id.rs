//! The identifier of a report: a digest of kind, time slot and offender.

use vstd::prelude::*;
use crate::types::{Kind, ReportId};

verus! {

/// The Blake2b digest of 256 bits of a byte string.
pub uninterp spec fn spec_blake2_256(data: Seq<u8>) -> [u8; 32];

/// The compact encoding of a length below 2^32: the two low bits of the first
/// byte tell how many bytes follow, the rest holds the number, low byte first.
pub open spec fn spec_compact_len(n: nat) -> Seq<u8> {
    if n < 0x40 {
        seq![(4 * n) as u8]
    } else if n < 0x4000 {
        let v = 4 * n + 1;
        seq![(v % 256) as u8, (v / 256) as u8]
    } else if n < 0x4000_0000 {
        let v = 4 * n + 2;
        seq![
            (v % 256) as u8,
            (v / 0x100 % 256) as u8,
            (v / 0x1_0000 % 256) as u8,
            (v / 0x100_0000) as u8,
        ]
    } else {
        seq![
            3u8,
            (n % 256) as u8,
            (n / 0x100 % 256) as u8,
            (n / 0x1_0000 % 256) as u8,
            (n / 0x100_0000 % 256) as u8,
        ]
    }
}

/// The bytes that a report is digested from: the kind as it is, the time slot
/// behind its length, and the offender as it is.
pub open spec fn spec_encoded_report(kind: Kind, time_slot: Seq<u8>, offender: Seq<u8>) -> Seq<u8> {
    kind@ + spec_compact_len(time_slot.len()) + time_slot + offender
}

/// The identifier of the report of one offender for one kind and time slot.
pub open spec fn spec_report_id(kind: Kind, time_slot: Seq<u8>, offender: Seq<u8>) -> ReportId {
    spec_blake2_256(spec_encoded_report(kind, time_slot, offender))
}

/// Calls `Encode::encode` of `parity_scale_codec` on the pair of a kind and a
/// byte vector. Trusted: the pair is encoded field after field, the byte array
/// as its bytes, the byte vector as its compact length and then its bytes. The
/// encoder gives up on a vector of 2^32 bytes or more, so those are left out.
#[verifier::external_body]
pub(crate) fn encode_slot(kind: &Kind, time_slot: &Vec<u8>) -> (encoded: Vec<u8>)
    requires
        time_slot@.len() <= u32::MAX,
    ensures
        encoded@ == kind@ + spec_compact_len(time_slot@.len()) + time_slot@,
{
    parity_scale_codec::Encode::encode(&(kind, time_slot))
}

/// Calls `Hash::hash` of `sp_runtime` for `BlakeTwo256` and takes the bytes out
/// of the `H256` that it returns. Trusted: the digest depends on the input
/// bytes alone.
#[verifier::external_body]
pub(crate) fn blake2_256(data: &[u8]) -> (digest: [u8; 32])
    ensures
        digest == spec_blake2_256(data@),
{
    <sp_runtime::traits::BlakeTwo256 as sp_runtime::traits::Hash>::hash(data).0
}

/// The number that four bytes hold, low byte first.
pub open spec fn spec_le_u32(b0: u8, b1: u8, b2: u8, b3: u8) -> int {
    b0 + 0x100 * b1 + 0x1_0000 * b2 + 0x100_0000 * b3
}

/// The length that a compact encoding stands for.
pub open spec fn spec_compact_len_value(bytes: Seq<u8>) -> int {
    if bytes.len() == 1 {
        bytes[0] as int / 4
    } else if bytes.len() == 2 {
        spec_le_u32(bytes[0], bytes[1], 0, 0) / 4
    } else if bytes.len() == 4 {
        spec_le_u32(bytes[0], bytes[1], bytes[2], bytes[3]) / 4
    } else {
        spec_le_u32(bytes[1], bytes[2], bytes[3], bytes[4])
    }
}

/// A number below 2^32 is the sum of its four bytes, each at its place.
proof fn lemma_le_u32(v: u32)
    ensures
        v == spec_le_u32(
            (v % 256) as u8,
            (v / 0x100 % 256) as u8,
            (v / 0x1_0000 % 256) as u8,
            (v / 0x100_0000) as u8,
        ),
{
    let b0 = v % 256;
    let b1 = v / 0x100 % 256;
    let b2 = v / 0x1_0000 % 256;
    let b3 = v / 0x100_0000;
    assert(b0 < 256 && b1 < 256 && b2 < 256 && b3 < 256 && v == b0 + 0x100 * b1 + 0x1_0000 * b2
        + 0x100_0000 * b3) by (bit_vector)
        requires
            b0 == v % 256,
            b1 == v / 0x100 % 256,
            b2 == v / 0x1_0000 % 256,
            b3 == v / 0x100_0000,
    ;
}

/// A length below 2^32 can be read back from its compact encoding.
pub proof fn lemma_compact_len_value(n: nat)
    requires
        n <= u32::MAX,
    ensures
        spec_compact_len_value(spec_compact_len(n)) == n,
{
    if n < 0x40 {
    } else if n < 0x4000 {
        let v = (4 * n + 1) as u32;
        lemma_le_u32(v);
        assert(v / 0x100 < 256);
        assert(v / 0x1_0000 == 0);
        assert(v / 0x100_0000 == 0);
    } else if n < 0x4000_0000 {
        let v = (4 * n + 2) as u32;
        lemma_le_u32(v);
    } else {
        lemma_le_u32(n as u32);
        assert(n as u32 / 0x100_0000 < 256);
    }
}

/// Two lengths below 2^32 with the same compact encoding are the same length.
pub proof fn lemma_compact_len_injective(n: nat, m: nat)
    requires
        n <= u32::MAX,
        m <= u32::MAX,
        spec_compact_len(n) == spec_compact_len(m),
    ensures
        n == m,
{
    lemma_compact_len_value(n);
    lemma_compact_len_value(m);
}

/// A compact encoding is never the beginning of another: of two encodings of
/// lengths below 2^32, laid at the head of two byte strings that agree, the
/// first byte tells how long both are.
pub proof fn lemma_compact_len_prefix(n: nat, m: nat)
    requires
        n <= u32::MAX,
        m <= u32::MAX,
        spec_compact_len(n)[0] == spec_compact_len(m)[0],
    ensures
        spec_compact_len(n).len() == spec_compact_len(m).len(),
{
    let a = spec_compact_len(n)[0];
    let b = spec_compact_len(m)[0];
    let class_n: int = if n < 0x40 { 0 } else if n < 0x4000 { 1 } else if n < 0x4000_0000 { 2 } else { 3 };
    let class_m: int = if m < 0x40 { 0 } else if m < 0x4000 { 1 } else if m < 0x4000_0000 { 2 } else { 3 };
    assert(a as int % 4 == class_n);
    assert(b as int % 4 == class_m);
}

/// The bytes that a report is digested from tell the kind, the time slot and the
/// offender apart: two triples with the same bytes are the same triple.
pub proof fn lemma_encoded_report_injective(
    kind: Kind,
    time_slot: Seq<u8>,
    offender: Seq<u8>,
    kind2: Kind,
    time_slot2: Seq<u8>,
    offender2: Seq<u8>,
)
    requires
        time_slot.len() <= u32::MAX,
        time_slot2.len() <= u32::MAX,
        spec_encoded_report(kind, time_slot, offender) == spec_encoded_report(
            kind2,
            time_slot2,
            offender2,
        ),
    ensures
        kind == kind2,
        time_slot == time_slot2,
        offender == offender2,
{
    let e = spec_encoded_report(kind, time_slot, offender);
    let e2 = spec_encoded_report(kind2, time_slot2, offender2);
    let c = spec_compact_len(time_slot.len());
    let c2 = spec_compact_len(time_slot2.len());
    assert forall|i: int| 0 <= i < 16 implies kind[i] == kind2[i] by {
        assert(e[i] == kind@[i]);
        assert(e2[i] == kind2@[i]);
    }
    assert(kind =~= kind2);
    assert(e[16] == c[0]);
    assert(e2[16] == c2[0]);
    lemma_compact_len_prefix(time_slot.len(), time_slot2.len());
    assert forall|i: int| 0 <= i < c.len() implies c[i] == c2[i] by {
        assert(e[16 + i] == c[i]);
        assert(e2[16 + i] == c2[i]);
    }
    assert(c =~= c2);
    lemma_compact_len_injective(time_slot.len(), time_slot2.len());
    let head = 16 + c.len();
    assert forall|i: int| 0 <= i < time_slot.len() implies time_slot[i] == time_slot2[i] by {
        assert(e[head + i] == time_slot[i]);
        assert(e2[head + i] == time_slot2[i]);
    }
    assert(time_slot =~= time_slot2);
    assert(e.len() == head + time_slot.len() + offender.len());
    assert(e2.len() == head + time_slot2.len() + offender2.len());
    assert forall|i: int| 0 <= i < offender.len() implies offender[i] == offender2[i] by {
        assert(e[head + time_slot.len() + i] == offender[i]);
        assert(e2[head + time_slot.len() + i] == offender2[i]);
    }
    assert(offender =~= offender2);
}

} // verus!
