//! The parts of the SCALE encoding that a chain's replies are read with.
use parity_scale_codec::Decode;
use vstd::arithmetic::power::{lemma_pow0, pow};
use vstd::prelude::*;

verus! {

/// Why the SCALE codec could not decode a value.
#[verifier::external_type_specification]
#[verifier::external_body]
pub struct ExCodecError(parity_scale_codec::Error);

/// The number that little-endian bytes stand for.
pub open spec fn le_value(bytes: Seq<u8>) -> nat
    decreases bytes.len(),
{
    if bytes.len() == 0 {
        0
    } else {
        bytes[0] as nat + 256 * le_value(bytes.drop_first())
    }
}

/// The lowest `n` bytes of `v`, least significant first.
pub open spec fn le_bytes(v: nat, n: nat) -> Seq<u8>
    decreases n,
{
    if n == 0 {
        seq![]
    } else {
        seq![(v % 256) as u8] + le_bytes(v / 256, (n - 1) as nat)
    }
}

/// Number of bytes that it takes to write `v`; zero takes one.
pub open spec fn byte_width(v: nat) -> nat
    decreases v,
{
    if v < 256 {
        1
    } else {
        1 + byte_width(v / 256)
    }
}

/// The compact encoding of `v`. The two lowest bits of the first byte tell how the rest is laid
/// out: in one, two or four bytes with the number shifted past those two bits, or in as many
/// bytes as the number takes behind a byte that counts them.
pub open spec fn compact(v: u64) -> Seq<u8> {
    if v < 0x40 {
        le_bytes((4 * v) as nat, 1)
    } else if v < 0x4000 {
        le_bytes((4 * v + 1) as nat, 2)
    } else if v < 0x4000_0000 {
        le_bytes((4 * v + 2) as nat, 4)
    } else {
        seq![(4 * (byte_width(v as nat) - 4) + 3) as u8] + le_bytes(
            v as nat,
            byte_width(v as nat),
        )
    }
}

/// The number whose compact encoding `bytes` starts with, if it starts with one.
pub open spec fn compact_value(bytes: Seq<u8>) -> Option<u64> {
    if exists|v: u64| #[trigger] compact(v).is_prefix_of(bytes) {
        Some(choose|v: u64| #[trigger] compact(v).is_prefix_of(bytes))
    } else {
        None
    }
}

/// Calls `Compact::<u64>::decode` of `parity_scale_codec` on the bytes.
///
/// It returns the number whose compact encoding the bytes start with, and fails where they
/// start with none: it accepts no encoding that is longer than the number needs. What follows
/// the encoding is not read.
#[verifier::external_body]
fn codec_compact_u64(bytes: &[u8]) -> (res: Result<u64, parity_scale_codec::Error>)
    ensures
        match res {
            Ok(v) => compact(v).is_prefix_of(bytes@),
            Err(_) => forall|v: u64| !#[trigger] compact(v).is_prefix_of(bytes@),
        },
{
    let value = parity_scale_codec::Compact::<u64>::decode(&mut &bytes[..])?;
    Ok(value.0)
}

/// Reads the compact number that `bytes` start with.
pub fn decode_compact(bytes: &[u8]) -> (res: Option<u64>)
    ensures
        res == compact_value(bytes@),
{
    match codec_compact_u64(bytes) {
        Ok(v) => {
            proof {
                let w = compact_value(bytes@).unwrap();
                assert(compact(w).is_prefix_of(bytes@));
                law_compact_unambiguous(v, w, bytes@);
            }
            Some(v)
        },
        Err(_) => None,
    }
}

proof fn lemma_le_bytes_len(v: nat, n: nat)
    ensures
        le_bytes(v, n).len() == n,
    decreases n,
{
    if n > 0 {
        lemma_le_bytes_len(v / 256, (n - 1) as nat);
    }
}

/// The lowest `n` bytes of a number that takes no more than `n` stand for the number.
pub proof fn law_le_bytes_read_back(v: nat, n: nat)
    requires
        v < pow(256, n),
    ensures
        le_bytes(v, n).len() == n,
        le_value(le_bytes(v, n)) == v,
    decreases n,
{
    lemma_le_bytes_len(v, n);
    if n == 0 {
        lemma_pow0(256);
    } else {
        reveal(pow);
        assert(pow(256, n) == 256 * pow(256, (n - 1) as nat));
        law_le_bytes_read_back(v / 256, (n - 1) as nat);
        assert(le_bytes(v, n).drop_first() =~= le_bytes(v / 256, (n - 1) as nat));
    }
}

proof fn lemma_byte_width_bound(v: nat)
    ensures
        v < pow(256, byte_width(v)),
    decreases v,
{
    reveal(pow);
    if v < 256 {
        assert(pow(256, 1) == 256 * pow(256, 0));
    } else {
        lemma_byte_width_bound(v / 256);
        assert(pow(256, byte_width(v)) == 256 * pow(256, byte_width(v / 256)));
    }
}

proof fn lemma_byte_width_of_u64(v: u64)
    requires
        v >= 0x4000_0000,
    ensures
        4 <= byte_width(v as nat) <= 8,
{
    reveal_with_fuel(byte_width, 9);
}

/// First byte and length of a compact encoding.
proof fn lemma_compact_shape(v: u64)
    ensures
        compact(v).len() > 0,
        v < 0x40 ==> compact(v)[0] % 4 == 0 && compact(v).len() == 1,
        0x40 <= v < 0x4000 ==> compact(v)[0] % 4 == 1 && compact(v).len() == 2,
        0x4000 <= v < 0x4000_0000 ==> compact(v)[0] % 4 == 2 && compact(v).len() == 4,
        v >= 0x4000_0000 ==> compact(v)[0] == 4 * (byte_width(v as nat) - 4) + 3
            && compact(v)[0] % 4 == 3 && compact(v).len() == 1 + byte_width(v as nat),
{
    lemma_le_bytes_len((4 * v) as nat, 1);
    lemma_le_bytes_len((4 * v + 1) as nat, 2);
    lemma_le_bytes_len((4 * v + 2) as nat, 4);
    lemma_le_bytes_len(v as nat, byte_width(v as nat));
    if v >= 0x4000_0000 {
        lemma_byte_width_of_u64(v);
    }
}

/// No bytes start with the compact encodings of two numbers.
pub proof fn law_compact_unambiguous(v: u64, w: u64, bytes: Seq<u8>)
    requires
        compact(v).is_prefix_of(bytes),
        compact(w).is_prefix_of(bytes),
    ensures
        v == w,
{
    lemma_compact_shape(v);
    lemma_compact_shape(w);
    assert(compact(v)[0] == bytes[0]);
    assert(compact(w)[0] == bytes[0]);
    assert(compact(v).len() == compact(w).len());
    assert(compact(v) =~= compact(w));
    reveal(pow);
    assert(pow(256, 4) == 0x1_0000_0000 && pow(256, 2) == 0x1_0000 && pow(256, 1) == 0x100) by {
        assert(pow(256, 0) == 1);
        assert(pow(256, 1) == 256 * pow(256, 0));
        assert(pow(256, 2) == 256 * pow(256, 1));
        assert(pow(256, 3) == 256 * pow(256, 2));
        assert(pow(256, 4) == 256 * pow(256, 3));
    }
    if v < 0x40 {
        law_le_bytes_read_back((4 * v) as nat, 1);
        law_le_bytes_read_back((4 * w) as nat, 1);
    } else if v < 0x4000 {
        law_le_bytes_read_back((4 * v + 1) as nat, 2);
        law_le_bytes_read_back((4 * w + 1) as nat, 2);
    } else if v < 0x4000_0000 {
        law_le_bytes_read_back((4 * v + 2) as nat, 4);
        law_le_bytes_read_back((4 * w + 2) as nat, 4);
    } else {
        let n = byte_width(v as nat);
        lemma_byte_width_bound(v as nat);
        lemma_byte_width_bound(w as nat);
        law_le_bytes_read_back(v as nat, n);
        law_le_bytes_read_back(w as nat, n);
        assert(compact(v).drop_first() =~= le_bytes(v as nat, n));
        assert(compact(w).drop_first() =~= le_bytes(w as nat, n));
    }
}

/// Reading a compact encoding gives back the number that was encoded, whatever follows it.
pub proof fn law_compact_read_back(v: u64, rest: Seq<u8>)
    ensures
        compact_value(compact(v) + rest) == Some(v),
{
    let bytes = compact(v) + rest;
    assert(compact(v).is_prefix_of(bytes)) by {
        assert(bytes.subrange(0, compact(v).len() as int) =~= compact(v));
    }
    law_compact_unambiguous(v, compact_value(bytes).unwrap(), bytes);
}

/// What is read from bytes is the number whose compact encoding they start with; nothing is read
/// exactly where they start with none.
pub proof fn law_compact_value_is_what_was_encoded(bytes: Seq<u8>)
    ensures
        compact_value(bytes) matches Some(v) ==> compact(v).is_prefix_of(bytes),
        compact_value(bytes).is_none() <==> forall|v: u64|
            !#[trigger] compact(v).is_prefix_of(bytes),
{
}

/// The little-endian value of one sequence of bytes behind another: the latter counts `256` times
/// for each byte of the former.
pub proof fn law_le_value_concatenates(a: Seq<u8>, b: Seq<u8>)
    ensures
        le_value(a + b) == le_value(a) + pow(256, a.len()) * le_value(b),
        forall|byte: u8| le_value(#[trigger] seq![byte]) == byte,
        le_value(seq![]) == 0,
    decreases a.len(),
{
    assert forall|byte: u8| le_value(#[trigger] seq![byte]) == byte by {
        reveal_with_fuel(le_value, 2);
        assert(seq![byte].drop_first() =~= Seq::<u8>::empty());
    }
    reveal(pow);
    if a.len() == 0 {
        assert(a + b =~= b);
        assert(pow(256, 0) == 1);
        assert(1 * le_value(b) == le_value(b));
    } else {
        law_le_value_concatenates(a.drop_first(), b);
        assert((a + b).drop_first() =~= a.drop_first() + b);
        let c = pow(256, (a.len() - 1) as nat);
        let v = le_value(b) as int;
        assert(256 * (c * v) == (256 * c) * v) by (nonlinear_arith);
    }
}

/// The bytes of a compact encoding, for each of its four layouts.
pub proof fn law_compact_layouts(v: u64)
    ensures
        v < 0x40 ==> compact(v) == seq![(4 * v) as u8],
        0x40 <= v < 0x4000 ==> compact(v).len() == 2 && le_value(compact(v)) == 4 * v + 1,
        0x4000 <= v < 0x4000_0000 ==> compact(v).len() == 4 && le_value(compact(v)) == 4 * v + 2,
        v >= 0x4000_0000 ==> {
            let n = compact(v).len() - 1;
            &&& 4 <= n <= 8
            &&& compact(v)[0] == 4 * (n - 4) + 3
            &&& le_value(compact(v).drop_first()) == v
            &&& compact(v).last() != 0
        },
{
    reveal(pow);
    assert(pow(256, 4) == 0x1_0000_0000 && pow(256, 2) == 0x1_0000 && pow(256, 1) == 0x100) by {
        assert(pow(256, 0) == 1);
        assert(pow(256, 1) == 256 * pow(256, 0));
        assert(pow(256, 2) == 256 * pow(256, 1));
        assert(pow(256, 3) == 256 * pow(256, 2));
        assert(pow(256, 4) == 256 * pow(256, 3));
    }
    lemma_compact_shape(v);
    if v < 0x40 {
        reveal_with_fuel(le_bytes, 2);
        assert(compact(v) =~= seq![(4 * v) as u8]);
    } else if v < 0x4000 {
        law_le_bytes_read_back((4 * v + 1) as nat, 2);
    } else if v < 0x4000_0000 {
        law_le_bytes_read_back((4 * v + 2) as nat, 4);
    } else {
        let n = byte_width(v as nat);
        lemma_byte_width_of_u64(v);
        lemma_byte_width_bound(v as nat);
        law_le_bytes_read_back(v as nat, n);
        assert(compact(v).drop_first() =~= le_bytes(v as nat, n));
        lemma_top_byte(v as nat);
        assert(compact(v).last() == le_bytes(v as nat, n).last());
    }
}

/// The last of the bytes that a number takes is not zero.
proof fn lemma_top_byte(v: nat)
    requires
        v > 0,
    ensures
        le_bytes(v, byte_width(v)).len() == byte_width(v),
        le_bytes(v, byte_width(v)).last() != 0,
    decreases v,
{
    lemma_le_bytes_len(v, byte_width(v));
    if v < 256 {
        reveal_with_fuel(le_bytes, 2);
        assert(le_bytes(v, 1) =~= seq![v as u8]);
    } else {
        lemma_top_byte(v / 256);
        let rest = le_bytes(v / 256, byte_width(v / 256));
        assert(le_bytes(v, byte_width(v)).last() == rest.last());
    }
}

} // verus!
