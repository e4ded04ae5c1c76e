//! Little-endian byte layouts of 64-bit limbs.

use vstd::prelude::*;
use vstd::arithmetic::power::pow;
use crate::field::{bytes_value, limbs_value};

verus! {

/// The eight little-endian bytes of `x`.
pub open spec fn u64_le_bytes(x: u64) -> Seq<u8> {
    seq![
        (x & 0xff) as u8,
        ((x >> 8) & 0xff) as u8,
        ((x >> 16) & 0xff) as u8,
        ((x >> 24) & 0xff) as u8,
        ((x >> 32) & 0xff) as u8,
        ((x >> 40) & 0xff) as u8,
        ((x >> 48) & 0xff) as u8,
        ((x >> 56) & 0xff) as u8,
    ]
}

/// The 64-bit word read from eight little-endian bytes.
pub open spec fn u64_from_le(b0: u8, b1: u8, b2: u8, b3: u8, b4: u8, b5: u8, b6: u8, b7: u8) -> u64 {
    (b0 as u64) | ((b1 as u64) << 8) | ((b2 as u64) << 16) | ((b3 as u64) << 24)
        | ((b4 as u64) << 32) | ((b5 as u64) << 40) | ((b6 as u64) << 48) | ((b7 as u64) << 56)
}

/// The 32-byte little-endian layout of four limbs.
pub open spec fn limbs_le_bytes(l0: u64, l1: u64, l2: u64, l3: u64) -> Seq<u8> {
    u64_le_bytes(l0) + u64_le_bytes(l1) + u64_le_bytes(l2) + u64_le_bytes(l3)
}

/// Eight bytes read as a word and written back are the same bytes.
pub proof fn lemma_bytes_u64_roundtrip(b0: u8, b1: u8, b2: u8, b3: u8, b4: u8, b5: u8, b6: u8, b7: u8)
    ensures
        u64_le_bytes(u64_from_le(b0, b1, b2, b3, b4, b5, b6, b7)) == seq![b0, b1, b2, b3, b4, b5, b6, b7],
{
    let x = u64_from_le(b0, b1, b2, b3, b4, b5, b6, b7);
    assert(x == (b0 as u64) | ((b1 as u64) << 8) | ((b2 as u64) << 16) | ((b3 as u64) << 24)
        | ((b4 as u64) << 32) | ((b5 as u64) << 40) | ((b6 as u64) << 48) | ((b7 as u64) << 56));
    assert((x & 0xff) as u8 == b0 && ((x >> 8) & 0xff) as u8 == b1 && ((x >> 16) & 0xff) as u8 == b2
        && ((x >> 24) & 0xff) as u8 == b3 && ((x >> 32) & 0xff) as u8 == b4
        && ((x >> 40) & 0xff) as u8 == b5 && ((x >> 48) & 0xff) as u8 == b6
        && ((x >> 56) & 0xff) as u8 == b7) by (bit_vector)
        requires
            x == (b0 as u64) | ((b1 as u64) << 8) | ((b2 as u64) << 16) | ((b3 as u64) << 24)
                | ((b4 as u64) << 32) | ((b5 as u64) << 40) | ((b6 as u64) << 48) | ((b7 as u64) << 56),
    ;
    assert(u64_le_bytes(x) =~= seq![b0, b1, b2, b3, b4, b5, b6, b7]);
}

/// The little-endian bytes of a word have the word as their value.
pub proof fn lemma_u64_value(x: u64)
    ensures
        bytes_value(u64_le_bytes(x)) == x,
{
    let s = u64_le_bytes(x);
    reveal_with_fuel(bytes_value, 9);
    assert(s.drop_first().drop_first().drop_first().drop_first().drop_first().drop_first()
        .drop_first().drop_first().len() == 0);
    let b0 = (x & 0xff) as u8;
    let b1 = ((x >> 8) & 0xff) as u8;
    let b2 = ((x >> 16) & 0xff) as u8;
    let b3 = ((x >> 24) & 0xff) as u8;
    let b4 = ((x >> 32) & 0xff) as u8;
    let b5 = ((x >> 40) & 0xff) as u8;
    let b6 = ((x >> 48) & 0xff) as u8;
    let b7 = ((x >> 56) & 0xff) as u8;
    assert(x as int == b0 + 256 * (b1 + 256 * (b2 + 256 * (b3 + 256 * (b4 + 256 * (b5 + 256 * (b6
        + 256 * b7))))))) by (bit_vector)
        requires
            b0 == (x & 0xff) as u8, b1 == ((x >> 8) & 0xff) as u8, b2 == ((x >> 16) & 0xff) as u8,
            b3 == ((x >> 24) & 0xff) as u8, b4 == ((x >> 32) & 0xff) as u8,
            b5 == ((x >> 40) & 0xff) as u8, b6 == ((x >> 48) & 0xff) as u8,
            b7 == ((x >> 56) & 0xff) as u8,
    ;
}

/// The value of two byte strings one after the other.
pub proof fn lemma_bytes_value_append(a: Seq<u8>, b: Seq<u8>)
    ensures
        bytes_value(a + b) == bytes_value(a) + pow(256, a.len()) * bytes_value(b),
    decreases a.len(),
{
    reveal(pow);
    if a.len() == 0 {
        assert(a + b =~= b);
    } else {
        lemma_bytes_value_append(a.drop_first(), b);
        assert((a + b).drop_first() =~= a.drop_first() + b);
        let p = pow(256, (a.len() - 1) as nat);
        let x = bytes_value(a.drop_first());
        let y = bytes_value(b);
        assert(256 * (x + p * y) == 256 * x + (256 * p) * y) by (nonlinear_arith);
    }
}

/// The bytes of four limbs have the limbs' value, and there are 32 of them.
pub proof fn lemma_limbs_value(l0: u64, l1: u64, l2: u64, l3: u64)
    ensures
        bytes_value(limbs_le_bytes(l0, l1, l2, l3)) == limbs_value(l0, l1, l2, l3),
        limbs_le_bytes(l0, l1, l2, l3).len() == 32,
{
    let (s0, s1, s2, s3) = (u64_le_bytes(l0), u64_le_bytes(l1), u64_le_bytes(l2), u64_le_bytes(l3));
    lemma_u64_value(l0);
    lemma_u64_value(l1);
    lemma_u64_value(l2);
    lemma_u64_value(l3);
    reveal_with_fuel(pow, 25);
    assert(pow(256, 8) == 0x1_0000_0000_0000_0000);
    assert(pow(256, 16) == 0x1_0000_0000_0000_0000_0000_0000_0000_0000);
    assert(pow(256, 24) == 0x1_0000_0000_0000_0000_0000_0000_0000_0000_0000_0000_0000_0000);
    lemma_bytes_value_append(s0, s1);
    lemma_bytes_value_append(s0 + s1, s2);
    lemma_bytes_value_append(s0 + s1 + s2, s3);
}

/// Splits `b` into its four little-endian words.
pub fn bytes_to_limbs(b: &[u8; 32]) -> (r: (u64, u64, u64, u64))
    ensures
        limbs_le_bytes(r.0, r.1, r.2, r.3) == b@,
{
    let w0 = (b[0] as u64) | ((b[1] as u64) << 8) | ((b[2] as u64) << 16) | ((b[3] as u64) << 24)
        | ((b[4] as u64) << 32) | ((b[5] as u64) << 40) | ((b[6] as u64) << 48) | ((b[7] as u64) << 56);
    let w1 = (b[8] as u64) | ((b[9] as u64) << 8) | ((b[10] as u64) << 16) | ((b[11] as u64) << 24)
        | ((b[12] as u64) << 32) | ((b[13] as u64) << 40) | ((b[14] as u64) << 48) | ((b[15] as u64) << 56);
    let w2 = (b[16] as u64) | ((b[17] as u64) << 8) | ((b[18] as u64) << 16) | ((b[19] as u64) << 24)
        | ((b[20] as u64) << 32) | ((b[21] as u64) << 40) | ((b[22] as u64) << 48) | ((b[23] as u64) << 56);
    let w3 = (b[24] as u64) | ((b[25] as u64) << 8) | ((b[26] as u64) << 16) | ((b[27] as u64) << 24)
        | ((b[28] as u64) << 32) | ((b[29] as u64) << 40) | ((b[30] as u64) << 48) | ((b[31] as u64) << 56);
    proof {
        lemma_bytes_u64_roundtrip(b[0], b[1], b[2], b[3], b[4], b[5], b[6], b[7]);
        lemma_bytes_u64_roundtrip(b[8], b[9], b[10], b[11], b[12], b[13], b[14], b[15]);
        lemma_bytes_u64_roundtrip(b[16], b[17], b[18], b[19], b[20], b[21], b[22], b[23]);
        lemma_bytes_u64_roundtrip(b[24], b[25], b[26], b[27], b[28], b[29], b[30], b[31]);
        assert(limbs_le_bytes(w0, w1, w2, w3) =~= b@);
    }
    (w0, w1, w2, w3)
}

/// Writes the little-endian bytes of `x` at offset `off` of `out`.
fn put_u64(out: &mut [u8; 32], off: usize, x: u64)
    requires
        off + 8 <= 32,
    ensures
        final(out)@ == old(out)@.subrange(0, off as int) + u64_le_bytes(x)
            + old(out)@.subrange(off + 8, 32),
{
    out[off] = (x & 0xff) as u8;
    out[off + 1] = ((x >> 8) & 0xff) as u8;
    out[off + 2] = ((x >> 16) & 0xff) as u8;
    out[off + 3] = ((x >> 24) & 0xff) as u8;
    out[off + 4] = ((x >> 32) & 0xff) as u8;
    out[off + 5] = ((x >> 40) & 0xff) as u8;
    out[off + 6] = ((x >> 48) & 0xff) as u8;
    out[off + 7] = ((x >> 56) & 0xff) as u8;
    assert(out@ =~= old(out)@.subrange(0, off as int) + u64_le_bytes(x) + old(out)@.subrange(off + 8, 32));
}

/// Lays four limbs out as 32 little-endian bytes.
pub fn limbs_to_bytes(l0: u64, l1: u64, l2: u64, l3: u64) -> (r: [u8; 32])
    ensures
        r@ == limbs_le_bytes(l0, l1, l2, l3),
{
    let mut out = [0u8; 32];
    put_u64(&mut out, 0, l0);
    put_u64(&mut out, 8, l1);
    put_u64(&mut out, 16, l2);
    put_u64(&mut out, 24, l3);
    assert(out@ =~= limbs_le_bytes(l0, l1, l2, l3));
    out
}

} // verus!
