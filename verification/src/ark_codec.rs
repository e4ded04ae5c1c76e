//! The uncompressed encodings that the arkworks libraries read and write for
//! field elements, curve points and vectors of them: little-endian
//! coordinates, two flag bits in the top of the last byte of a point
//! (`0x40` marks the point at infinity), and a little-endian `u64` length in
//! front of a vector.

use vstd::prelude::*;
use vstd::arithmetic::power::pow;
use crate::codec::{u64_le_bytes, lemma_bytes_value_append};
use crate::curve::{G1Affine, G2Affine, Fq2, zeros, g1_is_identity, g2_is_identity, chunk32};
use crate::field::{Fq, Fr, lemma_fq_bytes_injective, fq_modulus, fr_modulus, bytes_value, fq_to_bytes, fq_from_bytes, field_to_bytes, field_from_bytes};

verus! {

/// The encoding of a G1 point: `x` then `y`, or zero coordinates with the
/// infinity flag.
pub open spec fn ark_g1(p: G1Affine) -> Seq<u8> {
    if p.infinity {
        zeros(63).push(0x40u8)
    } else {
        p.x.spec_bytes() + p.y.spec_bytes()
    }
}

/// The encoding of a G2 point: `x.c0`, `x.c1`, `y.c0`, `y.c1`, or zero
/// coordinates with the infinity flag.
pub open spec fn ark_g2(p: G2Affine) -> Seq<u8> {
    if p.infinity {
        zeros(127).push(0x40u8)
    } else {
        p.x.c0.spec_bytes() + p.x.c1.spec_bytes() + p.y.c0.spec_bytes() + p.y.c1.spec_bytes()
    }
}

/// The encodings of field elements, one after the other.
pub open spec fn concat_fr(v: Seq<Fr>) -> Seq<u8>
    decreases v.len(),
{
    if v.len() == 0 {
        seq![]
    } else {
        concat_fr(v.drop_last()) + v.last().spec_bytes()
    }
}

/// The encodings of G1 points, one after the other.
pub open spec fn concat_g1(v: Seq<G1Affine>) -> Seq<u8>
    decreases v.len(),
{
    if v.len() == 0 {
        seq![]
    } else {
        concat_g1(v.drop_last()) + ark_g1(v.last())
    }
}

/// The encodings of G2 points, one after the other.
pub open spec fn concat_g2(v: Seq<G2Affine>) -> Seq<u8>
    decreases v.len(),
{
    if v.len() == 0 {
        seq![]
    } else {
        concat_g2(v.drop_last()) + ark_g2(v.last())
    }
}

/// The encoding of a vector of field elements.
pub open spec fn ark_fr_vec(v: Seq<Fr>) -> Seq<u8> {
    u64_le_bytes(v.len() as u64) + concat_fr(v)
}

/// The encoding of a vector of G1 points.
pub open spec fn ark_g1_vec(v: Seq<G1Affine>) -> Seq<u8> {
    u64_le_bytes(v.len() as u64) + concat_g1(v)
}

/// The encoding of a vector of G2 points.
pub open spec fn ark_g2_vec(v: Seq<G2Affine>) -> Seq<u8> {
    u64_le_bytes(v.len() as u64) + concat_g2(v)
}

/// The `i`-th item, `w` bytes wide, of a vector encoding (after its 8-byte
/// length).
pub open spec fn item(b: Seq<u8>, i: int, w: int) -> Seq<u8> {
    b.subrange(8 + w * i, 8 + w * i + w)
}

/// Whether `b` has the shape of a vector encoding of `n` items of `w` bytes.
pub open spec fn vec_shape(b: Seq<u8>, n: nat, w: nat) -> bool {
    &&& n <= u64::MAX
    &&& b.len() == 8 + w * n
    &&& b.subrange(0, 8) == u64_le_bytes(n as u64)
}

/// Whether the 32 bytes at `off` hold a canonical base-field element.
pub open spec fn fq_at(b: Seq<u8>, off: int) -> bool {
    bytes_value(b.subrange(off, off + 32)) < fq_modulus()
}

/// The 32 bytes at `off`, with the two flag bits of the last one cleared.
pub open spec fn unflagged_at(b: Seq<u8>, off: int) -> Seq<u8> {
    b.subrange(off, off + 31).push(b[off + 31] & 0x3f)
}

/// Whether `b` is an encoding of a G1 point that the curve library reads
/// back: 64 bytes, a flag pair other than both bits, canonical coordinates.
pub open spec fn ark_g1_valid(b: Seq<u8>) -> bool {
    &&& b.len() == 64
    &&& b[63] & 0xc0 != 0xc0
    &&& fq_at(b, 0)
    &&& bytes_value(unflagged_at(b, 32)) < fq_modulus()
}

/// Whether `b` is an encoding of a G2 point that the curve library reads
/// back.
pub open spec fn ark_g2_valid(b: Seq<u8>) -> bool {
    &&& b.len() == 128
    &&& b[127] & 0xc0 != 0xc0
    &&& fq_at(b, 0)
    &&& fq_at(b, 32)
    &&& fq_at(b, 64)
    &&& bytes_value(unflagged_at(b, 96)) < fq_modulus()
}

/// Whether `b` encodes `n` canonical field elements.
pub open spec fn ark_fr_vec_valid(b: Seq<u8>, n: nat) -> bool {
    &&& vec_shape(b, n, 32)
    &&& forall|i: int| 0 <= i < n ==> #[trigger] bytes_value(item(b, i, 32)) < fr_modulus()
}

/// Whether `b` encodes `n` G1 points.
pub open spec fn ark_g1_vec_valid(b: Seq<u8>, n: nat) -> bool {
    &&& vec_shape(b, n, 64)
    &&& forall|i: int| 0 <= i < n ==> #[trigger] ark_g1_valid(item(b, i, 64))
}

/// Whether `b` encodes `n` G2 points.
pub open spec fn ark_g2_vec_valid(b: Seq<u8>, n: nat) -> bool {
    &&& vec_shape(b, n, 128)
    &&& forall|i: int| 0 <= i < n ==> #[trigger] ark_g2_valid(item(b, i, 128))
}

/// Whether `p` is the point that the valid encoding `b` stands for.
pub open spec fn ark_g1_decodes(b: Seq<u8>, p: G1Affine) -> bool {
    if b[63] & 0x40 != 0 {
        g1_is_identity(p)
    } else {
        !p.infinity && p.x.spec_bytes() == b.subrange(0, 32) && p.y.spec_bytes() == unflagged_at(b, 32)
    }
}

/// Whether `p` is the point that the valid encoding `b` stands for.
pub open spec fn ark_g2_decodes(b: Seq<u8>, p: G2Affine) -> bool {
    if b[127] & 0x40 != 0 {
        g2_is_identity(p)
    } else {
        &&& !p.infinity
        &&& p.x.c0.spec_bytes() == b.subrange(0, 32)
        &&& p.x.c1.spec_bytes() == b.subrange(32, 64)
        &&& p.y.c0.spec_bytes() == b.subrange(64, 96)
        &&& p.y.c1.spec_bytes() == unflagged_at(b, 96)
    }
}

/// A canonical element leaves the two top bits of its last byte clear.
proof fn lemma_top_bits_clear(s: Seq<u8>)
    requires
        s.len() == 32,
        bytes_value(s) < fq_modulus() || bytes_value(s) < fr_modulus(),
    ensures
        s[31] < 0x40,
        s[31] & 0x3f == s[31],
        s[31] & 0xc0 == 0,
        unflagged_at(s, 0) == s,
{
    let a = s.subrange(0, 31);
    let t = s.subrange(31, 32);
    assert(s == a + t);
    lemma_bytes_value_append(a, t);
    reveal_with_fuel(bytes_value, 2);
    assert(t.drop_first().len() == 0);
    assert(bytes_value(t) == s[31]);
    reveal_with_fuel(pow, 32);
    assert(pow(256, 31) == 0x100_0000_0000_0000_0000_0000_0000_0000_0000_0000_0000_0000_0000_0000_0000_0000int);
    if s[31] >= 0x40 {
        assert(pow(256, 31) * bytes_value(t) >= pow(256, 31) * 0x40) by (nonlinear_arith)
            requires bytes_value(t) >= 0x40, pow(256, 31) > 0;
    }
    let x = s[31];
    assert(x & 0x3f == x && x & 0xc0 == 0) by (bit_vector)
        requires x < 0x40;
    assert(unflagged_at(s, 0) =~= s);
}

/// Appends the little-endian bytes of `x`.
fn push_u64_le(out: &mut Vec<u8>, x: u64)
    ensures
        final(out)@ == old(out)@ + u64_le_bytes(x),
{
    out.push((x & 0xff) as u8);
    out.push(((x >> 8) & 0xff) as u8);
    out.push(((x >> 16) & 0xff) as u8);
    out.push(((x >> 24) & 0xff) as u8);
    out.push(((x >> 32) & 0xff) as u8);
    out.push(((x >> 40) & 0xff) as u8);
    out.push(((x >> 48) & 0xff) as u8);
    out.push(((x >> 56) & 0xff) as u8);
    assert(out@ =~= old(out)@ + u64_le_bytes(x));
}

/// Appends the bytes of `b`.
fn push_all(out: &mut Vec<u8>, b: &[u8])
    ensures
        final(out)@ == old(out)@ + b@,
{
    let mut i: usize = 0;
    while i < b.len()
        invariant
            i <= b@.len(),
            out@ == old(out)@ + b@.subrange(0, i as int),
        decreases b@.len() - i,
    {
        out.push(b[i]);
        assert(b@.subrange(0, i + 1) =~= b@.subrange(0, i as int).push(b@[i as int]));
        i = i + 1;
    }
    assert(b@.subrange(0, b@.len() as int) =~= b@);
}

/// The encoding of a G1 point.
pub fn ark_encode_g1(p: &G1Affine) -> (r: Vec<u8>)
    ensures
        r@ == ark_g1(*p),
        ark_g1_valid(r@),
{
    let mut out: Vec<u8> = Vec::new();
    if p.infinity {
        let mut i: usize = 0;
        while i < 63
            invariant
                i <= 63,
                out@ == zeros(i as nat),
            decreases 63 - i,
        {
            out.push(0u8);
            assert(out@ =~= zeros((i + 1) as nat));
            i = i + 1;
        }
        out.push(0x40u8);
        proof {
            let b = out@;
            assert(0x40u8 & 0xc0 != 0xc0) by (bit_vector);
            assert(0x40u8 & 0x3f == 0) by (bit_vector);
            assert(b[63] == 0x40u8);
            assert(b.subrange(0, 32) =~= zeros(32));
            assert(unflagged_at(b, 32) =~= zeros(32));
            lemma_zeros_value(32);
        }
    } else {
        let bx = fq_to_bytes(p.x);
        let by = fq_to_bytes(p.y);
        push_all(&mut out, &bx);
        push_all(&mut out, &by);
        proof {
            let b = out@;
            assert(b =~= ark_g1(*p));
            assert(b.subrange(0, 32) =~= bx@);
            lemma_top_bits_clear(by@);
            assert(unflagged_at(b, 32) =~= unflagged_at(by@, 0));
            assert(b[63] == by@[31]);
        }
    }
    out
}

/// The encoding of a G2 point.
pub fn ark_encode_g2(p: &G2Affine) -> (r: Vec<u8>)
    ensures
        r@ == ark_g2(*p),
        ark_g2_valid(r@),
{
    let mut out: Vec<u8> = Vec::new();
    if p.infinity {
        let mut i: usize = 0;
        while i < 127
            invariant
                i <= 127,
                out@ == zeros(i as nat),
            decreases 127 - i,
        {
            out.push(0u8);
            assert(out@ =~= zeros((i + 1) as nat));
            i = i + 1;
        }
        out.push(0x40u8);
        proof {
            let b = out@;
            assert(0x40u8 & 0xc0 != 0xc0) by (bit_vector);
            assert(0x40u8 & 0x3f == 0) by (bit_vector);
            assert(b[127] == 0x40u8);
            assert(b.subrange(0, 32) =~= zeros(32));
            assert(b.subrange(32, 64) =~= zeros(32));
            assert(b.subrange(64, 96) =~= zeros(32));
            assert(unflagged_at(b, 96) =~= zeros(32));
            lemma_zeros_value(32);
        }
    } else {
        let b0 = fq_to_bytes(p.x.c0);
        let b1 = fq_to_bytes(p.x.c1);
        let b2 = fq_to_bytes(p.y.c0);
        let b3 = fq_to_bytes(p.y.c1);
        push_all(&mut out, &b0);
        push_all(&mut out, &b1);
        push_all(&mut out, &b2);
        push_all(&mut out, &b3);
        proof {
            let b = out@;
            assert(b =~= ark_g2(*p));
            assert(b.subrange(0, 32) =~= b0@);
            assert(b.subrange(32, 64) =~= b1@);
            assert(b.subrange(64, 96) =~= b2@);
            lemma_top_bits_clear(b3@);
            assert(unflagged_at(b, 96) =~= unflagged_at(b3@, 0));
            assert(b[127] == b3@[31]);
        }
    }
    out
}

/// Zero bytes have value zero.
proof fn lemma_zeros_value(n: nat)
    ensures
        bytes_value(zeros(n)) == 0,
    decreases n,
{
    if n > 0 {
        assert(zeros(n).drop_first() =~= zeros((n - 1) as nat));
        lemma_zeros_value((n - 1) as nat);
    }
}

/// The encoding of a vector of field elements.
pub fn ark_encode_fr_vec(v: &[Fr]) -> (r: Vec<u8>)
    ensures
        r@ == ark_fr_vec(v@),
        ark_fr_vec_valid(r@, v@.len()),
        forall|i: int| 0 <= i < v@.len() ==> #[trigger] item(r@, i, 32) == v@[i].spec_bytes(),
{
    let mut out: Vec<u8> = Vec::new();
    push_u64_le(&mut out, v.len() as u64);
    let mut i: usize = 0;
    while i < v.len()
        invariant
            i <= v@.len(),
            out@.len() == 8 + 32 * i,
            out@ == u64_le_bytes(v@.len() as u64) + concat_fr(v@.subrange(0, i as int)),
            out@.subrange(0, 8) == u64_le_bytes(v@.len() as u64),
            forall|j: int| 0 <= j < i ==> #[trigger] item(out@, j, 32) == v@[j].spec_bytes(),
            forall|j: int| 0 <= j < i ==> #[trigger] bytes_value(item(out@, j, 32)) < fr_modulus(),
        decreases v@.len() - i,
    {
        let ghost before = out@;
        let b = field_to_bytes(v[i]);
        push_all(&mut out, &b);
        proof {
            assert forall|j: int| 0 <= j < i + 1 implies #[trigger] item(out@, j, 32) == v@[j].spec_bytes()
                && bytes_value(item(out@, j, 32)) < fr_modulus() by {
                if j < i {
                    assert(item(out@, j, 32) =~= item(before, j, 32));
                } else {
                    assert(item(out@, j, 32) =~= b@);
                }
            }
            assert(out@.subrange(0, 8) =~= before.subrange(0, 8));
            assert(v@.subrange(0, i + 1).drop_last() =~= v@.subrange(0, i as int));
        }
        i = i + 1;
    }
    assert(v@.subrange(0, v@.len() as int) =~= v@);
    out
}

/// The encoding of a vector of G1 points.
pub fn ark_encode_g1_vec(v: &[G1Affine]) -> (r: Vec<u8>)
    ensures
        r@ == ark_g1_vec(v@),
        ark_g1_vec_valid(r@, v@.len()),
        forall|i: int| 0 <= i < v@.len() ==> #[trigger] item(r@, i, 64) == ark_g1(v@[i]),
{
    let mut out: Vec<u8> = Vec::new();
    push_u64_le(&mut out, v.len() as u64);
    let mut i: usize = 0;
    while i < v.len()
        invariant
            i <= v@.len(),
            out@.len() == 8 + 64 * i,
            out@ == u64_le_bytes(v@.len() as u64) + concat_g1(v@.subrange(0, i as int)),
            out@.subrange(0, 8) == u64_le_bytes(v@.len() as u64),
            forall|j: int| 0 <= j < i ==> #[trigger] item(out@, j, 64) == ark_g1(v@[j]),
            forall|j: int| 0 <= j < i ==> #[trigger] ark_g1_valid(item(out@, j, 64)),
        decreases v@.len() - i,
    {
        let ghost before = out@;
        let e = ark_encode_g1(&v[i]);
        push_all(&mut out, e.as_slice());
        proof {
            assert forall|j: int| 0 <= j < i + 1 implies #[trigger] item(out@, j, 64) == ark_g1(v@[j])
                && ark_g1_valid(item(out@, j, 64)) by {
                if j < i {
                    assert(item(out@, j, 64) =~= item(before, j, 64));
                } else {
                    assert(item(out@, j, 64) =~= e@);
                }
            }
            assert(out@.subrange(0, 8) =~= before.subrange(0, 8));
            assert(v@.subrange(0, i + 1).drop_last() =~= v@.subrange(0, i as int));
        }
        i = i + 1;
    }
    assert(v@.subrange(0, v@.len() as int) =~= v@);
    out
}

/// The encoding of a vector of G2 points.
pub fn ark_encode_g2_vec(v: &[G2Affine]) -> (r: Vec<u8>)
    ensures
        r@ == ark_g2_vec(v@),
        ark_g2_vec_valid(r@, v@.len()),
        forall|i: int| 0 <= i < v@.len() ==> #[trigger] item(r@, i, 128) == ark_g2(v@[i]),
{
    let mut out: Vec<u8> = Vec::new();
    push_u64_le(&mut out, v.len() as u64);
    let mut i: usize = 0;
    while i < v.len()
        invariant
            i <= v@.len(),
            out@.len() == 8 + 128 * i,
            out@ == u64_le_bytes(v@.len() as u64) + concat_g2(v@.subrange(0, i as int)),
            out@.subrange(0, 8) == u64_le_bytes(v@.len() as u64),
            forall|j: int| 0 <= j < i ==> #[trigger] item(out@, j, 128) == ark_g2(v@[j]),
            forall|j: int| 0 <= j < i ==> #[trigger] ark_g2_valid(item(out@, j, 128)),
        decreases v@.len() - i,
    {
        let ghost before = out@;
        let e = ark_encode_g2(&v[i]);
        push_all(&mut out, e.as_slice());
        proof {
            assert forall|j: int| 0 <= j < i + 1 implies #[trigger] item(out@, j, 128) == ark_g2(v@[j])
                && ark_g2_valid(item(out@, j, 128)) by {
                if j < i {
                    assert(item(out@, j, 128) =~= item(before, j, 128));
                } else {
                    assert(item(out@, j, 128) =~= e@);
                }
            }
            assert(out@.subrange(0, 8) =~= before.subrange(0, 8));
            assert(v@.subrange(0, i + 1).drop_last() =~= v@.subrange(0, i as int));
        }
        i = i + 1;
    }
    assert(v@.subrange(0, v@.len() as int) =~= v@);
    out
}

/// The point that a valid G1 encoding stands for.
pub fn ark_decode_g1(b: &[u8]) -> (r: G1Affine)
    requires
        ark_g1_valid(b@),
    ensures
        ark_g1_decodes(b@, r),
{
    if b[63] & 0x40 != 0 {
        return G1Affine::zero();
    }
    let x = fq_from_bytes(chunk32(b, 0));
    let mut yb = chunk32(b, 32);
    yb[31] = yb[31] & 0x3f;
    assert(yb@ =~= unflagged_at(b@, 32));
    let y = fq_from_bytes(yb);
    G1Affine { x, y, infinity: false }
}

/// The point that a valid G2 encoding stands for.
pub fn ark_decode_g2(b: &[u8]) -> (r: G2Affine)
    requires
        ark_g2_valid(b@),
    ensures
        ark_g2_decodes(b@, r),
{
    if b[127] & 0x40 != 0 {
        return G2Affine::zero();
    }
    let x0 = fq_from_bytes(chunk32(b, 0));
    let x1 = fq_from_bytes(chunk32(b, 32));
    let y0 = fq_from_bytes(chunk32(b, 64));
    let mut yb = chunk32(b, 96);
    yb[31] = yb[31] & 0x3f;
    assert(yb@ =~= unflagged_at(b@, 96));
    let y1 = fq_from_bytes(yb);
    G2Affine { x: Fq2 { c0: x0, c1: x1 }, y: Fq2 { c0: y0, c1: y1 }, infinity: false }
}

/// The `n` field elements of a valid vector encoding.
pub fn ark_decode_fr_vec(b: &[u8], n: usize) -> (r: Vec<Fr>)
    requires
        ark_fr_vec_valid(b@, n as nat),
    ensures
        r@.len() == n,
        forall|i: int| 0 <= i < n ==> #[trigger] r@[i].spec_bytes() == item(b@, i, 32),
{
    let mut out: Vec<Fr> = Vec::new();
    let mut i: usize = 0;
    assert(8 + 32 * n == b.len());
    while i < n
        invariant
            i <= n,
            8 + 32 * n == b.len(),
            ark_fr_vec_valid(b@, n as nat),
            out@.len() == i,
            forall|j: int| 0 <= j < i ==> #[trigger] out@[j].spec_bytes() == item(b@, j, 32),
        decreases n - i,
    {
        let chunk = chunk32(b, 8 + 32 * i);
        assert(chunk@ =~= item(b@, i as int, 32));
        assert(bytes_value(item(b@, i as int, 32)) < fr_modulus());
        out.push(field_from_bytes(chunk));
        i = i + 1;
    }
    out
}

/// The G1 point that a valid encoding stands for.
pub open spec fn g1_of(b: Seq<u8>) -> G1Affine {
    choose|p: G1Affine| ark_g1_decodes(b, p)
}

/// The G2 point that a valid encoding stands for.
pub open spec fn g2_of(b: Seq<u8>) -> G2Affine {
    choose|p: G2Affine| ark_g2_decodes(b, p)
}

/// An encoding stands for one G1 point only.
pub proof fn lemma_g1_decodes_unique(b: Seq<u8>, p: G1Affine)
    requires
        ark_g1_decodes(b, p),
    ensures
        g1_of(b) == p,
{
    let q = g1_of(b);
    assert(ark_g1_decodes(b, q));
    p.x.lemma_val_injective(q.x);
    p.y.lemma_val_injective(q.y);
    lemma_fq_bytes_injective(p.x, q.x);
    lemma_fq_bytes_injective(p.y, q.y);
}

/// An encoding stands for one G2 point only.
pub proof fn lemma_g2_decodes_unique(b: Seq<u8>, p: G2Affine)
    requires
        ark_g2_decodes(b, p),
    ensures
        g2_of(b) == p,
{
    let q = g2_of(b);
    assert(ark_g2_decodes(b, q));
    p.x.c0.lemma_val_injective(q.x.c0);
    p.x.c1.lemma_val_injective(q.x.c1);
    p.y.c0.lemma_val_injective(q.y.c0);
    p.y.c1.lemma_val_injective(q.y.c1);
    lemma_fq_bytes_injective(p.x.c0, q.x.c0);
    lemma_fq_bytes_injective(p.x.c1, q.x.c1);
    lemma_fq_bytes_injective(p.y.c0, q.y.c0);
    lemma_fq_bytes_injective(p.y.c1, q.y.c1);
}

/// A G1 point with reduced coordinates (zero ones at infinity) decodes from
/// its encoding.
pub proof fn lemma_ark_g1_roundtrip(p: G1Affine)
    requires
        p.x.val() < fq_modulus(),
        p.y.val() < fq_modulus(),
        p.infinity ==> p.x.val() == 0 && p.y.val() == 0,
    ensures
        ark_g1_decodes(ark_g1(p), p),
        g1_of(ark_g1(p)) == p,
{
    let b = ark_g1(p);
    if p.infinity {
        assert(b[63] == 0x40u8);
        assert(0x40u8 & 0x40 != 0) by (bit_vector);
    } else {
        p.x.lemma_spec_bytes();
        p.y.lemma_spec_bytes();
        let yb = p.y.spec_bytes();
        lemma_top_bits_clear(yb);
        assert(b[63] == yb[31]);
        let x = yb[31];
        assert(x < 0x40 ==> x & 0x40 == 0) by (bit_vector);
        assert(b.subrange(0, 32) =~= p.x.spec_bytes());
        assert(unflagged_at(b, 32) =~= unflagged_at(yb, 0));
    }
    lemma_g1_decodes_unique(b, p);
}

/// A G2 point with reduced coordinates (zero ones at infinity) decodes from
/// its encoding.
pub proof fn lemma_ark_g2_roundtrip(p: G2Affine)
    requires
        p.x.c0.val() < fq_modulus(),
        p.x.c1.val() < fq_modulus(),
        p.y.c0.val() < fq_modulus(),
        p.y.c1.val() < fq_modulus(),
        p.infinity ==> p.x.c0.val() == 0 && p.x.c1.val() == 0 && p.y.c0.val() == 0 && p.y.c1.val() == 0,
    ensures
        ark_g2_decodes(ark_g2(p), p),
        g2_of(ark_g2(p)) == p,
{
    let b = ark_g2(p);
    if p.infinity {
        assert(b[127] == 0x40u8);
        assert(0x40u8 & 0x40 != 0) by (bit_vector);
    } else {
        p.x.c0.lemma_spec_bytes();
        p.x.c1.lemma_spec_bytes();
        p.y.c0.lemma_spec_bytes();
        p.y.c1.lemma_spec_bytes();
        let yb = p.y.c1.spec_bytes();
        lemma_top_bits_clear(yb);
        assert(b[127] == yb[31]);
        let x = yb[31];
        assert(x < 0x40 ==> x & 0x40 == 0) by (bit_vector);
        assert(b.subrange(0, 32) =~= p.x.c0.spec_bytes());
        assert(b.subrange(32, 64) =~= p.x.c1.spec_bytes());
        assert(b.subrange(64, 96) =~= p.y.c0.spec_bytes());
        assert(unflagged_at(b, 96) =~= unflagged_at(yb, 0));
    }
    lemma_g2_decodes_unique(b, p);
}

/// The curve library's encoding of a finite G1 point holds its x-coordinate's
/// value in the first 32 bytes and its y-coordinate's in the next 32.
pub proof fn lemma_ark_g1_order(p: G1Affine)
    requires
        !p.infinity,
    ensures
        ark_g1(p).len() == 64,
        bytes_value(ark_g1(p).subrange(0, 32)) == p.x.val(),
        bytes_value(ark_g1(p).subrange(32, 64)) == p.y.val(),
{
    p.x.lemma_spec_bytes();
    p.y.lemma_spec_bytes();
    assert(ark_g1(p).subrange(0, 32) =~= p.x.spec_bytes());
    assert(ark_g1(p).subrange(32, 64) =~= p.y.spec_bytes());
}

/// The curve library's encoding of a finite G2 point holds, 32 bytes each and
/// in this order, the values of x.c0, x.c1, y.c0 and y.c1.
pub proof fn lemma_ark_g2_order(p: G2Affine)
    requires
        !p.infinity,
    ensures
        ark_g2(p).len() == 128,
        bytes_value(ark_g2(p).subrange(0, 32)) == p.x.c0.val(),
        bytes_value(ark_g2(p).subrange(32, 64)) == p.x.c1.val(),
        bytes_value(ark_g2(p).subrange(64, 96)) == p.y.c0.val(),
        bytes_value(ark_g2(p).subrange(96, 128)) == p.y.c1.val(),
{
    p.x.c0.lemma_spec_bytes();
    p.x.c1.lemma_spec_bytes();
    p.y.c0.lemma_spec_bytes();
    p.y.c1.lemma_spec_bytes();
    let b = ark_g2(p);
    assert(b.subrange(0, 32) =~= p.x.c0.spec_bytes());
    assert(b.subrange(32, 64) =~= p.x.c1.spec_bytes());
    assert(b.subrange(64, 96) =~= p.y.c0.spec_bytes());
    assert(b.subrange(96, 128) =~= p.y.c1.spec_bytes());
}

} // verus!
