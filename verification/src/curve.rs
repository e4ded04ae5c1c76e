//! Points of the BN254 curves and their encodings: the 64- and 128-byte
//! little-endian layouts, the coordinate triples of snarkjs, and their
//! decimal text.

use vstd::prelude::*;
use crate::field::{Fq, Fr, fq_modulus, lemma_fq_bytes_injective, fr_modulus, bytes_value, fq_to_bytes, fq_from_bytes, fq_to_string, fq_from_str,
    fr_from_str, decimal, parse_field_decimal, lemma_parse_field_decimal};

verus! {

/// An element `c0 + c1·u` of the quadratic extension of the base field.
#[derive(Clone, Copy, Debug, PartialEq, Eq, Structural)]
pub struct Fq2 {
    pub c0: Fq,
    pub c1: Fq,
}

/// A point of G1 in affine form: its coordinates, or the point at infinity.
#[derive(Clone, Copy, Debug, PartialEq, Eq, Structural)]
pub struct G1Affine {
    pub x: Fq,
    pub y: Fq,
    pub infinity: bool,
}

/// A point of G2 in affine form: its coordinates, or the point at infinity.
#[derive(Clone, Copy, Debug, PartialEq, Eq, Structural)]
pub struct G2Affine {
    pub x: Fq2,
    pub y: Fq2,
    pub infinity: bool,
}

/// Errors of decoding points.
#[derive(Debug)]
pub enum FqParseError {
    InvalidLength,
    InvalidField,
    SliceError,
}

/// Whether `p` is the point at infinity with zero coordinates, the form in
/// which the curve library builds it.
pub open spec fn g1_is_identity(p: G1Affine) -> bool {
    p.infinity && p.x.val() == 0 && p.y.val() == 0
}

/// Whether `p` is the point at infinity with zero coordinates.
pub open spec fn g2_is_identity(p: G2Affine) -> bool {
    p.infinity && p.x.c0.val() == 0 && p.x.c1.val() == 0 && p.y.c0.val() == 0 && p.y.c1.val() == 0
}

/// Whether the encodings of `p` decode to `p`: the point at infinity has
/// zero coordinates, and a finite point is not `(0, 0)`.
pub open spec fn g1_encodable(p: G1Affine) -> bool {
    if p.infinity {
        p.x.val() == 0 && p.y.val() == 0
    } else {
        !(p.x.val() == 0 && p.y.val() == 0)
    }
}

/// Whether the encodings of `p` decode to `p`.
pub open spec fn g2_encodable(p: G2Affine) -> bool {
    let z = p.x.c0.val() == 0 && p.x.c1.val() == 0 && p.y.c0.val() == 0 && p.y.c1.val() == 0;
    if p.infinity {
        z
    } else {
        !z
    }
}

impl Fq2 {
    /// The element `c0 + c1·u`.
    pub fn new(c0: Fq, c1: Fq) -> (r: Fq2)
        ensures
            r == (Fq2 { c0, c1 }),
    {
        Fq2 { c0, c1 }
    }
}

impl G1Affine {
    /// The point at infinity.
    pub fn zero() -> (r: G1Affine)
        ensures
            g1_is_identity(r),
    {
        G1Affine { x: Fq::from_u64(0), y: Fq::from_u64(0), infinity: true }
    }

    /// Whether this is the point at infinity.
    pub fn is_zero(&self) -> (r: bool)
        ensures
            r == self.infinity,
    {
        self.infinity
    }

    /// The coordinates of a finite point.
    pub fn xy(&self) -> (r: Option<(Fq, Fq)>)
        ensures
            r == (if self.infinity { None } else { Some((self.x, self.y)) }),
    {
        if self.infinity {
            None
        } else {
            Some((self.x, self.y))
        }
    }
}

impl G2Affine {
    /// The point at infinity.
    pub fn zero() -> (r: G2Affine)
        ensures
            g2_is_identity(r),
    {
        let z = Fq2 { c0: Fq::from_u64(0), c1: Fq::from_u64(0) };
        G2Affine { x: z, y: z, infinity: true }
    }

    /// Whether this is the point at infinity.
    pub fn is_zero(&self) -> (r: bool)
        ensures
            r == self.infinity,
    {
        self.infinity
    }

    /// The coordinates of a finite point.
    pub fn xy(&self) -> (r: Option<(Fq2, Fq2)>)
        ensures
            r == (if self.infinity { None } else { Some((self.x, self.y)) }),
    {
        if self.infinity {
            None
        } else {
            Some((self.x, self.y))
        }
    }
}

/// `n` zero bytes.
pub open spec fn zeros(n: nat) -> Seq<u8> {
    Seq::new(n, |i: int| 0u8)
}

/// Whether every byte is zero.
pub open spec fn all_zero(b: Seq<u8>) -> bool {
    forall|i: int| 0 <= i < b.len() ==> #[trigger] b[i] == 0
}

/// Whether the 32 bytes at offset `off` are a canonical base-field element.
pub open spec fn fq_chunk_ok(b: Seq<u8>, off: int) -> bool {
    bytes_value(b.subrange(off, off + 32)) < fq_modulus()
}

/// The 64-byte layout of a G1 point: `x` then `y`, or zeros for infinity.
pub open spec fn g1_bytes(p: G1Affine) -> Seq<u8> {
    if p.infinity {
        zeros(64)
    } else {
        p.x.spec_bytes() + p.y.spec_bytes()
    }
}

/// The 128-byte layout of a G2 point: `x.c0`, `x.c1`, `y.c0`, `y.c1`, or
/// zeros for infinity.
pub open spec fn g2_bytes(p: G2Affine) -> Seq<u8> {
    if p.infinity {
        zeros(128)
    } else {
        p.x.c0.spec_bytes() + p.x.c1.spec_bytes() + p.y.c0.spec_bytes() + p.y.c1.spec_bytes()
    }
}

/// Whether `p` is what the 64 bytes `b` decode to.
pub open spec fn g1_decoded(b: Seq<u8>, p: G1Affine) -> bool {
    if all_zero(b) {
        g1_is_identity(p)
    } else {
        !p.infinity && p.x.spec_bytes() == b.subrange(0, 32) && p.y.spec_bytes() == b.subrange(32, 64)
    }
}

/// Whether `p` is what the 128 bytes `b` decode to.
pub open spec fn g2_decoded(b: Seq<u8>, p: G2Affine) -> bool {
    if all_zero(b) {
        g2_is_identity(p)
    } else {
        &&& !p.infinity
        &&& p.x.c0.spec_bytes() == b.subrange(0, 32)
        &&& p.x.c1.spec_bytes() == b.subrange(32, 64)
        &&& p.y.c0.spec_bytes() == b.subrange(64, 96)
        &&& p.y.c1.spec_bytes() == b.subrange(96, 128)
    }
}

/// Appends 32 bytes to `out`.
fn append_bytes(out: &mut Vec<u8>, b: &[u8; 32])
    ensures
        final(out)@ == old(out)@ + b@,
{
    let mut i: usize = 0;
    while i < 32
        invariant
            i <= 32,
            b@.len() == 32,
            out@ == old(out)@ + b@.subrange(0, i as int),
        decreases 32 - i,
    {
        out.push(b[i]);
        assert(b@.subrange(0, i + 1) =~= b@.subrange(0, i as int).push(b@[i as int]));
        i = i + 1;
    }
    assert(b@.subrange(0, 32) =~= b@);
}

/// The 32 bytes of `b` at offset `off`.
pub(crate) fn chunk32(b: &[u8], off: usize) -> (r: [u8; 32])
    requires
        off + 32 <= b@.len(),
    ensures
        r@ == b@.subrange(off as int, off + 32),
{
    let mut out = [0u8; 32];
    let mut i: usize = 0;
    while i < 32
        invariant
            i <= 32,
            off + 32 <= b.len(),
            out@.len() == 32,
            forall|j: int| 0 <= j < i ==> #[trigger] out@[j] == b@[off + j],
        decreases 32 - i,
    {
        out[i] = b[off + i];
        i = i + 1;
    }
    assert(out@ =~= b@.subrange(off as int, off + 32));
    out
}

/// `n` zero bytes.
fn zero_bytes(n: usize) -> (r: Vec<u8>)
    ensures
        r@ == zeros(n as nat),
{
    let mut out: Vec<u8> = Vec::new();
    let mut i: usize = 0;
    while i < n
        invariant
            i <= n,
            out@ == zeros(i as nat),
        decreases n - i,
    {
        out.push(0u8);
        assert(out@ =~= zeros((i + 1) as nat));
        i = i + 1;
    }
    out
}

/// Whether every byte of `b` is zero.
fn is_all_zero(b: &[u8]) -> (r: bool)
    ensures
        r == all_zero(b@),
{
    let mut i: usize = 0;
    while i < b.len()
        invariant
            i <= b@.len(),
            forall|j: int| 0 <= j < i ==> #[trigger] b@[j] == 0,
        decreases b@.len() - i,
    {
        if b[i] != 0 {
            return false;
        }
        i = i + 1;
    }
    true
}

/// The 64-byte layout of a G1 point.
pub fn g1_to_bytes(value: G1Affine) -> (r: Vec<u8>)
    ensures
        r@ == g1_bytes(value),
        !value.infinity ==> fq_chunk_ok(r@, 0) && fq_chunk_ok(r@, 32),
{
    match value.xy() {
        None => zero_bytes(64),
        Some((x, y)) => {
            let mut out: Vec<u8> = Vec::new();
            let bx = fq_to_bytes(x);
            let by = fq_to_bytes(y);
            append_bytes(&mut out, &bx);
            append_bytes(&mut out, &by);
            assert(out@ =~= g1_bytes(value));
            assert(out@.subrange(0, 32) =~= bx@);
            assert(out@.subrange(32, 64) =~= by@);
            out
        },
    }
}

/// Decodes the 64-byte layout of a G1 point; all zeros is the point at
/// infinity.
pub fn g1_from_bytes(bytes: &[u8]) -> (r: Result<G1Affine, FqParseError>)
    requires
        bytes@.len() == 64 && !all_zero(bytes@) ==> fq_chunk_ok(bytes@, 0) && fq_chunk_ok(bytes@, 32),
    ensures
        bytes@.len() != 64 ==> r matches Err(FqParseError::InvalidLength),
        bytes@.len() == 64 ==> (r matches Ok(p) && g1_decoded(bytes@, p)),
{
    if bytes.len() != 64 {
        return Err(FqParseError::InvalidLength);
    }
    if is_all_zero(bytes) {
        return Ok(G1Affine::zero());
    }
    let x = fq_from_bytes(chunk32(bytes, 0));
    let y = fq_from_bytes(chunk32(bytes, 32));
    Ok(G1Affine { x, y, infinity: false })
}

/// The 128-byte layout of a G2 point.
pub fn g2_to_bytes(value: G2Affine) -> (r: Vec<u8>)
    ensures
        r@ == g2_bytes(value),
        !value.infinity ==> fq_chunk_ok(r@, 0) && fq_chunk_ok(r@, 32) && fq_chunk_ok(r@, 64) && fq_chunk_ok(r@, 96),
{
    match value.xy() {
        None => zero_bytes(128),
        Some((x, y)) => {
            let mut out: Vec<u8> = Vec::new();
            let b0 = fq_to_bytes(x.c0);
            let b1 = fq_to_bytes(x.c1);
            let b2 = fq_to_bytes(y.c0);
            let b3 = fq_to_bytes(y.c1);
            append_bytes(&mut out, &b0);
            append_bytes(&mut out, &b1);
            append_bytes(&mut out, &b2);
            append_bytes(&mut out, &b3);
            assert(out@ =~= g2_bytes(value));
            assert(out@.subrange(0, 32) =~= b0@);
            assert(out@.subrange(32, 64) =~= b1@);
            assert(out@.subrange(64, 96) =~= b2@);
            assert(out@.subrange(96, 128) =~= b3@);
            out
        },
    }
}

/// Decodes the 128-byte layout of a G2 point; all zeros is the point at
/// infinity.
pub fn g2_from_bytes(bytes: &[u8]) -> (r: Result<G2Affine, FqParseError>)
    requires
        bytes@.len() == 128 && !all_zero(bytes@) ==> fq_chunk_ok(bytes@, 0) && fq_chunk_ok(bytes@, 32)
            && fq_chunk_ok(bytes@, 64) && fq_chunk_ok(bytes@, 96),
    ensures
        bytes@.len() != 128 ==> r matches Err(FqParseError::InvalidLength),
        bytes@.len() == 128 ==> (r matches Ok(p) && g2_decoded(bytes@, p)),
{
    if bytes.len() != 128 {
        return Err(FqParseError::InvalidLength);
    }
    if is_all_zero(bytes) {
        return Ok(G2Affine::zero());
    }
    let x = Fq2::new(fq_from_bytes(chunk32(bytes, 0)), fq_from_bytes(chunk32(bytes, 32)));
    let y = Fq2::new(fq_from_bytes(chunk32(bytes, 64)), fq_from_bytes(chunk32(bytes, 96)));
    Ok(G2Affine { x, y, infinity: false })
}

/// Zero bytes have value zero.
proof fn lemma_all_zero_value(b: Seq<u8>)
    requires
        all_zero(b),
    ensures
        bytes_value(b) == 0,
    decreases b.len(),
{
    if b.len() > 0 {
        assert(b[0] == 0);
        assert forall|i: int| 0 <= i < b.drop_first().len() implies #[trigger] b.drop_first()[i] == 0 by {
            assert(b.drop_first()[i] == b[i + 1]);
        }
        lemma_all_zero_value(b.drop_first());
    }
}

/// If the 32 bytes at `off` of `b` are the layout of `f` and `b` is all
/// zero, then `f` is zero.
proof fn lemma_zero_chunk(b: Seq<u8>, off: int, f: Fq)
    requires
        all_zero(b),
        0 <= off,
        off + 32 <= b.len(),
        f.spec_bytes() == b.subrange(off, off + 32),
    ensures
        f.val() == 0,
{
    f.lemma_spec_bytes();
    let c = b.subrange(off, off + 32);
    assert forall|i: int| 0 <= i < c.len() implies #[trigger] c[i] == 0 by {
        assert(c[i] == b[off + i]);
    }
    lemma_all_zero_value(c);
}

/// Two base-field elements with value zero are equal.
proof fn lemma_fq_zero_eq(a: Fq, b: Fq)
    requires
        a.val() == 0,
        b.val() == 0,
    ensures
        a == b,
{
    a.lemma_val_injective(b);
}

/// Decoding the 64 bytes of a G1 point gives back that point.
pub proof fn lemma_g1_bytes_roundtrip(p: G1Affine, q: G1Affine)
    requires
        g1_encodable(p),
        g1_decoded(g1_bytes(p), q),
    ensures
        q == p,
{
    let b = g1_bytes(p);
    if p.infinity {
        assert(all_zero(b));
        lemma_fq_zero_eq(p.x, q.x);
        lemma_fq_zero_eq(p.y, q.y);
    } else {
        p.x.lemma_spec_bytes();
        p.y.lemma_spec_bytes();
        assert(b.subrange(0, 32) =~= p.x.spec_bytes());
        assert(b.subrange(32, 64) =~= p.y.spec_bytes());
        if all_zero(b) {
            lemma_zero_chunk(b, 0, p.x);
            lemma_zero_chunk(b, 32, p.y);
        }
        lemma_fq_bytes_injective(p.x, q.x);
        lemma_fq_bytes_injective(p.y, q.y);
    }
}

/// Decoding the 128 bytes of a G2 point gives back that point.
pub proof fn lemma_g2_bytes_roundtrip(p: G2Affine, q: G2Affine)
    requires
        g2_encodable(p),
        g2_decoded(g2_bytes(p), q),
    ensures
        q == p,
{
    let b = g2_bytes(p);
    if p.infinity {
        assert(all_zero(b));
        lemma_fq_zero_eq(p.x.c0, q.x.c0);
        lemma_fq_zero_eq(p.x.c1, q.x.c1);
        lemma_fq_zero_eq(p.y.c0, q.y.c0);
        lemma_fq_zero_eq(p.y.c1, q.y.c1);
    } else {
        p.x.c0.lemma_spec_bytes();
        p.x.c1.lemma_spec_bytes();
        p.y.c0.lemma_spec_bytes();
        p.y.c1.lemma_spec_bytes();
        assert(b.subrange(0, 32) =~= p.x.c0.spec_bytes());
        assert(b.subrange(32, 64) =~= p.x.c1.spec_bytes());
        assert(b.subrange(64, 96) =~= p.y.c0.spec_bytes());
        assert(b.subrange(96, 128) =~= p.y.c1.spec_bytes());
        if all_zero(b) {
            lemma_zero_chunk(b, 0, p.x.c0);
            lemma_zero_chunk(b, 32, p.x.c1);
            lemma_zero_chunk(b, 64, p.y.c0);
            lemma_zero_chunk(b, 96, p.y.c1);
        }
        lemma_fq_bytes_injective(p.x.c0, q.x.c0);
        lemma_fq_bytes_injective(p.x.c1, q.x.c1);
        lemma_fq_bytes_injective(p.y.c0, q.y.c0);
        lemma_fq_bytes_injective(p.y.c1, q.y.c1);
    }
}

/// Serialization of G1 points as snarkjs coordinate triples `[x, y, z]`,
/// where `z` is one for a finite point and zero for infinity.
pub struct G1;

/// Serialization of G2 points as snarkjs coordinate triples of pairs, where
/// `z` is `(1, 0)` for a finite point and `(0, 0)` for infinity.
pub struct G2;

/// The coordinate triple of a G1 point.
pub open spec fn g1_coords(p: G1Affine) -> Seq<nat> {
    if p.infinity {
        seq![0nat, 0nat, 0nat]
    } else {
        seq![p.x.val(), p.y.val(), 1nat]
    }
}

/// The coordinate triple of a G2 point.
pub open spec fn g2_coords(p: G2Affine) -> Seq<Seq<nat>> {
    if p.infinity {
        seq![seq![0nat, 0nat], seq![0nat, 0nat], seq![0nat, 0nat]]
    } else {
        seq![seq![p.x.c0.val(), p.x.c1.val()], seq![p.y.c0.val(), p.y.c1.val()], seq![1nat, 0nat]]
    }
}

/// The values of a coordinate triple.
pub open spec fn fq_vals(c: Seq<Fq>) -> Seq<nat> {
    c.map_values(|f: Fq| f.val())
}

/// Whether `p` is the point of the coordinate triple `c`.
pub open spec fn g1_of_coords(c: Seq<Fq>, p: G1Affine) -> bool {
    if c[2].val() == 0 {
        g1_is_identity(p)
    } else {
        p == (G1Affine { x: c[0], y: c[1], infinity: false })
    }
}

/// Whether `p` is the point of the coordinate triple of pairs `c`.
pub open spec fn g2_of_coords(c: Seq<Seq<Fq>>, p: G2Affine) -> bool {
    if c[2][0].val() == 0 && c[2][1].val() == 0 {
        g2_is_identity(p)
    } else {
        p == (G2Affine { x: Fq2 { c0: c[0][0], c1: c[0][1] }, y: Fq2 { c0: c[1][0], c1: c[1][1] }, infinity: false })
    }
}

impl G1 {
    /// The coordinate triple of `value`.
    pub fn to_coords(value: G1Affine) -> (r: [Fq; 3])
        ensures
            fq_vals(r@) == g1_coords(value),
    {
        let r = match value.xy() {
            Some((x, y)) => [x, y, Fq::from_u64(1)],
            None => [Fq::from_u64(0), Fq::from_u64(0), Fq::from_u64(0)],
        };
        assert(fq_vals(r@) =~= g1_coords(value));
        r
    }

    /// The point of a coordinate triple: infinity when `z` is zero.
    pub fn from_coords(coords: [Fq; 3]) -> (r: G1Affine)
        ensures
            g1_of_coords(coords@, r),
    {
        if coords[2].is_zero() {
            G1Affine::zero()
        } else {
            G1Affine { x: coords[0], y: coords[1], infinity: false }
        }
    }
}

impl G2 {
    /// The coordinate triple of `value`.
    pub fn to_coords(value: G2Affine) -> (r: [[Fq; 2]; 3])
        ensures
            r@.map_values(|c: [Fq; 2]| fq_vals(c@)) == g2_coords(value),
    {
        let r = match value.xy() {
            Some((x, y)) => [[x.c0, x.c1], [y.c0, y.c1], [Fq::from_u64(1), Fq::from_u64(0)]],
            None => [[Fq::from_u64(0), Fq::from_u64(0)], [Fq::from_u64(0), Fq::from_u64(0)], [Fq::from_u64(0), Fq::from_u64(0)]],
        };
        assert(r@.map_values(|c: [Fq; 2]| fq_vals(c@)) =~= g2_coords(value)) by {
            assert(fq_vals(r@[0]@) =~= g2_coords(value)[0]);
            assert(fq_vals(r@[1]@) =~= g2_coords(value)[1]);
            assert(fq_vals(r@[2]@) =~= g2_coords(value)[2]);
        }
        r
    }

    /// The point of a coordinate triple: infinity when `z` is `(0, 0)`.
    pub fn from_coords(coords: [[Fq; 2]; 3]) -> (r: G2Affine)
        ensures
            g2_of_coords(coords@.map_values(|c: [Fq; 2]| c@), r),
    {
        if coords[2][0].is_zero() && coords[2][1].is_zero() {
            G2Affine::zero()
        } else {
            G2Affine {
                x: Fq2::new(coords[0][0], coords[0][1]),
                y: Fq2::new(coords[1][0], coords[1][1]),
                infinity: false,
            }
        }
    }
}

/// The decimal text of a G1 point: `[x, y, "1"]`, or `["0", "0", "0"]` for
/// infinity.
pub open spec fn g1_text(p: G1Affine) -> Seq<Seq<char>> {
    if p.infinity {
        seq![seq!['0'], seq!['0'], seq!['0']]
    } else {
        seq![decimal(p.x.val()), decimal(p.y.val()), seq!['1']]
    }
}

/// The decimal text of a G2 point: `[[x0, x1], [y0, y1], ["1", "0"]]`, or
/// zeros for infinity.
pub open spec fn g2_text(p: G2Affine) -> Seq<Seq<Seq<char>>> {
    if p.infinity {
        seq![seq![seq!['0'], seq!['0']], seq![seq!['0'], seq!['0']], seq![seq!['0'], seq!['0']]]
    } else {
        seq![
            seq![decimal(p.x.c0.val()), decimal(p.x.c1.val())],
            seq![decimal(p.y.c0.val()), decimal(p.y.c1.val())],
            seq![seq!['1'], seq!['0']],
        ]
    }
}

/// The texts of strings.
pub open spec fn texts(v: Seq<String>) -> Seq<Seq<char>> {
    v.map_values(|s: String| s@)
}

/// Whether `r` is what the decimal triple `t` parses to as a G1 point.
pub open spec fn g1_parsed(t: Seq<Seq<char>>, r: Result<G1Affine, FqParseError>) -> bool {
    if t[2] == seq!['0'] {
        r matches Ok(p) && g1_is_identity(p)
    } else {
        match (parse_field_decimal(t[0], fq_modulus()), parse_field_decimal(t[1], fq_modulus())) {
            (Some(x), Some(y)) => r matches Ok(p) && !p.infinity && p.x.val() == x && p.y.val() == y,
            _ => r matches Err(FqParseError::InvalidField),
        }
    }
}

/// Whether `r` is what the decimal triple of pairs `t` parses to as a G2
/// point.
pub open spec fn g2_parsed(t: Seq<Seq<Seq<char>>>, r: Result<G2Affine, FqParseError>) -> bool {
    if t[2][0] == seq!['0'] && t[2][1] == seq!['0'] {
        r matches Ok(p) && g2_is_identity(p)
    } else {
        match (
            parse_field_decimal(t[0][0], fq_modulus()),
            parse_field_decimal(t[0][1], fq_modulus()),
            parse_field_decimal(t[1][0], fq_modulus()),
            parse_field_decimal(t[1][1], fq_modulus()),
        ) {
            (Some(x0), Some(x1), Some(y0), Some(y1)) => r matches Ok(p) && !p.infinity
                && p.x.c0.val() == x0 && p.x.c1.val() == x1 && p.y.c0.val() == y0 && p.y.c1.val() == y1,
            _ => r matches Err(FqParseError::InvalidField),
        }
    }
}

/// The decimal text of a G1 point.
pub fn g1_to_string(value: G1Affine) -> (r: [String; 3])
    ensures
        texts(r@) == g1_text(value),
{
    proof {
        reveal_strlit("0");
        reveal_strlit("1");
    }
    assert("0"@ =~= seq!['0']);
    assert("1"@ =~= seq!['1']);
    let r = match value.xy() {
        None => [String::from_str("0"), String::from_str("0"), String::from_str("0")],
        Some((x, y)) => [fq_to_string(&x), fq_to_string(&y), String::from_str("1")],
    };
    assert(texts(r@) =~= g1_text(value));
    r
}

/// The decimal text of a G2 point.
pub fn g2_to_string(value: G2Affine) -> (r: [[String; 2]; 3])
    ensures
        r@.map_values(|p: [String; 2]| texts(p@)) == g2_text(value),
{
    proof {
        reveal_strlit("0");
        reveal_strlit("1");
    }
    assert("0"@ =~= seq!['0']);
    assert("1"@ =~= seq!['1']);
    let r = match value.xy() {
        None => [
            [String::from_str("0"), String::from_str("0")],
            [String::from_str("0"), String::from_str("0")],
            [String::from_str("0"), String::from_str("0")],
        ],
        Some((x, y)) => [
            [fq_to_string(&x.c0), fq_to_string(&x.c1)],
            [fq_to_string(&y.c0), fq_to_string(&y.c1)],
            [String::from_str("1"), String::from_str("0")],
        ],
    };
    assert(r@.map_values(|p: [String; 2]| texts(p@)) =~= g2_text(value)) by {
        assert(texts(r@[0]@) =~= g2_text(value)[0]);
        assert(texts(r@[1]@) =~= g2_text(value)[1]);
        assert(texts(r@[2]@) =~= g2_text(value)[2]);
    }
    r
}

/// Whether `s` is the text `"0"`.
fn is_zero_text(s: &String) -> (r: bool)
    ensures
        r == (s@ == seq!['0']),
{
    proof {
        reveal_strlit("0");
    }
    let z = String::from_str("0");
    let t = s.as_str().to_owned();
    assert(z@ =~= seq!['0']);
    t == z
}

/// Parses the decimal triple of a G1 point; `z` equal to `"0"` gives the
/// point at infinity.
pub fn parse_g1(value: &[String; 3]) -> (r: Result<G1Affine, FqParseError>)
    ensures
        g1_parsed(texts(value@), r),
{
    if is_zero_text(&value[2]) {
        return Ok(G1Affine::zero());
    }
    let x = match fq_from_str(value[0].as_str()) {
        Some(x) => x,
        None => {
            return Err(FqParseError::InvalidField);
        },
    };
    let y = match fq_from_str(value[1].as_str()) {
        Some(y) => y,
        None => {
            return Err(FqParseError::InvalidField);
        },
    };
    Ok(G1Affine { x, y, infinity: false })
}

/// Parses the decimal triple of pairs of a G2 point; `z` equal to
/// `("0", "0")` gives the point at infinity.
pub fn parse_f2(value: &[[String; 2]; 3]) -> (r: Result<G2Affine, FqParseError>)
    ensures
        g2_parsed(value@.map_values(|p: [String; 2]| texts(p@)), r),
{
    if is_zero_text(&value[2][0]) && is_zero_text(&value[2][1]) {
        return Ok(G2Affine::zero());
    }
    let x0 = match fq_from_str(value[0][0].as_str()) {
        Some(v) => v,
        None => {
            return Err(FqParseError::InvalidField);
        },
    };
    let x1 = match fq_from_str(value[0][1].as_str()) {
        Some(v) => v,
        None => {
            return Err(FqParseError::InvalidField);
        },
    };
    let y0 = match fq_from_str(value[1][0].as_str()) {
        Some(v) => v,
        None => {
            return Err(FqParseError::InvalidField);
        },
    };
    let y1 = match fq_from_str(value[1][1].as_str()) {
        Some(v) => v,
        None => {
            return Err(FqParseError::InvalidField);
        },
    };
    Ok(G2Affine { x: Fq2::new(x0, x1), y: Fq2::new(y0, y1), infinity: false })
}

/// A point rebuilt from its coordinate triple is the point itself.
pub proof fn lemma_g1_coords_roundtrip(p: G1Affine, c: Seq<Fq>, q: G1Affine)
    requires
        p.infinity ==> p.x.val() == 0 && p.y.val() == 0,
        c.len() == 3,
        fq_vals(c) == g1_coords(p),
        g1_of_coords(c, q),
    ensures
        q == p,
{
    assert(fq_vals(c)[0] == c[0].val() && fq_vals(c)[1] == c[1].val() && fq_vals(c)[2] == c[2].val());
    if p.infinity {
        lemma_fq_zero_eq(p.x, q.x);
        lemma_fq_zero_eq(p.y, q.y);
    } else {
        c[0].lemma_val_injective(p.x);
        c[1].lemma_val_injective(p.y);
    }
}

/// A point rebuilt from its coordinate triple of pairs is the point itself.
pub proof fn lemma_g2_coords_roundtrip(p: G2Affine, c: Seq<Seq<Fq>>, q: G2Affine)
    requires
        p.infinity ==> p.x.c0.val() == 0 && p.x.c1.val() == 0 && p.y.c0.val() == 0 && p.y.c1.val() == 0,
        c.len() == 3,
        forall|i: int| 0 <= i < 3 ==> #[trigger] c[i].len() == 2,
        c.map_values(|v: Seq<Fq>| fq_vals(v)) == g2_coords(p),
        g2_of_coords(c, q),
    ensures
        q == p,
{
    let cv = c.map_values(|v: Seq<Fq>| fq_vals(v));
    assert(cv[0] == fq_vals(c[0]) && cv[1] == fq_vals(c[1]) && cv[2] == fq_vals(c[2]));
    assert(c[0].len() == 2 && c[1].len() == 2 && c[2].len() == 2);
    assert(fq_vals(c[0])[0] == c[0][0].val() && fq_vals(c[0])[1] == c[0][1].val());
    assert(fq_vals(c[1])[0] == c[1][0].val() && fq_vals(c[1])[1] == c[1][1].val());
    assert(fq_vals(c[2])[0] == c[2][0].val() && fq_vals(c[2])[1] == c[2][1].val());
    if p.infinity {
        lemma_fq_zero_eq(p.x.c0, q.x.c0);
        lemma_fq_zero_eq(p.x.c1, q.x.c1);
        lemma_fq_zero_eq(p.y.c0, q.y.c0);
        lemma_fq_zero_eq(p.y.c1, q.y.c1);
    } else {
        c[0][0].lemma_val_injective(p.x.c0);
        c[0][1].lemma_val_injective(p.x.c1);
        c[1][0].lemma_val_injective(p.y.c0);
        c[1][1].lemma_val_injective(p.y.c1);
    }
}

/// Parsing the decimal text of a G1 point gives back that point.
pub proof fn lemma_g1_text_roundtrip(p: G1Affine, r: Result<G1Affine, FqParseError>)
    requires
        p.x.val() < fq_modulus(),
        p.y.val() < fq_modulus(),
        p.infinity ==> p.x.val() == 0 && p.y.val() == 0,
        g1_parsed(g1_text(p), r),
    ensures
        r == Ok::<G1Affine, FqParseError>(p),
{
    let q = r->Ok_0;
    if p.infinity {
        lemma_fq_zero_eq(p.x, q.x);
        lemma_fq_zero_eq(p.y, q.y);
    } else {
        assert(seq!['1'] != seq!['0']) by {
            assert(seq!['1'][0] != seq!['0'][0]);
        }
        lemma_parse_field_decimal(p.x.val(), fq_modulus());
        lemma_parse_field_decimal(p.y.val(), fq_modulus());
        q.x.lemma_val_injective(p.x);
        q.y.lemma_val_injective(p.y);
    }
}

/// Parsing the decimal text of a G2 point gives back that point.
pub proof fn lemma_g2_text_roundtrip(p: G2Affine, r: Result<G2Affine, FqParseError>)
    requires
        p.x.c0.val() < fq_modulus(),
        p.x.c1.val() < fq_modulus(),
        p.y.c0.val() < fq_modulus(),
        p.y.c1.val() < fq_modulus(),
        p.infinity ==> p.x.c0.val() == 0 && p.x.c1.val() == 0 && p.y.c0.val() == 0 && p.y.c1.val() == 0,
        g2_parsed(g2_text(p), r),
    ensures
        r == Ok::<G2Affine, FqParseError>(p),
{
    let q = r->Ok_0;
    if p.infinity {
        lemma_fq_zero_eq(p.x.c0, q.x.c0);
        lemma_fq_zero_eq(p.x.c1, q.x.c1);
        lemma_fq_zero_eq(p.y.c0, q.y.c0);
        lemma_fq_zero_eq(p.y.c1, q.y.c1);
    } else {
        assert(seq!['1'] != seq!['0']) by {
            assert(seq!['1'][0] != seq!['0'][0]);
        }
        lemma_parse_field_decimal(p.x.c0.val(), fq_modulus());
        lemma_parse_field_decimal(p.x.c1.val(), fq_modulus());
        lemma_parse_field_decimal(p.y.c0.val(), fq_modulus());
        lemma_parse_field_decimal(p.y.c1.val(), fq_modulus());
        q.x.c0.lemma_val_injective(p.x.c0);
        q.x.c1.lemma_val_injective(p.x.c1);
        q.y.c0.lemma_val_injective(p.y.c0);
        q.y.c1.lemma_val_injective(p.y.c1);
    }
}

/// The coordinate triple of a finite G1 point lists its x-coordinate, then
/// its y-coordinate, then one; that of the point at infinity is three zeros.
pub proof fn lemma_g1_coords_order(p: G1Affine)
    ensures
        g1_coords(p).len() == 3,
        !p.infinity ==> g1_coords(p)[0] == p.x.val() && g1_coords(p)[1] == p.y.val() && g1_coords(p)[2] == 1,
        p.infinity ==> g1_coords(p)[0] == 0 && g1_coords(p)[1] == 0 && g1_coords(p)[2] == 0,
{
}

/// A triple whose third entry is not zero is read as the finite G1 point whose
/// x-coordinate is the first entry and whose y-coordinate is the second.
pub proof fn lemma_g1_of_coords_order(c: Seq<Fq>, p: G1Affine)
    requires
        c.len() == 3,
        c[2].val() != 0,
        g1_of_coords(c, p),
    ensures
        !p.infinity,
        p.x == c[0],
        p.y == c[1],
{
}

/// The coordinate triple of a finite G2 point lists the two parts of its
/// x-coordinate, then those of its y-coordinate, then one as `[1, 0]`.
pub proof fn lemma_g2_coords_order(p: G2Affine)
    ensures
        g2_coords(p).len() == 3,
        !p.infinity ==> g2_coords(p)[0] == seq![p.x.c0.val(), p.x.c1.val()]
            && g2_coords(p)[1] == seq![p.y.c0.val(), p.y.c1.val()]
            && g2_coords(p)[2] == seq![1nat, 0nat],
{
}

/// A triple of pairs whose third pair is not zero is read as the finite G2
/// point whose x-coordinate is the first pair and whose y-coordinate is the
/// second.
pub proof fn lemma_g2_of_coords_order(c: Seq<Seq<Fq>>, p: G2Affine)
    requires
        c.len() == 3,
        c[2].len() == 2,
        c[2][0].val() != 0 || c[2][1].val() != 0,
        g2_of_coords(c, p),
    ensures
        !p.infinity,
        p.x.c0 == c[0][0] && p.x.c1 == c[0][1],
        p.y.c0 == c[1][0] && p.y.c1 == c[1][1],
{
}

/// The 64 bytes of a finite G1 point hold its x-coordinate's value in the
/// first 32 and its y-coordinate's value in the last 32, little-endian.
pub proof fn lemma_g1_bytes_order(p: G1Affine)
    requires
        !p.infinity,
    ensures
        g1_bytes(p).len() == 64,
        bytes_value(g1_bytes(p).subrange(0, 32)) == p.x.val(),
        bytes_value(g1_bytes(p).subrange(32, 64)) == p.y.val(),
{
    p.x.lemma_spec_bytes();
    p.y.lemma_spec_bytes();
    assert(g1_bytes(p).subrange(0, 32) =~= p.x.spec_bytes());
    assert(g1_bytes(p).subrange(32, 64) =~= p.y.spec_bytes());
}

/// A G1 point decoded from 64 bytes that are not all zero is finite, with
/// the value of the first 32 bytes as x and of the last 32 as y.
pub proof fn lemma_g1_decoded_order(b: Seq<u8>, p: G1Affine)
    requires
        !all_zero(b),
        g1_decoded(b, p),
    ensures
        !p.infinity,
        p.x.val() == bytes_value(b.subrange(0, 32)),
        p.y.val() == bytes_value(b.subrange(32, 64)),
{
    p.x.lemma_spec_bytes();
    p.y.lemma_spec_bytes();
}

/// The 128 bytes of a finite G2 point hold, 32 bytes each and in this order,
/// the values of x.c0, x.c1, y.c0 and y.c1.
pub proof fn lemma_g2_bytes_order(p: G2Affine)
    requires
        !p.infinity,
    ensures
        g2_bytes(p).len() == 128,
        bytes_value(g2_bytes(p).subrange(0, 32)) == p.x.c0.val(),
        bytes_value(g2_bytes(p).subrange(32, 64)) == p.x.c1.val(),
        bytes_value(g2_bytes(p).subrange(64, 96)) == p.y.c0.val(),
        bytes_value(g2_bytes(p).subrange(96, 128)) == p.y.c1.val(),
{
    p.x.c0.lemma_spec_bytes();
    p.x.c1.lemma_spec_bytes();
    p.y.c0.lemma_spec_bytes();
    p.y.c1.lemma_spec_bytes();
    let b = g2_bytes(p);
    assert(b.subrange(0, 32) =~= p.x.c0.spec_bytes());
    assert(b.subrange(32, 64) =~= p.x.c1.spec_bytes());
    assert(b.subrange(64, 96) =~= p.y.c0.spec_bytes());
    assert(b.subrange(96, 128) =~= p.y.c1.spec_bytes());
}

/// A G2 point decoded from 128 bytes that are not all zero is finite, with
/// x.c0, x.c1, y.c0 and y.c1 the values of the four 32-byte parts in order.
pub proof fn lemma_g2_decoded_order(b: Seq<u8>, p: G2Affine)
    requires
        !all_zero(b),
        g2_decoded(b, p),
    ensures
        !p.infinity,
        p.x.c0.val() == bytes_value(b.subrange(0, 32)),
        p.x.c1.val() == bytes_value(b.subrange(32, 64)),
        p.y.c0.val() == bytes_value(b.subrange(64, 96)),
        p.y.c1.val() == bytes_value(b.subrange(96, 128)),
{
    p.x.c0.lemma_spec_bytes();
    p.x.c1.lemma_spec_bytes();
    p.y.c0.lemma_spec_bytes();
    p.y.c1.lemma_spec_bytes();
}

/// The decimal text of a finite G1 point is its x-coordinate, its
/// y-coordinate and "1", in that order.
pub proof fn lemma_g1_text_order(p: G1Affine)
    requires
        !p.infinity,
    ensures
        g1_text(p).len() == 3,
        g1_text(p)[0] == decimal(p.x.val()),
        g1_text(p)[1] == decimal(p.y.val()),
        g1_text(p)[2] == seq!['1'],
{
}

/// A G1 point parsed from a triple whose third text is not "0" has the first
/// text's value as x and the second's as y.
pub proof fn lemma_g1_parsed_order(t: Seq<Seq<char>>, p: G1Affine)
    requires
        t.len() == 3,
        t[2] != seq!['0'],
        g1_parsed(t, Ok(p)),
    ensures
        !p.infinity,
        parse_field_decimal(t[0], fq_modulus()) == Some(p.x.val()),
        parse_field_decimal(t[1], fq_modulus()) == Some(p.y.val()),
{
}

/// A G2 point parsed from a triple of pairs whose third pair is not zero has
/// the first pair as x and the second as y, each as (c0, c1).
pub proof fn lemma_g2_parsed_order(t: Seq<Seq<Seq<char>>>, p: G2Affine)
    requires
        t.len() == 3,
        !(t[2][0] == seq!['0'] && t[2][1] == seq!['0']),
        g2_parsed(t, Ok(p)),
    ensures
        !p.infinity,
        parse_field_decimal(t[0][0], fq_modulus()) == Some(p.x.c0.val()),
        parse_field_decimal(t[0][1], fq_modulus()) == Some(p.x.c1.val()),
        parse_field_decimal(t[1][0], fq_modulus()) == Some(p.y.c0.val()),
        parse_field_decimal(t[1][1], fq_modulus()) == Some(p.y.c1.val()),
{
}

} // verus!
