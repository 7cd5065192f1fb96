//! BN254 as the scheme uses it: the two source groups, the twist, the curve
//! equations, the pairing in additive notation, and the two hash functions.
//!
//! `G_1 = E(F_p)` has prime order `r`, so a pair of coordinates on `E` is a group
//! element. The twist `E'(F_{p^2})` has order `r·h_2`, and `G_2` is its unique
//! subgroup of order `r`; a pair of coordinates on `E'` is a twist point that
//! lies in `G_2` only if `r·B = O`. We therefore type twist points as [`Twist`]
//! and check membership with [`in_g2`].
use crate::elems::{Field, Fq, Fq2};
use crate::groups;
use crate::nums;
use crate::points;
use crate::points::Pt;
use crate::ring;
use crate::ring::El;
use ark_ec::short_weierstrass::SWCurveConfig;
use ark_ff::PrimeField;
use sha2::Digest;
use vstd::array::array_as_slice;
use vstd::prelude::*;

pub use crate::groups::{Gt, Twist, G1};

verus! {

/// The security parameter `λ`.
pub const LAMBDA: usize = 128;

/// The garbler's secret, `λ` bits.
pub type Secret = [u8; 16];

// ------------------------------------------------------------ outside calls

/// `SWCurveConfig::COEFF_B` of `ark_bn254::g1::Config`: three.
#[verifier::external_body]
fn ark_b1() -> (res: [u64; 4])
    ensures
        El::num(nums::limbs_val(res@)) == groups::beta1(),
{
    let b = <ark_bn254::g1::Config as SWCurveConfig>::COEFF_B;
    b.into_bigint().0
}

/// `SWCurveConfig::COEFF_B` of `ark_bn254::g2::Config`, by components.
#[verifier::external_body]
fn ark_b2() -> (res: ([u64; 4], [u64; 4]))
    ensures
        groups::pair_el(res.0@, res.1@) == groups::beta2(),
{
    let b = <ark_bn254::g2::Config as SWCurveConfig>::COEFF_B;
    (b.c0.into_bigint().0, b.c1.into_bigint().0)
}

/// `PrimeField::MODULUS` of `ark_bn254::Fq`: the limbs of `p`.
#[verifier::external_body]
fn ark_modulus() -> (res: [u64; 4])
    ensures
        nums::limbs_val(res@) == ring::p(),
{
    ark_bn254::Fq::MODULUS.0
}

/// The SHA-256 digest of a message.
pub uninterp spec fn sha256(message: Seq<u8>) -> Seq<u8>;

/// `Sha256::digest` of sha2.
#[verifier::external_body]
fn sha2_digest(message: &[u8]) -> (res: [u8; 32])
    ensures
        res@ == sha256(message@),
{
    sha2::Sha256::digest(message).into()
}

// ----------------------------------------------------------------- pairings

/// The pairing `e: G_1 × G_2 → G_T`. The caller guarantees `b ∈ G_2`.
pub fn pair(a: &G1, b: &Twist) -> (res: Gt)
    requires
        groups::in_subgroup(b@),
    ensures
        res@ == groups::gt_at((groups::g1_log(a@) * groups::g2_log(b@)) % ring::r()),
        groups::gt_log(res@) == (groups::g1_log(a@) * groups::g2_log(b@)) % ring::r(),
{
    let (p, q) = ([*a], [*b]);
    proof {
        reveal_with_fuel(groups::pairing_sum, 2);
    }
    multi_pair(p, q)
}

/// `e(a_1, b_1) + ... + e(a_N, b_N)`, with one final exponentiation instead of
/// `N`. Same value, cheaper. The caller guarantees every `b_i ∈ G_2`.
pub fn multi_pair<const N: usize>(a: [G1; N], b: [Twist; N]) -> (res: Gt)
    requires
        forall|i: int| 0 <= i < N ==> groups::in_subgroup((#[trigger] b@[i])@),
    ensures
        res@ == groups::gt_at(groups::pairing_sum(a@, b@, N as int) % ring::r()),
        groups::gt_log(res@) == groups::pairing_sum(a@, b@, N as int) % ring::r(),
{
    Gt::multi_pairing(a, b)
}

// ------------------------------------------------------------------ equations

/// The constant `b` of `E: v² = u³ + b` over `F_p`.
pub fn b1() -> (res: Fq)
    ensures
        res@ == groups::beta1(),
{
    Fq { limbs: ark_b1() }
}

/// The constant `b'` of the twist `E': v² = u³ + b'` over `F_{p^2}`.
pub fn b2() -> (res: Fq2)
    ensures
        res@ == groups::beta2(),
{
    let (c0, c1) = ark_b2();
    Fq2 { c0: Fq { limbs: c0 }, c1: Fq { limbs: c1 } }
}

/// `v² − u³ − b`.
pub open spec fn equation(u: El, v: El, b: El) -> El {
    v.times(v).minus(u.times(u).times(u)).minus(b)
}

/// The equation vanishes exactly on the points of the curve.
pub proof fn law_equation_vanishes_on_curve(u: El, v: El, b: El)
    requires
        b.reduced(),
    ensures
        (equation(u, v, b) == El::num(0)) == points::on_curve(u, v, b),
{
    let (vv, uuu) = (v.times(v), u.times(u).times(u));
    ring::lemma_reduced(v, v);
    ring::lemma_reduced(u.times(u), u);
    ring::lemma_reduced(vv, uuu);
    ring::lemma_reduced(uuu, b);
    ring::lemma_minus_zero(vv.minus(uuu), b);
    ring::lemma_minus_plus(vv, uuu);
    ring::lemma_minus_plus(b, uuu);
    ring::lemma_plus_comm(b, uuu);
}

/// `g_1(u, v) = v² − u³ − b`, zero exactly on the points of `E`.
pub fn g1_eq(u: Fq, v: Fq) -> (res: Fq)
    ensures
        res@ == equation(u@, v@, groups::beta1()),
        res@ == v@.times(v@).minus(u@.times(u@).times(u@)).minus(groups::beta1()),
        res@ == El::num(0) <==> points::on_curve(u@, v@, groups::beta1()),
{
    proof {
        law_equation_vanishes_on_curve(u@, v@, groups::beta1());
    }
    v.mul(v).sub(u.mul(u).mul(u)).sub(b1())
}

/// `g_2(u, v) = v² − u³ − b'`, zero exactly on the points of `E'`.
pub fn g2_eq(u: Fq2, v: Fq2) -> (res: Fq2)
    ensures
        res@ == equation(u@, v@, groups::beta2()),
        res@ == v@.times(v@).minus(u@.times(u@).times(u@)).minus(groups::beta2()),
        res@ == El::num(0) <==> points::on_curve(u@, v@, groups::beta2()),
{
    proof {
        law_equation_vanishes_on_curve(u@, v@, groups::beta2());
    }
    v.mul(v).sub(u.mul(u).mul(u)).sub(b2())
}

/// `r · B`, computed with the integer `r` (a scalar in `F_r` would reduce to zero).
pub fn r_times(b: &Twist) -> (res: Twist)
    ensures
        res@ == groups::r_multiple(b@),
        res@.on(groups::beta2()),
{
    b.r_times()
}

/// Whether a twist point lies in `G_2`.
pub fn in_g2(b: &Twist) -> (res: bool)
    ensures
        res == groups::in_subgroup(b@),
        res == (b@.times(ring::r() as nat) == Pt::Inf),
{
    r_times(b).is_zero()
}

/// The point of `E` with the given coordinates, if they satisfy the equation.
pub fn g1_from_coords(u: Fq, v: Fq) -> (res: Option<G1>)
    ensures
        res is Some <==> points::on_curve(u@, v@, groups::beta1()),
        res matches Some(g) ==> g@ == Pt::At(u@, v@) && groups::is_g1(g@),
{
    G1::from_coords(u, v)
}

/// The twist point with the given coordinates, if they satisfy the equation.
pub fn twist_from_coords(u: Fq2, v: Fq2) -> (res: Option<Twist>)
    ensures
        res is Some <==> points::on_curve(u@, v@, groups::beta2()),
        res matches Some(t) ==> t@ == Pt::At(u@, v@) && groups::is_twist(t@),
{
    Twist::from_coords(u, v)
}

/// Affine coordinates of a point of `G_1`, or `None` for the point at infinity.
pub fn g1_coords(p: &G1) -> (res: Option<(Fq, Fq)>)
    ensures
        match p@ {
            Pt::Inf => res is None,
            Pt::At(x, y) => res matches Some(c) && c.0@ == x && c.1@ == y,
        },
{
    p.coords()
}

/// Affine coordinates of a twist point, or `None` for the point at infinity.
pub fn twist_coords(p: &Twist) -> (res: Option<(Fq2, Fq2)>)
    ensures
        match p@ {
            Pt::Inf => res is None,
            Pt::At(x, y) => res matches Some(c) && c.0@ == x && c.1@ == y,
        },
{
    p.coords()
}

// ------------------------------------------------------------------- hashes

/// The bytes of `grover/H_com`.
pub open spec fn com_tag() -> Seq<u8> {
    seq![
        0x67u8,
        0x72u8,
        0x6fu8,
        0x76u8,
        0x65u8,
        0x72u8,
        0x2fu8,
        0x48u8,
        0x5fu8,
        0x63u8,
        0x6fu8,
        0x6du8,
    ]
}

/// The bytes of `grover/H_key`.
pub open spec fn key_tag() -> Seq<u8> {
    seq![
        0x67u8,
        0x72u8,
        0x6fu8,
        0x76u8,
        0x65u8,
        0x72u8,
        0x2fu8,
        0x48u8,
        0x5fu8,
        0x6bu8,
        0x65u8,
        0x79u8,
    ]
}

/// The message committed to by [`h_com`]: the tag, the length of `sid`, `sid`,
/// the index and the element, the numbers in eight little-endian bytes.
pub open spec fn com_message(sid: Seq<u8>, t: int, n: Seq<int>) -> Seq<u8> {
    com_tag() + nums::le_bytes(sid.len() as int, 8) + sid + nums::le_bytes(t, 8)
        + groups::gt_bytes(n)
}

/// The message hashed by [`h_key`]: the tag, the length of `sid`, `sid`, the number
/// of coefficients and the coefficients.
pub open spec fn key_message(sid: Seq<u8>, coeffs: Seq<u8>) -> Seq<u8> {
    key_tag() + nums::le_bytes(sid.len() as int, 8) + sid + nums::le_bytes(coeffs.len() as int, 8)
        + coeffs
}

/// The commitment to a target-group element.
pub open spec fn commitment(sid: Seq<u8>, t: int, n: Seq<int>) -> Seq<u8> {
    sha256(com_message(sid, t, n))
}

/// The pad derived from a coefficient vector.
pub open spec fn pad(sid: Seq<u8>, coeffs: Seq<u8>) -> Seq<u8> {
    sha256(key_message(sid, coeffs)).take(16)
}

/// `256^8`.
proof fn lemma_pow256_8()
    ensures
        nums::pow(256, 8) == 0x1_0000_0000_0000_0000int,
{
    reveal_with_fuel(nums::pow, 9);
}

/// What a committed message holds, read off its bytes: twelve bytes of tag, the length of
/// `sid` as a number of eight bytes, `sid` itself, the index as a number of eight bytes,
/// and each coefficient of the element as a number of 32 bytes, in order and with nothing
/// after them.
pub proof fn law_committed_message_reads_back(sid: Seq<u8>, t: int, n: Seq<int>)
    requires
        sid.len() < 0x1_0000_0000_0000_0000,
        0 <= t < 0x1_0000_0000_0000_0000,
        n.len() == 12,
        forall|i: int| 0 <= i < 12 ==> 0 <= #[trigger] n[i] < nums::pow(256, 32),
    ensures
        com_message(sid, t, n).len() == 12 + 8 + sid.len() + 8 + 12 * 32,
        com_message(sid, t, n).subrange(0, 12) == seq![
            0x67u8,
            0x72u8,
            0x6fu8,
            0x76u8,
            0x65u8,
            0x72u8,
            0x2fu8,
            0x48u8,
            0x5fu8,
            0x63u8,
            0x6fu8,
            0x6du8,
        ],
        nums::bytes_val(com_message(sid, t, n).subrange(12, 20)) == sid.len(),
        com_message(sid, t, n).subrange(20, 20int + sid.len()) == sid,
        nums::bytes_val(com_message(sid, t, n).subrange(20int + sid.len(), 28int + sid.len())) == t,
        forall|i: int|
            #![trigger n[i]]
            0 <= i < 12 ==> nums::bytes_val(
                com_message(sid, t, n).subrange(28int + sid.len() + 32 * i, 60int + sid.len() + 32 * i),
            ) == n[i],
{
    let m = com_message(sid, t, n);
    let (l8, t8, g) = (
        nums::le_bytes(sid.len() as int, 8),
        nums::le_bytes(t, 8),
        groups::gt_bytes(n),
    );
    lemma_pow256_8();
    nums::lemma_le_bytes(sid.len() as int, 8);
    nums::lemma_le_bytes(t, 8);
    groups::lemma_gt_bytes(n);
    assert(m.subrange(0, 12) =~= com_tag());
    assert(m.subrange(12, 20) =~= l8);
    assert(m.subrange(20, 20int + sid.len()) =~= sid);
    assert(m.subrange(20int + sid.len(), 28int + sid.len()) =~= t8);
    assert forall|i: int|
        #![trigger n[i]]
        0 <= i < 12 implies nums::bytes_val(
        m.subrange(28int + sid.len() + 32 * i, 60int + sid.len() + 32 * i),
    ) == n[i] by {
        assert(m.subrange(28int + sid.len() + 32 * i, 60int + sid.len() + 32 * i) =~= g.subrange(
            32 * i,
            32 * i + 32,
        ));
        nums::lemma_le_bytes(n[i], 32);
    }
}

/// The committed message determines what is committed to: the session, the index and the
/// element of the target group.
pub proof fn law_committed_message_determines(
    sid1: Seq<u8>,
    t1: int,
    n1: Seq<int>,
    sid2: Seq<u8>,
    t2: int,
    n2: Seq<int>,
)
    requires
        sid1.len() < 0x1_0000_0000_0000_0000,
        sid2.len() < 0x1_0000_0000_0000_0000,
        0 <= t1 < 0x1_0000_0000_0000_0000,
        0 <= t2 < 0x1_0000_0000_0000_0000,
        n1.len() == 12,
        n2.len() == 12,
        forall|i: int| 0 <= i < 12 ==> 0 <= #[trigger] n1[i] < nums::pow(256, 32),
        forall|i: int| 0 <= i < 12 ==> 0 <= #[trigger] n2[i] < nums::pow(256, 32),
        com_message(sid1, t1, n1) == com_message(sid2, t2, n2),
    ensures
        sid1 == sid2,
        t1 == t2,
        n1 == n2,
{
    law_committed_message_reads_back(sid1, t1, n1);
    law_committed_message_reads_back(sid2, t2, n2);
    assert forall|i: int| 0 <= i < 12 implies n1[i] == n2[i] by {
        let (a, b) = (n1[i], n2[i]);
    }
    assert(n1 =~= n2);
}

/// What a message hashed to a pad holds, read off its bytes: twelve bytes of tag, the
/// length of `sid` as a number of eight bytes, `sid` itself, the number of coefficients as
/// a number of eight bytes, and every coefficient, with nothing after them.
pub proof fn law_pad_message_reads_back(sid: Seq<u8>, coeffs: Seq<u8>)
    requires
        sid.len() < 0x1_0000_0000_0000_0000,
        coeffs.len() < 0x1_0000_0000_0000_0000,
    ensures
        key_message(sid, coeffs).len() == 12 + 8 + sid.len() + 8 + coeffs.len(),
        key_message(sid, coeffs).subrange(0, 12) == seq![
            0x67u8,
            0x72u8,
            0x6fu8,
            0x76u8,
            0x65u8,
            0x72u8,
            0x2fu8,
            0x48u8,
            0x5fu8,
            0x6bu8,
            0x65u8,
            0x79u8,
        ],
        nums::bytes_val(key_message(sid, coeffs).subrange(12, 20)) == sid.len(),
        key_message(sid, coeffs).subrange(20, 20int + sid.len()) == sid,
        nums::bytes_val(key_message(sid, coeffs).subrange(20int + sid.len(), 28int + sid.len()))
            == coeffs.len(),
        key_message(sid, coeffs).skip(28int + sid.len()) == coeffs,
{
    let m = key_message(sid, coeffs);
    lemma_pow256_8();
    nums::lemma_le_bytes(sid.len() as int, 8);
    nums::lemma_le_bytes(coeffs.len() as int, 8);
    assert(m.subrange(0, 12) =~= key_tag());
    assert(m.subrange(12, 20) =~= nums::le_bytes(sid.len() as int, 8));
    assert(m.subrange(20, 20int + sid.len()) =~= sid);
    assert(m.subrange(20int + sid.len(), 28int + sid.len()) =~= nums::le_bytes(coeffs.len() as int, 8));
    assert(m.skip(28int + sid.len()) =~= coeffs);
}

/// The message hashed to a pad determines the session and the whole coefficient vector,
/// whatever its length.
pub proof fn law_pad_message_determines(
    sid1: Seq<u8>,
    coeffs1: Seq<u8>,
    sid2: Seq<u8>,
    coeffs2: Seq<u8>,
)
    requires
        sid1.len() < 0x1_0000_0000_0000_0000,
        sid2.len() < 0x1_0000_0000_0000_0000,
        coeffs1.len() < 0x1_0000_0000_0000_0000,
        coeffs2.len() < 0x1_0000_0000_0000_0000,
        key_message(sid1, coeffs1) == key_message(sid2, coeffs2),
    ensures
        sid1 == sid2,
        coeffs1 == coeffs2,
{
    law_pad_message_reads_back(sid1, coeffs1);
    law_pad_message_reads_back(sid2, coeffs2);
}

/// A byte of the tag is one of the message.
proof fn lemma_tenth_byte(tag: Seq<u8>, a: Seq<u8>, b: Seq<u8>, c: Seq<u8>, d: Seq<u8>)
    requires
        tag.len() == 12,
    ensures
        (tag + a + b + c + d)[9] == tag[9],
{
}

/// No committed message is one that is hashed to a pad.
pub proof fn law_hash_domains_are_apart(
    sid1: Seq<u8>,
    t: int,
    n: Seq<int>,
    sid2: Seq<u8>,
    coeffs: Seq<u8>,
)
    requires
        sid1.len() < 0x1_0000_0000_0000_0000,
        sid2.len() < 0x1_0000_0000_0000_0000,
        coeffs.len() < 0x1_0000_0000_0000_0000,
        0 <= t < 0x1_0000_0000_0000_0000,
        n.len() == 12,
        forall|i: int| 0 <= i < 12 ==> 0 <= #[trigger] n[i] < nums::pow(256, 32),
    ensures
        com_message(sid1, t, n) != key_message(sid2, coeffs),
{
    lemma_tenth_byte(
        com_tag(),
        nums::le_bytes(sid1.len() as int, 8),
        sid1,
        nums::le_bytes(t, 8),
        groups::gt_bytes(n),
    );
    lemma_tenth_byte(
        key_tag(),
        nums::le_bytes(sid2.len() as int, 8),
        sid2,
        nums::le_bytes(coeffs.len() as int, 8),
        coeffs,
    );
    assert(com_tag()[9] == 0x63u8);
    assert(key_tag()[9] == 0x6bu8);
}

/// Append the eight little-endian bytes of a number.
pub(crate) fn push_u64(bytes: &mut Vec<u8>, n: u64)
    ensures
        final(bytes)@ == old(bytes)@ + nums::le_bytes(n as int, 8),
{
    let ghost start = bytes@;
    let mut rest: u64 = n;
    for i in 0..8
        invariant
            bytes@ + nums::le_bytes(rest as int, (8 - i) as nat) =~= start + nums::le_bytes(
                n as int,
                8,
            ),
    {
        let ghost before = bytes@;
        let low: u8 = (rest % 256) as u8;
        bytes.push(low);
        proof {
            let k = (8 - i) as nat;
            assert(nums::le_bytes(rest as int, k) == seq![low] + nums::le_bytes(
                rest as int / 256,
                (k - 1) as nat,
            ));
            assert(before + (seq![low] + nums::le_bytes(rest as int / 256, (k - 1) as nat))
                =~= bytes@ + nums::le_bytes(rest as int / 256, (k - 1) as nat));
        }
        rest = rest / 256;
    }
    assert(nums::le_bytes(rest as int, 0) =~= Seq::empty());
}

/// Append bytes.
fn push_bytes(bytes: &mut Vec<u8>, more: &[u8])
    ensures
        final(bytes)@ == old(bytes)@ + more@,
{
    let ghost start = bytes@;
    for i in 0..more.len()
        invariant
            bytes@ =~= start + more@.take(i as int),
    {
        bytes.push(more[i]);
    }
    assert(more@.take(more@.len() as int) =~= more@);
}

/// `H(sid, t, K)`: a commitment to a target-group element. The output is the
/// full 256 bits of SHA-256, that is `τ = 2λ`, to secure against a party choosing inputs
/// after setup.
pub fn h_com(sid: &[u8], t: usize, n: &Gt) -> (res: [u8; 32])
    ensures
        res@ == commitment(sid@, t as int, n@),
        res@ == sha256(com_message(sid@, t as int, n@)),
        res@ == sha256(
            seq![
                0x67u8,
                0x72u8,
                0x6fu8,
                0x76u8,
                0x65u8,
                0x72u8,
                0x2fu8,
                0x48u8,
                0x5fu8,
                0x63u8,
                0x6fu8,
                0x6du8,
            ] + nums::le_bytes(sid@.len() as int, 8) + sid@ + nums::le_bytes(t as int, 8)
                + groups::gt_bytes(n@),
        ),
{
    let tag: [u8; 12] = [
        0x67, 0x72, 0x6f, 0x76, 0x65, 0x72, 0x2f, 0x48, 0x5f, 0x63, 0x6f, 0x6d,
    ];
    let mut message: Vec<u8> = Vec::new();
    push_bytes(&mut message, array_as_slice(&tag));
    assert(message@ =~= com_tag());
    push_u64(&mut message, sid.len() as u64);
    push_bytes(&mut message, sid);
    push_u64(&mut message, t as u64);
    let bytes = n.to_bytes();
    push_bytes(&mut message, bytes.as_slice());
    sha2_digest(message.as_slice())
}

/// `H(sid, c)`: the one-time pad on the secret, derived from the coefficient
/// vector, one byte per coefficient.
pub fn h_key(sid: &[u8], coeffs: &[u8]) -> (res: Secret)
    ensures
        res@ == pad(sid@, coeffs@),
        res@ == sha256(key_message(sid@, coeffs@)).take(16),
        res@ == sha256(
            seq![
                0x67u8,
                0x72u8,
                0x6fu8,
                0x76u8,
                0x65u8,
                0x72u8,
                0x2fu8,
                0x48u8,
                0x5fu8,
                0x6bu8,
                0x65u8,
                0x79u8,
            ] + nums::le_bytes(sid@.len() as int, 8) + sid@ + nums::le_bytes(
                coeffs@.len() as int,
                8,
            ) + coeffs@,
        ).take(16),
{
    let tag: [u8; 12] = [
        0x67, 0x72, 0x6f, 0x76, 0x65, 0x72, 0x2f, 0x48, 0x5f, 0x6b, 0x65, 0x79,
    ];
    let mut message: Vec<u8> = Vec::new();
    push_bytes(&mut message, array_as_slice(&tag));
    assert(message@ =~= key_tag());
    push_u64(&mut message, sid.len() as u64);
    push_bytes(&mut message, sid);
    push_u64(&mut message, coeffs.len() as u64);
    push_bytes(&mut message, coeffs);
    let digest = sha2_digest(message.as_slice());
    let mut out: Secret = [0u8;16];
    for i in 0..16
        invariant
            forall|k: int| 0 <= k < i ==> out@[k] == digest@[k],
    {
        out[i] = digest[i];
    }
    assert(out@ =~= digest@.take(16));
    out
}

/// The bytes of one string, each with those of another.
pub open spec fn xored(a: Seq<u8>, b: Seq<u8>) -> Seq<u8> {
    Seq::new(a.len(), |i: int| a[i] ^ b[i])
}

/// One-time pad.
pub fn xor(a: &Secret, b: &Secret) -> (res: Secret)
    ensures
        res@ == xored(a@, b@),
        forall|i: int| 0 <= i < 16 ==> #[trigger] res@[i] == a@[i] ^ b@[i],
{
    let mut out: Secret = [0u8;16];
    for i in 0..16
        invariant
            forall|k: int| 0 <= k < i ==> out@[k] == a@[k] ^ b@[k],
    {
        out[i] = a[i] ^ b[i];
    }
    assert(out@ =~= xored(a@, b@));
    out
}

/// Padding twice with one pad gives the secret back.
pub proof fn law_xor_undoes_itself(a: Seq<u8>, b: Seq<u8>)
    ensures
        xored(xored(a, b), b) == a,
{
    assert forall|i: int| 0 <= i < a.len() implies xored(xored(a, b), b)[i] == a[i] by {
        let (x, y) = (a[i], b[i]);
        assert((x ^ y) ^ y == x) by (bit_vector);
    }
    assert(xored(xored(a, b), b) =~= a);
}

/// Two pads that give the same on one secret are the same; padding is the same from either
/// side, keeps the length and changes nothing for a pad of zeros; and one secret under two
/// pads shows how these differ.
pub proof fn law_xor_keeps_pads_apart(a: Seq<u8>, b: Seq<u8>, c: Seq<u8>)
    requires
        a.len() == b.len(),
        a.len() == c.len(),
    ensures
        xored(a, b) == xored(a, c) ==> b == c,
        xored(a, b) == xored(b, a),
        xored(a, b).len() == a.len(),
        xored(xored(a, b), xored(a, c)) == xored(b, c),
        (forall|i: int| 0 <= i < b.len() ==> b[i] == 0) ==> xored(a, b) == a,
{
    assert forall|i: int| 0 <= i < a.len() implies {
        &&& xored(xored(a, b), xored(a, c))[i] == xored(b, c)[i]
        &&& xored(a, b)[i] == xored(b, a)[i]
        &&& xored(a, b)[i] == xored(a, c)[i] ==> b[i] == c[i]
        &&& b[i] == 0 ==> xored(a, b)[i] == a[i]
    } by {
        let (x, y, z) = (a[i], b[i], c[i]);
        assert(x ^ y == y ^ x) by (bit_vector);
        assert(x ^ 0 == x) by (bit_vector);
        assert(x ^ y == x ^ z ==> y == z) by (bit_vector);
        assert((x ^ y) ^ (x ^ z) == y ^ z) by (bit_vector);
    }
    assert(xored(xored(a, b), xored(a, c)) =~= xored(b, c));
    assert(xored(a, b) =~= xored(b, a));
    if xored(a, b) == xored(a, c) {
        assert forall|i: int| 0 <= i < b.len() implies b[i] == c[i] by {
            assert(xored(a, b)[i] == xored(a, c)[i]);
        }
        assert(b =~= c);
    }
    if forall|i: int| 0 <= i < b.len() ==> b[i] == 0 {
        assert(xored(a, b) =~= a);
    }
}

// -------------------------------------------------------------- conversions

/// The secret read as an element of `F_p`. Since `λ < lg p`, no reduction occurs.
pub fn secret_to_fq(s: &Secret) -> (res: Fq)
    ensures
        res@ == (El { c0: nums::bytes_val(s@), c1: 0 }),
        0 <= nums::bytes_val(s@) < 0x1_0000_0000_0000_0000_0000_0000_0000_0000int,
{
    proof {
        nums::lemma_bytes_bound(s@);
        nums::lemma_pow256();
    }
    Fq::from_le_bytes_mod_order(array_as_slice(s))
}

/// The inverse of [`secret_to_fq`]: `None` if the element does not fit in `λ` bits.
pub fn fq_to_secret(x: Fq) -> (res: Option<Secret>)
    ensures
        res is Some <==> x@.c0 < 0x1_0000_0000_0000_0000_0000_0000_0000_0000int,
        res matches Some(s) ==> nums::bytes_val(s@) == x@.c0,
{
    let bytes = x.to_bytes_le();
    proof {
        nums::lemma_bytes_split(bytes@, 16);
        nums::lemma_bytes_bound(bytes@.take(16));
        nums::lemma_bytes_bound(bytes@.skip(16));
        nums::lemma_bytes_zero(bytes@.skip(16));
        nums::lemma_pow256();
    }
    for i in 16..32
        invariant
            bytes@.len() == 32,
            nums::bytes_val(bytes@) == x@.c0,
            nums::bytes_val(bytes@) == nums::bytes_val(bytes@.take(16))
                + 0x1_0000_0000_0000_0000_0000_0000_0000_0000int * nums::bytes_val(bytes@.skip(16)),
            0 <= nums::bytes_val(bytes@.take(16)),
            0 <= nums::bytes_val(bytes@.skip(16)),
            (nums::bytes_val(bytes@.skip(16)) == 0) == (forall|k: int|
                0 <= k < 16 ==> bytes@.skip(16)[k] == 0),
            forall|k: int| 16 <= k < i ==> bytes@[k] == 0,
    {
        if bytes[i] != 0 {
            assert(bytes@.skip(16)[i - 16] != 0);
            return None;
        }
    }
    let mut out: Secret = [0u8;16];
    for i in 0..16
        invariant
            bytes@.len() == 32,
            forall|k: int| 0 <= k < i ==> out@[k] == bytes@[k],
    {
        out[i] = bytes[i];
    }
    proof {
        assert(out@ =~= bytes@.take(16));
        assert forall|k: int| 0 <= k < 16 implies bytes@.skip(16)[k] == 0 by {
            assert(bytes@.skip(16)[k] == bytes@[k + 16]);
        }
    }
    Some(out)
}

/// A secret comes back from its element of `F_p`: what [`fq_to_secret`] gives on the
/// value of [`secret_to_fq`] is the secret.
pub proof fn law_secret_round_trip(s: Secret, out: Option<Secret>)
    requires
        out is Some <==> nums::bytes_val(s@) < 0x1_0000_0000_0000_0000_0000_0000_0000_0000int,
        out matches Some(t) ==> nums::bytes_val(t@) == nums::bytes_val(s@),
    ensures
        out matches Some(t) && t@ == s@,
{
    nums::lemma_bytes_bound(s@);
    nums::lemma_pow256();
    nums::lemma_bytes_unique(s@, out->0@);
}

/// An element of `F_p` comes back from its canonical block.
pub proof fn law_block_round_trip(x: Fq, block: Seq<u8>)
    requires
        nums::bytes_val(block) == x@.c0,
    ensures
        El::num(nums::bytes_val(block)) == x@,
{
    x.lemma_view();
    ring::lemma_red_id(x@);
}

/// A block that holds another one's integer plus a multiple of `p` stands for the
/// same element: blocks are reduced, not rejected.
pub proof fn law_blocks_are_reduced(block: Seq<u8>, other: Seq<u8>, k: int)
    requires
        nums::bytes_val(other) == nums::bytes_val(block) + ring::p() * k,
    ensures
        El::num(nums::bytes_val(other)) == El::num(nums::bytes_val(block)),
{
    vstd::arithmetic::div_mod::lemma_mod_multiples_vanish(k, nums::bytes_val(block), ring::p());
}

/// The base-field prime `p` as little-endian limbs.
pub fn p_limbs() -> (res: [u64; 4])
    ensures
        nums::limbs_val(res@) == ring::p(),
{
    ark_modulus()
}

/// An `F_p` element as little-endian limbs.
pub fn fq_limbs(x: Fq) -> (res: [u64; 4])
    ensures
        nums::limbs_val(res@) == x@.c0,
{
    x.reduce()
}

/// A little-endian 256-bit block as an element of `F_p`, reduced modulo `p`.
/// This is the map `ι_bin` on one block.
pub fn block_to_fq(block: &[u8; 32]) -> (res: Fq)
    ensures
        res@ == El::num(nums::bytes_val(block@)),
{
    Fq::from_le_bytes_mod_order(array_as_slice(block))
}

/// The canonical 256-bit block of an `F_p` element.
pub fn fq_to_block(x: Fq) -> (res: [u8; 32])
    ensures
        nums::bytes_val(res@) == x@.c0,
{
    let bytes = x.to_bytes_le();
    let mut out: [u8; 32] = [0u8;32];
    for i in 0..32
        invariant
            bytes@.len() == 32,
            forall|k: int| 0 <= k < i ==> out@[k] == bytes@[k],
    {
        out[i] = bytes[i];
    }
    assert(out@ =~= bytes@);
    out
}

} // verus!
