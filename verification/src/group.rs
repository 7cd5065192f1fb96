//! `Π_G`: the scheme over groups, for binary coefficients.
//!
//! The evaluator's input is a proof `(A, B, C)`, `A, C ∈ G_1`, `B` on the twist;
//! the garbler's input is the secret `s`. Each point gets an Argo encoding:
//! `n = 254` entries for `A` (coefficients the binary digits of `−k`), `κ = 128`
//! entries each for `B` and `C` (coefficients the shared vector `c⃗`). The keys
//! of `B` share the scalar `k` across bases `U_t`: `K^B_t = k·U_t`. The program
//! is the bases, the commitments `h_t = H(sid, t, K_t)` to
//! `K_t = e(R, U_t) + e(K^C_t, H_1) + c_t·D`, and the pad `ct = s ⊕ H(sid, c⃗)`.
//!
//! Evaluation: if `r·B ≠ O`, then `B ∉ G_2` and the encoding of `B` leaks `c⃗`
//! via `r·⟦B⟧_t = c_t·(r·B)`. Otherwise compute `P = e(A,B) + e(C,H_1) − D`;
//! `P = 0` gives `⊥`, else `Q = Σ 2^i·⟦A⟧_i = −k·A + R` and
//! `Y_t = e(A, ⟦B⟧_t) + e(Q, U_t) + e(⟦C⟧_t, H_1) = c_t·P + K_t` singles out
//! `c_t` against the commitment, and `s` is opened.
//!
//! `U_t`, `M_i`, `K^C_t` are sampled uniformly over the whole group (identity
//! included), matching the theorem exactly: shifting a uniform mask by a fixed
//! constant is uniform regardless of `c`. `k` is sampled away from zero instead,
//! since it is shared multiplicatively across every `B`-entry: `k = 0` would
//! collapse `K^B_t = O` for all `t` at once, exposing the whole vector `c⃗` in
//! one correlated step rather than as a per-entry statistical term.
use crate::assoc;
use crate::curve;
use crate::curve::{h_com, h_key, in_g2, multi_pair, r_times, xor, Gt, Secret, Twist, G1};
use crate::draws;
use crate::elems::{draw_u32, Fr};
use crate::groups;
use crate::logs;
use crate::nums;
use crate::pgs::Pgs;
use crate::pointenc;
use crate::points;
use crate::points::Pt;
use crate::ring;
use crate::ring::El;
use ark_std::rand::rngs::StdRng;
use vstd::prelude::*;

verus! {

/// `n`, the number of entries on `A`: the binary digits of a scalar, `⌈lg r⌉`.
pub const N: usize = 254;

/// `κ`, the number of entries on `B` and on `C`: `⌈λ / lg 2⌉ = λ` for binary
/// coefficients.
pub const KAPPA: usize = 128;

// ----------------------------------------------------------------- verifier

/// The fixed data of the Groth16 verifier, normalized so that a proof is valid
/// iff `e(A, B) + e(C, H_1) − D = 0`. With the statement fixed at garbling time,
/// `H_1 = −δ` and `D = e(α, β) + e(X, γ)`.
#[derive(Clone, Debug)]
pub struct Verifier {
    /// The element of `G_2` paired with `C`.
    pub h1: Twist,
    /// The constant absorbing `e(α, β)` and the statement.
    pub d: Gt,
}

/// A proof as group elements: the evaluator's input at this layer. `b` is a twist
/// point; whether it lies in `G_2` is part of the function.
#[derive(Clone, Copy, Debug, PartialEq, Eq)]
pub struct ProofPoints {
    /// `A ∈ G_1`.
    pub a: G1,
    /// `B ∈ E'(F_{p^2})`.
    pub b: Twist,
    /// `C ∈ G_1`.
    pub c: G1,
}

impl ProofPoints {
    /// What holds of every proof: its points are on their curves.
    pub open spec fn are_points(self) -> bool {
        &&& groups::is_g1(self.a@)
        &&& groups::is_twist(self.b@)
        &&& groups::is_g1(self.c@)
    }
}

impl Verifier {
    /// `H_1` lies in `G_2`.
    pub open spec fn wf(self) -> bool {
        groups::in_subgroup(self.h1@)
    }

    /// The logarithm of the verdict `P = e(A, B) + e(C, H_1) − D`.
    pub open spec fn verdict_log_at(self, a: Pt, b: Pt, c: Pt) -> int {
        (groups::g1_log(a) * groups::g2_log(b) + groups::g1_log(c) * groups::g2_log(self.h1@)
            - groups::gt_log(self.d@)) % ring::r()
    }

    /// The same, of a proof.
    pub open spec fn verdict_log(self, x: ProofPoints) -> int {
        self.verdict_log_at(x.a@, x.b@, x.c@)
    }

    /// `Valid_G(x)`: `r·B = O` and `P = 0`.
    pub open spec fn valid(self, x: ProofPoints) -> bool {
        self.valid_at(x.a@, x.b@, x.c@)
    }

    /// The same, of points.
    pub open spec fn valid_at(self, a: Pt, b: Pt, c: Pt) -> bool {
        groups::in_subgroup(b) && self.verdict_log_at(a, b, c) == 0
    }

    /// `P`, for `B ∈ G_2`.
    fn verdict_in_g2(&self, x: &ProofPoints) -> (res: Gt)
        requires
            self.wf(),
            groups::in_subgroup(x.b@),
        ensures
            res@ == groups::gt_at(self.verdict_log(*x)),
            groups::gt_log(res@) == self.verdict_log(*x),
    {
        let (a, b) = ([x.a, x.c], [x.b, self.h1]);
        proof {
            reveal_with_fuel(groups::pairing_sum, 3);
            nums::lemma_mod_ops(
                groups::pairing_sum(a@, b@, 2),
                groups::gt_log(self.d@),
                ring::r(),
            );
            lemma_mod_minus(
                groups::pairing_sum(a@, b@, 2),
                groups::gt_log(self.d@),
                ring::r(),
            );
        }
        multi_pair(a, b).sub(&self.d)
    }

    /// The verdict `P`, defined when `B ∈ G_2`.
    pub fn verdict(&self, x: &ProofPoints) -> (res: Option<Gt>)
        requires
            groups::in_subgroup(x.b@) ==> self.wf(),
        ensures
            res is Some <==> groups::in_subgroup(x.b@),
            res matches Some(p) ==> p@ == groups::gt_at(self.verdict_log(*x)) && groups::gt_log(p@)
                == self.verdict_log(*x),
            res matches Some(p) ==> groups::gt_log(p@) == (groups::g1_log(x.a@) * groups::g2_log(x.b@) + groups::g1_log(x.c@)
                * groups::g2_log(self.h1@) - groups::gt_log(self.d@)) % ring::r(),
            res matches Some(p) ==> p@ == groups::gt_at(
                (groups::g1_log(x.a@) * groups::g2_log(x.b@) + groups::g1_log(x.c@)
                * groups::g2_log(self.h1@) - groups::gt_log(self.d@)) % ring::r(),
            ),
    {
        if in_g2(&x.b) {
            Some(self.verdict_in_g2(x))
        } else {
            None
        }
    }

    /// `Valid_G(x)`: `r·B = O` and `P = 0`.
    pub fn is_valid(&self, x: &ProofPoints) -> (res: bool)
        requires
            groups::in_subgroup(x.b@) ==> self.wf(),
        ensures
            res == self.valid(*x),
            res == (groups::in_subgroup(x.b@) && (groups::g1_log(x.a@) * groups::g2_log(x.b@) + groups::g1_log(x.c@)
                * groups::g2_log(self.h1@) - groups::gt_log(self.d@)) % ring::r() == 0),
    {
        match self.verdict(x) {
            Some(p) => p.is_zero(),
            None => false,
        }
    }
}

// -------------------------------------------------------------------- types

/// The garbled program `f~_G`.
#[derive(Clone, Debug)]
pub struct GroupProgram {
    /// The bases `U_t ∈ G_2`.
    pub bases: Vec<Twist>,
    /// The commitments `h_t`.
    pub commits: Vec<[u8; 32]>,
    /// The pad `ct = s ⊕ H(sid, c⃗)`.
    pub ct: Secret,
}

impl GroupProgram {
    /// Every base lies in `G_2`.
    pub open spec fn wf(self) -> bool {
        forall|t: int|
            0 <= t < self.bases@.len() ==> groups::in_subgroup((#[trigger] self.bases@[t])@)
    }
}

/// The encoding information `ek_G`: the coefficients and keys of the three
/// Argo encodings.
#[derive(Clone, Debug)]
pub struct GroupEncodingInfo {
    /// The binary digits `b_i` of `−k`, least significant first.
    pub a_coeffs: Vec<bool>,
    /// The masks `M_i` on `A`.
    pub a_keys: Vec<G1>,
    /// The coefficient vector `c⃗` shared by `B` and `C`.
    pub coeffs: Vec<bool>,
    /// The keys `K^B_t = k·U_t` on `B`, for the scalar `k` shared across the bases.
    pub b_keys: Vec<Twist>,
    /// The keys `K^C_t` on `C`.
    pub c_keys: Vec<G1>,
}

/// The encoding `x~_G`: the three Argo encodings.
#[derive(Clone, Debug)]
pub struct GroupEncoding {
    /// `⟦A⟧_i = b_i·A + M_i`.
    pub a: Vec<G1>,
    /// `⟦B⟧_t = c_t·B + k·U_t`.
    pub b: Vec<Twist>,
    /// `⟦C⟧_t = c_t·C + K^C_t`.
    pub c: Vec<G1>,
}

// ------------------------------------------------------------------ helpers

proof fn lemma_mod_minus(x: int, y: int, m: int)
    requires
        m > 0,
    ensures
        (x % m - y) % m == (x - y) % m,
        (x % m + y) % m == (x + y) % m,
{
    nums::lemma_mod_ops(x % m, y, m);
    nums::lemma_mod_ops(x, y, m);
}

/// A number less one that is not zero is another number, also by residues.
proof fn lemma_moved(y: int, p: int, m: int)
    requires
        0 <= y < m,
        0 < p < m,
    ensures
        (y - p) % m != y,
{
    if y >= p {
        vstd::arithmetic::div_mod::lemma_small_mod((y - p) as nat, m as nat);
    } else {
        vstd::arithmetic::div_mod::lemma_mod_add_multiples_vanish(y - p, m);
        vstd::arithmetic::div_mod::lemma_small_mod((y - p + m) as nat, m as nat);
    }
}

/// `c·V` in `G_1`: the identity map or the zero map.
fn phi_g1(c: bool, v: &G1) -> (res: G1)
    ensures
        res@ == pointenc::coefficient_times(c, v@),
        groups::g1_log(res@) == (if c {
            groups::g1_log(v@)
        } else {
            0
        }),
{
    if c {
        *v
    } else {
        G1::zero()
    }
}

/// `c·V` on the twist.
fn phi_twist(c: bool, v: &Twist) -> (res: Twist)
    ensures
        res@ == pointenc::coefficient_times(c, v@),
        !c ==> groups::in_subgroup(res@),
        groups::g2_log(res@) == (if c {
            groups::g2_log(v@)
        } else {
            0
        }),
{
    if c {
        *v
    } else {
        Twist::zero()
    }
}

/// `2^254` exceeds `r`.
proof fn lemma_pow_254()
    ensures
        nums::pow(2, 254) > ring::r(),
{
    assert(nums::pow(2, 8) == 256) by {
        reveal_with_fuel(nums::pow, 9);
    }
    assert(nums::pow(2, 6) == 64) by {
        reveal_with_fuel(nums::pow, 7);
    }
    nums::lemma_pow_add(2, 8, 8);
    assert(256int * 256int == 0x1_0000int);
    nums::lemma_pow_add(2, 16, 16);
    assert(0x1_0000int * 0x1_0000int == 0x1_0000_0000int);
    nums::lemma_pow_add(2, 32, 32);
    assert(0x1_0000_0000int * 0x1_0000_0000int == 0x1_0000_0000_0000_0000int);
    nums::lemma_pow_add(2, 64, 64);
    assert(0x1_0000_0000_0000_0000int * 0x1_0000_0000_0000_0000int
        == 0x1_0000_0000_0000_0000_0000_0000_0000_0000int);
    nums::lemma_pow_add(2, 128, 64);
    assert(0x1_0000_0000_0000_0000_0000_0000_0000_0000int * 0x1_0000_0000_0000_0000int
        == 0x1_0000_0000_0000_0000_0000_0000_0000_0000_0000_0000_0000_0000int);
    nums::lemma_pow_add(2, 192, 32);
    assert(0x1_0000_0000_0000_0000_0000_0000_0000_0000_0000_0000_0000_0000int * 0x1_0000_0000int
        == 0x1_0000_0000_0000_0000_0000_0000_0000_0000_0000_0000_0000_0000_0000_0000int);
    nums::lemma_pow_add(2, 224, 16);
    nums::lemma_pow_add(2, 240, 8);
    nums::lemma_pow_add(2, 248, 6);
    assert(0x1_0000_0000_0000_0000_0000_0000_0000_0000_0000_0000_0000_0000_0000_0000int * 0x1_0000int
        == 0x1_0000_0000_0000_0000_0000_0000_0000_0000_0000_0000_0000_0000_0000_0000_0000int);
    assert(0x1_0000_0000_0000_0000_0000_0000_0000_0000_0000_0000_0000_0000_0000_0000_0000int * 256int
        == 0x100_0000_0000_0000_0000_0000_0000_0000_0000_0000_0000_0000_0000_0000_0000_0000int);
    assert(0x100_0000_0000_0000_0000_0000_0000_0000_0000_0000_0000_0000_0000_0000_0000_0000int * 64int
        > ring::r());
}

/// The `N` binary digits of `−k`, least significant first.
pub fn digits_of_neg(k: Fr) -> (res: Vec<bool>)
    ensures
        res@.len() == N,
        nums::bits_val(res@) == (-k@) % ring::r(),
{
    let bits = k.neg_bits();
    let mut digits: Vec<bool> = Vec::new();
    for i in 0..N
        invariant
            bits@.len() == 256,
            digits@ =~= bits@.take(i as int),
    {
        digits.push(bits[i]);
    }
    proof {
        let (low, high) = (nums::bits_val(bits@.take(254)), nums::bits_val(bits@.skip(254)));
        let q = nums::pow(2, 254);
        nums::lemma_bits_split(bits@, 254);
        nums::lemma_bits_bound(bits@.take(254));
        nums::lemma_bits_bound(bits@.skip(254));
        lemma_pow_254();
        assert(high == 0) by (nonlinear_arith)
            requires
                low + q * high < q,
                q > 0,
                low >= 0,
                high >= 0,
        ;
        vstd::arithmetic::mul::lemma_mul_by_zero_is_zero(q);
    }
    digits
}

/// `Σ_i 2^i·s_i`.
pub open spec fn weighted(s: Seq<int>) -> int
    decreases s.len(),
{
    if s.len() == 0 {
        0
    } else {
        s[0] + 2 * weighted(s.skip(1))
    }
}

/// The logarithms of points of `G_1`.
pub open spec fn g1_logs(points: Seq<G1>) -> Seq<int> {
    Seq::new(points.len(), |i: int| groups::g1_log(points[i]@))
}

/// `Σ_i 2^i·points[i]`, by Horner's rule.
pub open spec fn weighted_points(points: Seq<G1>) -> Pt
    decreases points.len(),
{
    if points.len() == 0 {
        Pt::Inf
    } else {
        let rest = weighted_points(points.skip(1));
        rest.plus(rest).plus(points[0]@)
    }
}

/// `Σ_i 2^i·points[i]`, by Horner's rule. Used both for `A`'s masks and for its
/// labels, so the same function derives `R` and reconstructs `Q`.
pub fn weighted_sum(points: &[G1]) -> (res: G1)
    ensures
        res@ == weighted_points(points@),
        groups::g1_log(res@) == weighted(g1_logs(points@)) % ring::r(),
{
    let mut acc = G1::zero();
    let mut i: usize = points.len();
    assert(points@.skip(i as int) =~= Seq::empty());
    assert(g1_logs(points@.skip(i as int)) =~= Seq::empty());
    while i > 0
        invariant
            i <= points@.len(),
            acc@ == weighted_points(points@.skip(i as int)),
            groups::g1_log(acc@) == weighted(g1_logs(points@.skip(i as int))) % ring::r(),
        decreases i,
    {
        i = i - 1;
        let ghost before = points@.skip(i + 1);
        let p = &points[i];
        let twice = acc.double();
        let sum = twice.add(p);
        proof {
            let now = points@.skip(i as int);
            assert(now.skip(1) =~= before);
            assert(g1_logs(now).skip(1) =~= g1_logs(before));
            let (w, l) = (weighted(g1_logs(before)), groups::g1_log(p@));
            nums::lemma_mod_ops(2, w, ring::r());
            nums::lemma_mod_ops(2 * w, l, ring::r());
            assert(g1_logs(now)[0] == l);
            assert(weighted(g1_logs(now)) == l + 2 * w);
            assert(2 * w + l == l + 2 * w);
        }
        acc = sum;
    }
    assert(points@.skip(0) =~= points@);
    acc
}

/// One byte per coefficient.
pub open spec fn coeff_bytes(coeffs: Seq<bool>) -> Seq<u8> {
    Seq::new(
        coeffs.len(),
        |i: int|
            if coeffs[i] {
                1u8
            } else {
                0u8
            },
    )
}

/// One byte per coefficient, for hashing into `H(sid, c⃗)`. Both the garbler's
/// `ct` and the evaluator's recovered pad must serialize `c⃗` identically.
pub fn coeffs_to_bytes(coeffs: &[bool]) -> (res: Vec<u8>)
    ensures
        res@ == coeff_bytes(coeffs@),
        res@.len() == coeffs@.len(),
        forall|i: int|
            0 <= i < coeffs@.len() ==> #[trigger] res@[i] == (if coeffs@[i] {
                1u8
            } else {
                0u8
            }),
{
    let mut res: Vec<u8> = Vec::new();
    for i in 0..coeffs.len()
        invariant
            res@ =~= coeff_bytes(coeffs@.take(i as int)),
    {
        let byte: u8 = if coeffs[i] {
            1
        } else {
            0
        };
        res.push(byte);
    }
    assert(coeffs@.take(coeffs@.len() as int) =~= coeffs@);
    res
}

/// Whether `k` is the first of the next draws that is not zero, or one after `u64::MAX`
/// zeros in a row.
pub open spec fn nonzero_drawn(before: StdRng, after: StdRng, k: Fr) -> bool {
    exists|tried: Seq<Fr>|
        {
            &&& #[trigger] draws::draws(before, after, tried)
            &&& tried.len() > 0
            &&& forall|i: int| 0 <= i < tried.len() - 1 ==> (#[trigger] tried[i])@ == 0
            &&& if tried.last()@ != 0 {
                k == tried.last()
            } else {
                tried.len() == u64::MAX && k@ == 1
            }
        }
}

/// A random scalar that is not zero. (After `u64::MAX` zeros in a row it is one.)
pub fn rand_nonzero(rng: &mut StdRng) -> (res: Fr)
    ensures
        res@ != 0,
        nonzero_drawn(*old(rng), *final(rng), res),
        exists|tried: Seq<Fr>|
            {
                &&& #[trigger] draws::draws(*old(rng), *final(rng), tried)
                &&& tried.len() > 0
                &&& forall|i: int| 0 <= i < tried.len() - 1 ==> (#[trigger] tried[i])@ == 0
                &&& tried.last()@ != 0 ==> res == tried.last()
                &&& tried.last()@ == 0 ==> tried.len() == u64::MAX && res@ == 1
            },
{
    let ghost start = *rng;
    let mut tries: u64 = 0;
    let ghost mut tried: Seq<Fr> = Seq::empty();
    while tries < u64::MAX
        invariant
            start == *old(rng),
            tried.len() == tries,
            draws::draws(start, *rng, tried),
            forall|i: int| 0 <= i < tried.len() ==> (#[trigger] tried[i])@ == 0,
        decreases u64::MAX - tries,
    {
        let ghost (before, zeros) = (*rng, tried);
        let k = Fr::rand(rng);
        proof {
            draws::lemma_one_more(start, before, *rng, tried, k);
            tried = tried.push(k);
            assert(tried.last() == k);
            assert forall|i: int| 0 <= i < tried.len() - 1 implies (#[trigger] tried[i])@ == 0 by {
                assert(tried[i] == zeros[i]);
            }
        }
        if !k.is_zero() {
            assert(draws::draws(start, *rng, tried));
            return k;
        }
        tries = tries + 1;
    }
    Fr::one()
}

// ------------------------------------------------------------------- scheme

/// The scheme over groups, with its public parameters.
#[derive(Clone, Debug)]
pub struct GroupScheme {
    /// The normalized verifier.
    pub vk: Verifier,
    /// The session identifier, separating the hash domains of different garblings.
    pub sid: Vec<u8>,
}

/// The random choices of a garbling.
pub struct GroupCoins {
    /// The coefficient vector `c⃗`.
    pub coeffs: Vec<bool>,
    /// The bases `U_t`.
    pub bases: Vec<Twist>,
    /// The keys `K^C_t`.
    pub c_keys: Vec<G1>,
    /// The scalar `k`.
    pub k: Fr,
    /// The masks `M_i`.
    pub a_keys: Vec<G1>,
}

impl GroupCoins {
    /// The numbers of choices, and where they lie.
    pub open spec fn wf(self) -> bool {
        &&& self.coeffs@.len() == KAPPA
        &&& self.bases@.len() == KAPPA
        &&& self.c_keys@.len() == KAPPA
        &&& self.a_keys@.len() == N
        &&& self.k@ != 0
        &&& forall|t: int|
            0 <= t < KAPPA ==> groups::in_subgroup((#[trigger] self.bases@[t])@)
                && groups::is_twist(self.bases@[t]@)
        &&& forall|t: int| 0 <= t < KAPPA ==> groups::is_g1((#[trigger] self.c_keys@[t])@)
        &&& forall|i: int| 0 <= i < N ==> groups::is_g1((#[trigger] self.a_keys@[i])@)
    }

    /// Whether the choices are the next draws, in this order: a word for each coefficient,
    /// whose lowest bit it is, the bases, the keys on `C`, the scalar, and the masks on `A`.
    pub open spec fn drawn(self, before: StdRng, after: StdRng) -> bool {
        exists|words: Seq<u32>, g1: StdRng, g2: StdRng, g3: StdRng, g4: StdRng|
            {
                &&& words.len() == self.coeffs@.len()
                &&& forall|t: int|
                    0 <= t < self.coeffs@.len() ==> #[trigger] self.coeffs@[t] == (words[t] % 2
                        == 1)
                &&& #[trigger] draws::draws(before, g1, words)
                &&& #[trigger] draws::draws(g1, g2, self.bases@)
                &&& #[trigger] draws::draws(g2, g3, self.c_keys@)
                &&& #[trigger] nonzero_drawn(g3, g4, self.k)
                &&& draws::draws(g4, after, self.a_keys@)
            }
    }
}

/// The logarithm of `K_t = e(R, U_t) + e(K^C_t, H_1) + c_t·D`.
pub open spec fn key_log(vk: Verifier, a_keys: Seq<G1>, base: Twist, c_key: G1, c: bool) -> int {
    ((weighted(g1_logs(a_keys)) % ring::r()) * groups::g2_log(base@) + groups::g1_log(c_key@)
        * groups::g2_log(vk.h1@) + (if c {
        groups::gt_log(vk.d@)
    } else {
        0
    })) % ring::r()
}

impl GroupScheme {
    /// The scheme for a verifier and session identifier.
    pub fn new(vk: Verifier, sid: Vec<u8>) -> (res: Self)
        ensures
            res.vk == vk,
            res.sid == sid,
    {
        Self { vk, sid }
    }

    /// What the pad opens to under a coefficient vector.
    pub open spec fn opened(self, program: GroupProgram, coeffs: Seq<bool>) -> Seq<u8> {
        curve::xored(program.ct@, curve::pad(self.sid@, coeff_bytes(coeffs)))
    }

    /// Open the pad with a recovered coefficient vector.
    fn open_pad(&self, program: &GroupProgram, coeffs: &[bool]) -> (res: Secret)
        ensures
            res@ == self.opened(*program, coeffs@),
    {
        let bytes = coeffs_to_bytes(coeffs);
        xor(&program.ct, &h_key(self.sid.as_slice(), bytes.as_slice()))
    }

    /// Whether the commitments are those to `K_t`.
    pub open spec fn commits_are(
        self,
        program: GroupProgram,
        ek: GroupEncodingInfo,
    ) -> bool {
        &&& program.commits@.len() == KAPPA
        &&& forall|t: int|
            0 <= t < KAPPA ==> (#[trigger] program.commits@[t])@ == curve::commitment(
                self.sid@,
                t,
                groups::gt_at(
                    key_log(
                        self.vk,
                        ek.a_keys@,
                        program.bases@[t],
                        ek.c_keys@[t],
                        ek.coeffs@[t],
                    ),
                ),
            )
    }

    /// Whether a program and encoding information are a garbling of `s` with the
    /// scalar `k`.
    pub open spec fn garbled_with(
        self,
        s: Secret,
        program: GroupProgram,
        ek: GroupEncodingInfo,
        k: int,
    ) -> bool {
        &&& 0 < k < ring::r()
        &&& program.bases@.len() == KAPPA
        &&& program.wf()
        &&& self.commits_are(program, ek)
        &&& program.ct@ == curve::xored(s@, curve::pad(self.sid@, coeff_bytes(ek.coeffs@)))
        &&& ek.a_coeffs@.len() == N
        &&& nums::bits_val(ek.a_coeffs@) == (-k) % ring::r()
        &&& ek.a_keys@.len() == N
        &&& forall|i: int| 0 <= i < N ==> groups::is_g1((#[trigger] ek.a_keys@[i])@)
        &&& ek.coeffs@.len() == KAPPA
        &&& ek.b_keys@.len() == KAPPA
        &&& forall|t: int|
            0 <= t < KAPPA ==> {
                &&& (#[trigger] ek.b_keys@[t])@ == program.bases@[t]@.times(k as nat)
                &&& groups::is_twist(ek.b_keys@[t]@)
                &&& groups::in_subgroup(ek.b_keys@[t]@)
                &&& groups::g2_log(ek.b_keys@[t]@) == (k * groups::g2_log(program.bases@[t]@))
                    % ring::r()
            }
        &&& ek.c_keys@.len() == KAPPA
        &&& forall|t: int| 0 <= t < KAPPA ==> groups::is_g1((#[trigger] ek.c_keys@[t])@)
    }

    /// A random choice of everything a garbling needs.
    pub fn sample(rng: &mut StdRng) -> (res: GroupCoins)
        ensures
            res.wf(),
            res.drawn(*old(rng), *final(rng)),
            exists|words: Seq<u32>, g1: StdRng, g2: StdRng, g3: StdRng, g4: StdRng|
                {
                    &&& words.len() == KAPPA
                    &&& forall|t: int|
                        0 <= t < KAPPA ==> #[trigger] res.coeffs@[t] == (words[t] % 2 == 1)
                    &&& #[trigger] draws::draws(*old(rng), g1, words)
                    &&& #[trigger] draws::draws(g1, g2, res.bases@)
                    &&& #[trigger] draws::draws(g2, g3, res.c_keys@)
                    &&& #[trigger] nonzero_drawn(g3, g4, res.k)
                    &&& draws::draws(g4, *final(rng), res.a_keys@)
                },
    {
        let ghost g0 = *rng;
        let ghost mut words: Seq<u32> = Seq::empty();
        let mut coeffs: Vec<bool> = Vec::new();
        for t in 0..KAPPA
            invariant
                coeffs@.len() == t,
                words.len() == t,
                draws::draws(g0, *rng, words),
                forall|i: int| 0 <= i < t ==> #[trigger] coeffs@[i] == (words[i] % 2 == 1),
        {
            let ghost before = *rng;
            let word: u32 = draw_u32(rng);
            proof {
                draws::lemma_one_more(g0, before, *rng, words, word);
                words = words.push(word);
            }
            coeffs.push(word % 2 == 1);
        }
        let ghost g1 = *rng;
        let mut bases: Vec<Twist> = Vec::new();
        for t in 0..KAPPA
            invariant
                bases@.len() == t,
                draws::draws(g1, *rng, bases@),
                forall|i: int|
                    0 <= i < t ==> groups::in_subgroup((#[trigger] bases@[i])@)
                        && groups::is_twist(bases@[i]@),
        {
            let ghost before = *rng;
            let base = Twist::rand(rng);
            proof {
                draws::lemma_one_more(g1, before, *rng, bases@, base);
            }
            bases.push(base);
        }
        let ghost g2 = *rng;
        let mut c_keys: Vec<G1> = Vec::new();
        for t in 0..KAPPA
            invariant
                c_keys@.len() == t,
                draws::draws(g2, *rng, c_keys@),
                forall|i: int| 0 <= i < t ==> groups::is_g1((#[trigger] c_keys@[i])@),
        {
            let ghost before = *rng;
            let key = G1::rand(rng);
            proof {
                draws::lemma_one_more(g2, before, *rng, c_keys@, key);
            }
            c_keys.push(key);
        }
        let ghost g3 = *rng;
        let k = rand_nonzero(rng);
        let ghost g4 = *rng;
        let mut a_keys: Vec<G1> = Vec::new();
        for i in 0..N
            invariant
                a_keys@.len() == i,
                draws::draws(g4, *rng, a_keys@),
                forall|j: int| 0 <= j < i ==> groups::is_g1((#[trigger] a_keys@[j])@),
        {
            let ghost before = *rng;
            let key = G1::rand(rng);
            proof {
                draws::lemma_one_more(g4, before, *rng, a_keys@, key);
            }
            a_keys.push(key);
        }
        let res = GroupCoins { coeffs, bases, c_keys, k, a_keys };
        assert(draws::draws(g0, g1, words) && draws::draws(g1, g2, res.bases@) && draws::draws(
            g2,
            g3,
            res.c_keys@,
        ) && nonzero_drawn(g3, g4, res.k));
        res
    }

    /// [`Pgs::garble`] with the random choices given.
    pub fn garble_with(&self, s: &Secret, coins: GroupCoins) -> (res: (
        GroupProgram,
        GroupEncodingInfo,
    ))
        requires
            self.vk.wf(),
            coins.wf(),
        ensures
            res.0.bases@ == coins.bases@,
            res.1.a_keys@ == coins.a_keys@,
            res.1.coeffs@ == coins.coeffs@,
            res.1.c_keys@ == coins.c_keys@,
            self.garbled_with(*s, res.0, res.1, coins.k@),
    {
        let GroupCoins { coeffs, bases, c_keys, k, a_keys } = coins;
        let a_coeffs = digits_of_neg(k);
        let r_mask = weighted_sum(a_keys.as_slice());
        let mut b_keys: Vec<Twist> = Vec::new();
        for t in 0..KAPPA
            invariant
                bases@.len() == KAPPA,
                forall|i: int|
                    0 <= i < KAPPA ==> groups::in_subgroup((#[trigger] bases@[i])@),
                b_keys@.len() == t,
                forall|i: int|
                    0 <= i < t ==> {
                        &&& (#[trigger] b_keys@[i])@ == bases@[i]@.times(k@ as nat)
                        &&& groups::is_twist(b_keys@[i]@)
                        &&& groups::in_subgroup(b_keys@[i]@)
                        &&& groups::g2_log(b_keys@[i]@) == (k@ * groups::g2_log(bases@[i]@))
                            % ring::r()
                    },
        {
            b_keys.push(bases[t].mul(k));
        }
        let mut commits: Vec<[u8; 32]> = Vec::new();
        for t in 0..KAPPA
            invariant
                self.vk.wf(),
                coeffs@.len() == KAPPA,
                bases@.len() == KAPPA,
                c_keys@.len() == KAPPA,
                forall|i: int|
                    0 <= i < KAPPA ==> groups::in_subgroup((#[trigger] bases@[i])@),
                groups::g1_log(r_mask@) == weighted(g1_logs(a_keys@)) % ring::r(),
                commits@.len() == t,
                forall|i: int|
                    0 <= i < t ==> (#[trigger] commits@[i])@ == curve::commitment(
                        self.sid@,
                        i,
                        groups::gt_at(
                            key_log(self.vk, a_keys@, bases@[i], c_keys@[i], coeffs@[i]),
                        ),
                    ),
        {
            let (a, b) = ([r_mask, c_keys[t]], [bases[t], self.vk.h1]);
            proof {
                reveal_with_fuel(groups::pairing_sum, 3);
                lemma_mod_minus(
                    groups::pairing_sum(a@, b@, 2),
                    groups::gt_log(self.vk.d@),
                    ring::r(),
                );
            }
            let mut n = multi_pair(a, b);
            if coeffs[t] {
                n = n.add(&self.vk.d);
            }
            commits.push(h_com(self.sid.as_slice(), t, &n));
        }
        let bytes = coeffs_to_bytes(coeffs.as_slice());
        let ct = xor(s, &h_key(self.sid.as_slice(), bytes.as_slice()));
        (
            GroupProgram { bases, commits, ct },
            GroupEncodingInfo { a_coeffs, a_keys, coeffs, b_keys, c_keys },
        )
    }
}

/// Whether `enc` is the encoding of `x` under `ek`: `⟦A⟧_i = b_i·A + M_i`,
/// `⟦B⟧_t = c_t·B + K^B_t` and `⟦C⟧_t = c_t·C + K^C_t`, as points, by logarithms,
/// and for `B` also by the multiples by `r`.
pub open spec fn group_encoded(ek: GroupEncodingInfo, x: ProofPoints, enc: GroupEncoding) -> bool {
    &&& enc.a@.len() == min(ek.a_coeffs@.len(), ek.a_keys@.len())
    &&& enc.b@.len() == min(ek.coeffs@.len(), ek.b_keys@.len())
    &&& enc.c@.len() == min(ek.coeffs@.len(), ek.c_keys@.len())
    &&& forall|i: int|
        0 <= i < enc.a@.len() ==> g1_encoded(
            ek.a_coeffs@[i],
            x.a@,
            ek.a_keys@[i]@,
            (#[trigger] enc.a@[i])@,
        )
    &&& forall|t: int|
        0 <= t < enc.b@.len() ==> twist_encoded(
            ek.coeffs@[t],
            x.b@,
            ek.b_keys@[t]@,
            (#[trigger] enc.b@[t])@,
        )
    &&& forall|t: int|
        0 <= t < enc.c@.len() ==> g1_encoded(
            ek.coeffs@[t],
            x.c@,
            ek.c_keys@[t]@,
            (#[trigger] enc.c@[t])@,
        )
}

/// The smaller of two lengths.
pub open spec fn min(x: nat, y: nat) -> nat {
    if x < y {
        x
    } else {
        y
    }
}

/// Whether `e = c·v + key` in `G_1`.
pub open spec fn g1_encoded(c: bool, v: Pt, key: Pt, e: Pt) -> bool {
    &&& e == pointenc::coefficient_times(c, v).plus(key)
    &&& groups::g1_log(e) == ((if c {
        groups::g1_log(v)
    } else {
        0
    }) + groups::g1_log(key)) % ring::r()
}

/// Whether `e = c·v + key` on the twist.
pub open spec fn twist_encoded(c: bool, v: Pt, key: Pt, e: Pt) -> bool {
    &&& e == pointenc::coefficient_times(c, v).plus(key)
    &&& groups::r_multiple(e) == groups::r_multiple(pointenc::coefficient_times(c, v)).plus(
        groups::r_multiple(key),
    )
    &&& (c ==> groups::in_subgroup(v)) && groups::in_subgroup(key) ==> groups::g2_log(e) == ((if c {
        groups::g2_log(v)
    } else {
        0
    }) + groups::g2_log(key)) % ring::r()
}

// --------------------------------------------------------------- evaluation

/// Whether an encoding and a program have the lengths of the scheme.
pub open spec fn lengths_fit(program: GroupProgram, enc: GroupEncoding) -> bool {
    &&& enc.a@.len() == N
    &&& enc.b@.len() == KAPPA
    &&& enc.c@.len() == KAPPA
    &&& program.bases@.len() == KAPPA
    &&& program.commits@.len() == KAPPA
}

/// Off the subgroup: whether every label on `B` has a multiple by `r` that is
/// zero or that of `B`.
pub open spec fn multiples_decode(enc: GroupEncoding, b: Pt) -> bool {
    forall|t: int|
        0 <= t < enc.b@.len() ==> groups::r_multiple((#[trigger] enc.b@[t])@) == Pt::Inf
            || groups::r_multiple(enc.b@[t]@) == groups::r_multiple(b)
}

/// The coefficients read off those multiples.
pub open spec fn multiple_bits(enc: GroupEncoding) -> Seq<bool> {
    Seq::new(enc.b@.len(), |t: int| groups::r_multiple(enc.b@[t]@) != Pt::Inf)
}

/// Every label on `B` lies in `G_2`.
pub open spec fn labels_in_subgroup(enc: GroupEncoding) -> bool {
    forall|t: int| 0 <= t < enc.b@.len() ==> groups::in_subgroup((#[trigger] enc.b@[t])@)
}

impl GroupScheme {
    /// The logarithm of `Y_t = e(A, ⟦B⟧_t) + e(Q, U_t) + e(⟦C⟧_t, H_1)`.
    pub open spec fn label_log(
        self,
        program: GroupProgram,
        enc: GroupEncoding,
        x: ProofPoints,
        t: int,
    ) -> int {
        (groups::g1_log(x.a@) * groups::g2_log(enc.b@[t]@) + (weighted(g1_logs(enc.a@))
            % ring::r()) * groups::g2_log(program.bases@[t]@) + groups::g1_log(enc.c@[t]@)
            * groups::g2_log(self.vk.h1@)) % ring::r()
    }

    /// Whether the commitment `h_t` is that of `Y_t`.
    pub open spec fn matches_zero(
        self,
        program: GroupProgram,
        enc: GroupEncoding,
        x: ProofPoints,
        t: int,
    ) -> bool {
        curve::commitment(self.sid@, t, groups::gt_at(self.label_log(program, enc, x, t)))
            == program.commits@[t]@
    }

    /// Whether the commitment `h_t` is that of `Y_t − P`.
    pub open spec fn matches_one(
        self,
        program: GroupProgram,
        enc: GroupEncoding,
        x: ProofPoints,
        t: int,
    ) -> bool {
        curve::commitment(
            self.sid@,
            t,
            groups::gt_at(
                (self.label_log(program, enc, x, t) - self.vk.verdict_log(x)) % ring::r(),
            ),
        ) == program.commits@[t]@
    }

    /// Whether each commitment is that of exactly one of the two candidates.
    pub open spec fn commits_decode(
        self,
        program: GroupProgram,
        enc: GroupEncoding,
        x: ProofPoints,
    ) -> bool {
        forall|t: int|
            #![trigger program.commits@[t]]
            0 <= t < KAPPA ==> self.matches_zero(program, enc, x, t) != self.matches_one(
                program,
                enc,
                x,
                t,
            )
    }

    /// Whether the messages hashed to the commitments of `Y_t` and of `Y_t − P` differ.
    pub open spec fn messages_differ(
        self,
        program: GroupProgram,
        enc: GroupEncoding,
        x: ProofPoints,
        t: int,
    ) -> bool {
        curve::com_message(self.sid@, t, groups::gt_at(self.label_log(program, enc, x, t)))
            != curve::com_message(
            self.sid@,
            t,
            groups::gt_at(
                (self.label_log(program, enc, x, t) - self.vk.verdict_log(x)) % ring::r(),
            ),
        )
    }

    /// Whether the messages hashed for the two candidates differ, up to the first
    /// commitment that is not that of exactly one of them.
    pub open spec fn candidates_apart(
        self,
        program: GroupProgram,
        enc: GroupEncoding,
        x: ProofPoints,
    ) -> bool {
        forall|t: int|
            0 <= t < KAPPA && (forall|i: int|
                0 <= i < t ==> #[trigger] self.matches_zero(program, enc, x, i)
                    != self.matches_one(program, enc, x, i)) ==> #[trigger] self.messages_differ(
                program,
                enc,
                x,
                t,
            )
    }

    /// The coefficients read off the commitments.
    pub open spec fn commit_bits(
        self,
        program: GroupProgram,
        enc: GroupEncoding,
        x: ProofPoints,
    ) -> Seq<bool> {
        Seq::new(KAPPA as nat, |t: int| self.matches_one(program, enc, x, t))
    }

    /// What evaluation gives: nothing for material of the wrong lengths; off the
    /// subgroup, the pad opened with the coefficients that the multiples by `r`
    /// show; on it, nothing for a valid proof or for labels or bases outside `G_2`,
    /// and else the pad opened with the coefficients that the commitments show.
    pub open spec fn outcome(
        self,
        program: GroupProgram,
        enc: GroupEncoding,
        x: ProofPoints,
    ) -> Option<Seq<u8>> {
        if !lengths_fit(program, enc) {
            None
        } else if !groups::in_subgroup(x.b@) {
            if multiples_decode(enc, x.b@) {
                Some(self.opened(program, multiple_bits(enc)))
            } else {
                None
            }
        } else if self.vk.verdict_log(x) == 0 {
            None
        } else if labels_in_subgroup(enc) && program.wf() && self.commits_decode(
            program,
            enc,
            x,
        ) {
            Some(self.opened(program, self.commit_bits(program, enc, x)))
        } else {
            None
        }
    }

    /// The branch off the subgroup.
    fn eval_off_subgroup(
        &self,
        program: &GroupProgram,
        enc: &GroupEncoding,
        rb: &Twist,
        x: &ProofPoints,
    ) -> (res: Option<Secret>)
        requires
            rb@ == groups::r_multiple(x.b@),
            !groups::in_subgroup(x.b@),
        ensures
            res is Some <==> multiples_decode(*enc, x.b@),
            res matches Some(s) ==> s@ == self.opened(*program, multiple_bits(*enc)),
    {
        let mut found: Vec<bool> = Vec::new();
        for t in 0..enc.b.len()
            invariant
                rb@ == groups::r_multiple(x.b@),
                !groups::in_subgroup(x.b@),
                found@.len() == t,
                forall|i: int|
                    0 <= i < t ==> found@[i] == (groups::r_multiple(enc.b@[i]@) != Pt::Inf),
                forall|i: int|
                    0 <= i < t ==> groups::r_multiple((#[trigger] enc.b@[i])@) == Pt::Inf
                        || groups::r_multiple(enc.b@[i]@) == groups::r_multiple(x.b@),
        {
            let r_entry = r_times(&enc.b[t]);
            if r_entry.is_zero() {
                found.push(false);
            } else if r_entry.equals(rb) {
                found.push(true);
            } else {
                assert(groups::r_multiple(enc.b@[t as int]@) != Pt::Inf);
                return None;
            }
        }
        assert(found@ =~= multiple_bits(*enc));
        Some(self.open_pad(program, found.as_slice()))
    }

    /// The search for the coefficients, on the subgroup.
    fn eval_commits(&self, program: &GroupProgram, enc: &GroupEncoding, x: &ProofPoints, p: &Gt) -> (res:
        Option<Secret>)
        requires
            self.vk.wf(),
            program.wf(),
            lengths_fit(*program, *enc),
            labels_in_subgroup(*enc),
            groups::gt_log(p@) == self.vk.verdict_log(*x),
        ensures
            self.vk.verdict_log(*x) != 0 ==> self.candidates_apart(*program, *enc, *x),
            res is Some <==> self.commits_decode(*program, *enc, *x),
            res matches Some(s) ==> s@ == self.opened(
                *program,
                self.commit_bits(*program, *enc, *x),
            ),
    {
        let q = weighted_sum(enc.a.as_slice());
        let mut found: Vec<bool> = Vec::new();
        for t in 0..KAPPA
            invariant
                self.vk.wf(),
                program.wf(),
                lengths_fit(*program, *enc),
                labels_in_subgroup(*enc),
                groups::gt_log(p@) == self.vk.verdict_log(*x),
                self.vk.verdict_log(*x) != 0 ==> forall|i: int|
                    0 <= i < t ==> #[trigger] self.messages_differ(*program, *enc, *x, i),
                groups::g1_log(q@) == weighted(g1_logs(enc.a@)) % ring::r(),
                found@.len() == t,
                forall|i: int|
                    0 <= i < t ==> found@[i] == self.matches_one(*program, *enc, *x, i),
                forall|i: int|
                    #![trigger program.commits@[i]]
                    0 <= i < t ==> self.matches_zero(*program, *enc, *x, i) != self.matches_one(
                        *program,
                        *enc,
                        *x,
                        i,
                    ),
        {
            let (a, b) = ([x.a, q, enc.c[t]], [enc.b[t], program.bases[t], self.vk.h1]);
            proof {
                reveal_with_fuel(groups::pairing_sum, 4);
            }
            let y = multi_pair(a, b);
            // The two candidate keys are Y_t itself (c_t = 0) and Y_t − P (c_t = 1).
            // Exactly one should match the commitment; anything else is malformed.
            let commit = program.commits[t];
            let matches_zero = same_digest(&h_com(self.sid.as_slice(), t, &y), &commit);
            let z = y.sub(p);
            let matches_one = same_digest(&h_com(self.sid.as_slice(), t, &z), &commit);
            proof {
                if self.vk.verdict_log(*x) != 0 {
                    lemma_moved(groups::gt_log(y@), groups::gt_log(p@), ring::r());
                    groups::lemma_gt_view(y);
                    groups::lemma_gt_view(z);
                    if curve::com_message(self.sid@, t as int, y@) == curve::com_message(
                        self.sid@,
                        t as int,
                        z@,
                    ) {
                        assert(self.sid.len() <= usize::MAX);
                        curve::law_committed_message_determines(
                            self.sid@,
                            t as int,
                            y@,
                            self.sid@,
                            t as int,
                            z@,
                        );
                    }
                    assert(self.messages_differ(*program, *enc, *x, t as int));
                }
            }
            assert(matches_zero == self.matches_zero(*program, *enc, *x, t as int));
            assert(matches_one == self.matches_one(*program, *enc, *x, t as int));
            if matches_zero && !matches_one {
                found.push(false);
            } else if !matches_zero && matches_one {
                found.push(true);
            } else {
                assert(program.commits@[t as int] == commit);
                assert(self.vk.verdict_log(*x) != 0 ==> self.candidates_apart(*program, *enc, *x)) by {
                    assert forall|j: int|
                        self.vk.verdict_log(*x) != 0 && 0 <= j < KAPPA && (forall|i: int|
                            0 <= i < j ==> #[trigger] self.matches_zero(*program, *enc, *x, i)
                                != self.matches_one(*program, *enc, *x, i)) implies #[trigger] self.messages_differ(
                        *program,
                        *enc,
                        *x,
                        j,
                    ) by {
                        if j > t {
                            assert(self.matches_zero(*program, *enc, *x, t as int)
                                != self.matches_one(*program, *enc, *x, t as int));
                        }
                    }
                }
                return None;
            }
        }
        assert(found@ =~= self.commit_bits(*program, *enc, *x));
        Some(self.open_pad(program, found.as_slice()))
    }
}

/// Whether two digests are the same.
fn same_digest(a: &[u8; 32], b: &[u8; 32]) -> (res: bool)
    ensures
        res == (a@ == b@),
{
    for i in 0..32
        invariant
            forall|k: int| 0 <= k < i ==> a@[k] == b@[k],
    {
        if a[i] != b[i] {
            return false;
        }
    }
    assert(a@ =~= b@);
    true
}

impl Pgs for GroupScheme {
    type GarblerInput = Secret;

    type Input = ProofPoints;

    type Program = GroupProgram;

    type EncodingInfo = GroupEncodingInfo;

    type Encoding = GroupEncoding;

    type Output = Option<Secret>;

    open spec fn can_garble(&self, y: Secret) -> bool {
        self.vk.wf()
    }

    open spec fn garbled(&self, y: Secret, program: GroupProgram, ek: GroupEncodingInfo) -> bool {
        exists|k: int| #[trigger] self.garbled_with(y, program, ek, k)
    }

    open spec fn garbled_by(
        &self,
        before: StdRng,
        after: StdRng,
        y: Secret,
        program: GroupProgram,
        ek: GroupEncodingInfo,
    ) -> bool {
        exists|coins: GroupCoins|
            {
                &&& #[trigger] coins.drawn(before, after)
                &&& program.bases@ == coins.bases@
                &&& ek.a_keys@ == coins.a_keys@
                &&& ek.coeffs@ == coins.coeffs@
                &&& ek.c_keys@ == coins.c_keys@
                &&& self.garbled_with(y, program, ek, coins.k@)
            }
    }

    open spec fn can_encode(&self, ek: GroupEncodingInfo, x: ProofPoints) -> bool {
        true
    }

    open spec fn encoded(
        &self,
        ek: GroupEncodingInfo,
        x: ProofPoints,
        enc: GroupEncoding,
    ) -> bool {
        group_encoded(ek, x, enc)
    }

    open spec fn can_eval(
        &self,
        program: GroupProgram,
        enc: GroupEncoding,
        x: ProofPoints,
    ) -> bool {
        // The pairing is only defined on G_2: where evaluation comes to it, the
        // verifier's H_1 lies there.
        lengths_fit(program, enc) && groups::in_subgroup(x.b@) ==> self.vk.wf()
    }

    open spec fn evaluated(
        &self,
        program: GroupProgram,
        enc: GroupEncoding,
        x: ProofPoints,
        out: Option<Secret>,
    ) -> bool {
        &&& match self.outcome(program, enc, x) {
            Some(s) => out matches Some(t) && t@ == s,
            None => out is None,
        }
        &&& lengths_fit(program, enc) && groups::in_subgroup(x.b@) && self.vk.verdict_log(x) != 0
            && labels_in_subgroup(enc) && program.wf() ==> self.candidates_apart(program, enc, x)
    }

    fn garble(&self, rng: &mut StdRng, s: &Secret) -> (res: (GroupProgram, GroupEncodingInfo)) {
        let ghost start = *rng;
        let coins = GroupScheme::sample(rng);
        assert(coins.drawn(start, *rng));
        self.garble_with(s, coins)
    }

    fn encode(&self, ek: &GroupEncodingInfo, x: &ProofPoints) -> (res: GroupEncoding) {
        let mut a: Vec<G1> = Vec::new();
        let mut i: usize = 0;
        while i < ek.a_coeffs.len() && i < ek.a_keys.len()
            invariant
                i <= min(ek.a_coeffs@.len(), ek.a_keys@.len()),
                a@.len() == i,
                forall|j: int|
                    0 <= j < i ==> g1_encoded(
                        ek.a_coeffs@[j],
                        x.a@,
                        ek.a_keys@[j]@,
                        (#[trigger] a@[j])@,
                    ),
            decreases ek.a_coeffs@.len() - i,
        {
            a.push(phi_g1(ek.a_coeffs[i], &x.a).add(&ek.a_keys[i]));
            i = i + 1;
        }
        let mut b: Vec<Twist> = Vec::new();
        let mut t: usize = 0;
        while t < ek.coeffs.len() && t < ek.b_keys.len()
            invariant
                t <= min(ek.coeffs@.len(), ek.b_keys@.len()),
                b@.len() == t,
                forall|j: int|
                    0 <= j < t ==> twist_encoded(
                        ek.coeffs@[j],
                        x.b@,
                        ek.b_keys@[j]@,
                        (#[trigger] b@[j])@,
                    ),
            decreases ek.coeffs@.len() - t,
        {
            b.push(phi_twist(ek.coeffs[t], &x.b).add(&ek.b_keys[t]));
            t = t + 1;
        }
        let mut c: Vec<G1> = Vec::new();
        let mut t: usize = 0;
        while t < ek.coeffs.len() && t < ek.c_keys.len()
            invariant
                t <= min(ek.coeffs@.len(), ek.c_keys@.len()),
                c@.len() == t,
                forall|j: int|
                    0 <= j < t ==> g1_encoded(
                        ek.coeffs@[j],
                        x.c@,
                        ek.c_keys@[j]@,
                        (#[trigger] c@[j])@,
                    ),
            decreases ek.coeffs@.len() - t,
        {
            c.push(phi_g1(ek.coeffs[t], &x.c).add(&ek.c_keys[t]));
            t = t + 1;
        }
        GroupEncoding { a, b, c }
    }

    fn eval(&self, program: &GroupProgram, enc: &GroupEncoding, x: &ProofPoints) -> (res: Option<
        Secret,
    >) {
        // A malformed or truncated program must not panic: the party
        // publishing it is the one that wants disclosure not to happen.
        if enc.a.len() != N || enc.b.len() != KAPPA || enc.c.len() != KAPPA || program.bases.len()
            != KAPPA || program.commits.len() != KAPPA {
            return None;
        }
        // Step 1: membership of B in G_2. Off the subgroup, the encoding of B
        // reveals c⃗ through r·⟦B⟧_t = c_t·(r·B).

        let rb = r_times(&x.b);
        if !rb.is_zero() {
            return self.eval_off_subgroup(program, enc, &rb, x);
        }
        // Step 2: the verdict in the clear, then the commitments.

        let p = self.vk.verdict_in_g2(x);
        if p.is_zero() {
            return None;
        }
        // The pairing is only defined on G_2; an honest encoding of a subgroup
        // point stays in the subgroup, so a label outside it is malformed.

        for t in 0..enc.b.len()
            invariant
                lengths_fit(*program, *enc),
                groups::in_subgroup(x.b@),
                self.vk.verdict_log(*x) != 0,
                forall|i: int| 0 <= i < t ==> groups::in_subgroup((#[trigger] enc.b@[i])@),
        {
            if !in_g2(&enc.b[t]) {
                assert(!groups::in_subgroup(enc.b@[t as int]@));
                return None;
            }
        }
        // So is a base outside it.

        for t in 0..program.bases.len()
            invariant
                lengths_fit(*program, *enc),
                groups::in_subgroup(x.b@),
                self.vk.verdict_log(*x) != 0,
                forall|i: int| 0 <= i < t ==> groups::in_subgroup((#[trigger] program.bases@[i])@),
        {
            if !in_g2(&program.bases[t]) {
                assert(!groups::in_subgroup(program.bases@[t as int]@));
                return None;
            }
        }
        self.eval_commits(program, enc, x, &p)
    }
}

// --------------------------------------------------------------------- laws

/// Congruent factors and summands give congruent results.
proof fn lemma_congruent(a: int, a1: int, b: int, b1: int, m: int)
    requires
        m > 0,
        a % m == a1 % m,
        b % m == b1 % m,
    ensures
        (a * b) % m == (a1 * b1) % m,
        (a + b) % m == (a1 + b1) % m,
        (a - b) % m == (a1 - b1) % m,
{
    nums::lemma_mod_ops(a, b, m);
    nums::lemma_mod_ops(a1, b1, m);
}

/// The weighted sum of `c_i·α + m_i` is `α` times the number with digits `c_i`,
/// plus the weighted sum of the `m_i`.
proof fn lemma_weighted(digits: Seq<bool>, masks: Seq<int>, labels: Seq<int>, alpha: int)
    requires
        digits.len() == masks.len(),
        labels.len() == masks.len(),
        forall|i: int|
            0 <= i < labels.len() ==> #[trigger] labels[i] == ((if digits[i] {
                alpha
            } else {
                0
            }) + masks[i]) % ring::r(),
    ensures
        weighted(labels) % ring::r() == (alpha * nums::bits_val(digits) + weighted(masks))
            % ring::r(),
    decreases digits.len(),
{
    let m = ring::r();
    if digits.len() > 0 {
        let (d1, m1, l1) = (digits.skip(1), masks.skip(1), labels.skip(1));
        assert forall|i: int| 0 <= i < l1.len() implies #[trigger] l1[i] == ((if d1[i] {
            alpha
        } else {
            0
        }) + m1[i]) % m by {
            assert(l1[i] == labels[i + 1]);
        }
        lemma_weighted(d1, m1, l1, alpha);
        let head: int = (if digits[0] {
            alpha
        } else {
            0
        }) + masks[0];
        let (b1, w1, v1) = (nums::bits_val(d1), weighted(m1), weighted(l1));
        let rest = alpha * b1 + w1;
        assert(labels[0] == head % m);
        nums::lemma_mod_ops(head, 0, m);
        lemma_congruent(2, 2, v1, rest, m);
        lemma_congruent(labels[0], head, 2 * v1, 2 * rest, m);
        let bit: int = if digits[0] {
            1
        } else {
            0
        };
        assert(nums::bits_val(digits) == bit + 2 * b1);
        assert(head + 2 * rest == alpha * (bit + 2 * b1) + (masks[0] + 2 * w1))
            by (nonlinear_arith)
            requires
                head == alpha * bit + masks[0],
                rest == alpha * b1 + w1,
        ;
        if digits[0] {
            assert(alpha * 1 == alpha);
        } else {
            vstd::arithmetic::mul::lemma_mul_by_zero_is_zero(alpha);
        }
    } else {
        vstd::arithmetic::mul::lemma_mul_by_zero_is_zero(alpha);
    }
}

/// `α·(β + k·u) + (−k·α + R)·u + (γ + κ)·h = α·β + γ·h + R·u + κ·h`.
proof fn lemma_rekeying(
    alpha: int,
    beta: int,
    gamma: int,
    h: int,
    k: int,
    u: int,
    mask: int,
    key: int,
)
    ensures
        alpha * (beta + k * u) + (alpha * (-k) + mask) * u + (gamma + key) * h == alpha * beta
            + gamma * h + mask * u + key * h,
{
    assert(alpha * (beta + k * u) == alpha * beta + (alpha * k) * u) by (nonlinear_arith);
    assert((alpha * (-k) + mask) * u == mask * u - (alpha * k) * u) by (nonlinear_arith);
    assert((gamma + key) * h == gamma * h + key * h) by (nonlinear_arith);
}

impl GroupScheme {
    /// `Y_t = c_t·P + K_t`, by logarithms, for an honest encoding of a proof whose
    /// `B` lies in `G_2`.
    proof fn lemma_label(
        self,
        s: Secret,
        program: GroupProgram,
        ek: GroupEncodingInfo,
        k: int,
        x: ProofPoints,
        enc: GroupEncoding,
        t: int,
    )
        requires
            self.vk.wf(),
            self.garbled_with(s, program, ek, k),
            group_encoded(ek, x, enc),
            groups::in_subgroup(x.b@),
            0 <= t < KAPPA,
        ensures
            ({
                let key = key_log(
                    self.vk,
                    ek.a_keys@,
                    program.bases@[t],
                    ek.c_keys@[t],
                    ek.coeffs@[t],
                );
                let y = self.label_log(program, enc, x, t);
                let p = self.vk.verdict_log(x);
                &&& !ek.coeffs@[t] ==> y == key
                &&& ek.coeffs@[t] ==> (y - p) % ring::r() == key
            }),
    {
        let m = ring::r();
        let c = ek.coeffs@[t];
        let (alpha, gamma, delta) = (
            groups::g1_log(x.a@),
            groups::g1_log(x.c@),
            groups::gt_log(self.vk.d@),
        );
        let (beta, h, u) = (
            groups::g2_log(x.b@),
            groups::g2_log(self.vk.h1@),
            groups::g2_log(program.bases@[t]@),
        );
        let key = groups::g1_log(ek.c_keys@[t]@);
        let (fb, fg): (int, int) = if c {
            (beta, gamma)
        } else {
            (0, 0)
        };
        // the label on B
        assert(groups::is_twist(ek.b_keys@[t]@));
        let lb = groups::g2_log(enc.b@[t]@);
        assert(twist_encoded(c, x.b@, ek.b_keys@[t]@, enc.b@[t]@));
        let kb = groups::g2_log(ek.b_keys@[t]@);
        nums::lemma_mod_ops(fb + kb, 0, m);
        nums::lemma_mod_ops(k * u, 0, m);
        lemma_congruent(fb, fb, kb, k * u, m);
        assert(lb % m == (fb + k * u) % m);
        // the label on C
        let lc = groups::g1_log(enc.c@[t]@);
        assert(g1_encoded(c, x.c@, ek.c_keys@[t]@, enc.c@[t]@));
        nums::lemma_mod_ops(fg + key, 0, m);
        assert(lc % m == (fg + key) % m);
        // Q = −k·A + R
        let (masks, labels) = (g1_logs(ek.a_keys@), g1_logs(enc.a@));
        assert forall|i: int| 0 <= i < labels.len() implies #[trigger] labels[i] == ((if ek.a_coeffs@[i] {
            alpha
        } else {
            0
        }) + masks[i]) % m by {
            assert(g1_encoded(ek.a_coeffs@[i], x.a@, ek.a_keys@[i]@, enc.a@[i]@));
        }
        lemma_weighted(ek.a_coeffs@, masks, labels, alpha);
        let (digits, mask, q) = (
            nums::bits_val(ek.a_coeffs@),
            weighted(masks),
            weighted(labels) % m,
        );
        nums::lemma_mod_ops(-k, 0, m);
        nums::lemma_mod_ops(weighted(labels), 0, m);
        lemma_congruent(alpha, alpha, digits, -k, m);
        lemma_congruent(alpha * digits, alpha * (-k), mask, mask, m);
        assert(q % m == (alpha * (-k) + mask) % m);
        // Y_t
        lemma_congruent(alpha, alpha, lb, fb + k * u, m);
        lemma_congruent(q, alpha * (-k) + mask, u, u, m);
        lemma_congruent(lc, fg + key, h, h, m);
        lemma_congruent(alpha * lb, alpha * (fb + k * u), q * u, (alpha * (-k) + mask) * u, m);
        lemma_congruent(
            alpha * lb + q * u,
            alpha * (fb + k * u) + (alpha * (-k) + mask) * u,
            lc * h,
            (fg + key) * h,
            m,
        );
        lemma_rekeying(alpha, fb, fg, h, k, u, mask, key);
        let y = self.label_log(program, enc, x, t);
        let value = alpha * fb + fg * h + mask * u + key * h;
        assert(y == value % m);
        // K_t
        nums::lemma_mod_ops(mask, u, m);
        nums::lemma_mod_ops(mask, 0, m);
        lemma_congruent(mask % m, mask, u, u, m);
        lemma_congruent((mask % m) * u, mask * u, key * h, key * h, m);
        if c {
            let p = self.vk.verdict_log(x);
            lemma_congruent(
                (mask % m) * u + key * h,
                mask * u + key * h,
                delta,
                delta,
                m,
            );
            nums::lemma_mod_ops(value, alpha * beta + gamma * h - delta, m);
            assert(value - (alpha * beta + gamma * h - delta) == mask * u + key * h + delta);
        } else {
            vstd::arithmetic::mul::lemma_mul_by_zero_is_zero(alpha);
            vstd::arithmetic::mul::lemma_mul_by_zero_is_zero(h);
        }
    }

    /// Whether no hash collides on the values compared: no commitment of the program
    /// is that of both candidates.
    pub open spec fn candidates_differ(
        self,
        program: GroupProgram,
        enc: GroupEncoding,
        x: ProofPoints,
    ) -> bool {
        forall|t: int|
            #![trigger program.commits@[t]]
            0 <= t < KAPPA ==> !(self.matches_zero(program, enc, x, t) && self.matches_one(
                program,
                enc,
                x,
                t,
            ))
    }

    /// A valid proof seals: evaluation gives nothing, whatever the program and the
    /// encoding are.
    pub proof fn law_valid_proof_seals(
        self,
        program: GroupProgram,
        enc: GroupEncoding,
        x: ProofPoints,
    )
        requires
            self.vk.valid(x),
        ensures
            self.outcome(program, enc, x) is None,
    {
    }

    /// An honest encoding has the lengths of the scheme, and keeps the labels on a
    /// `B` of `G_2` in `G_2`.
    proof fn lemma_honest_shape(
        self,
        s: Secret,
        program: GroupProgram,
        ek: GroupEncodingInfo,
        k: int,
        x: ProofPoints,
        enc: GroupEncoding,
    )
        requires
            self.garbled_with(s, program, ek, k),
            group_encoded(ek, x, enc),
        ensures
            lengths_fit(program, enc),
            forall|t: int|
                0 <= t < KAPPA ==> groups::r_multiple((#[trigger] enc.b@[t])@) == (if ek.coeffs@[t] {
                    groups::r_multiple(x.b@)
                } else {
                    Pt::Inf
                }),
    {
        assert forall|t: int| 0 <= t < KAPPA implies groups::r_multiple((#[trigger] enc.b@[t])@)
            == (if ek.coeffs@[t] {
            groups::r_multiple(x.b@)
        } else {
            Pt::Inf
        }) by {
            assert(groups::is_twist(ek.b_keys@[t]@));
            assert(twist_encoded(ek.coeffs@[t], x.b@, ek.b_keys@[t]@, enc.b@[t]@));
            assoc::lemma_infinity_times(ring::r() as nat);
        }
    }

    /// An invalid proof discloses: where `B` lies in `G_2` and the verdict is not
    /// zero, evaluating an honest encoding gives the secret, as long as no hash
    /// collides on the values compared.
    pub proof fn law_invalid_proof_discloses(
        self,
        s: Secret,
        program: GroupProgram,
        ek: GroupEncodingInfo,
        x: ProofPoints,
        enc: GroupEncoding,
    )
        requires
            self.vk.wf(),
            self.garbled(s, program, ek),
            group_encoded(ek, x, enc),
            groups::in_subgroup(x.b@),
            !self.vk.valid(x),
            self.candidates_differ(program, enc, x),
        ensures
            self.outcome(program, enc, x) == Some(s@),
    {
        let k = choose|k: int| #[trigger] self.garbled_with(s, program, ek, k);
        self.lemma_honest_shape(s, program, ek, k, x, enc);
        assert forall|t: int| 0 <= t < enc.b@.len() implies groups::in_subgroup(
            (#[trigger] enc.b@[t])@,
        ) by {
            assert(groups::r_multiple(enc.b@[t]@) == Pt::Inf);
        }
        assert forall|t: int| #![trigger program.commits@[t]] 0 <= t < KAPPA implies self.matches_one(
            program,
            enc,
            x,
            t,
        ) == ek.coeffs@[t] && self.matches_zero(program, enc, x, t) != ek.coeffs@[t] by {
            self.lemma_label(s, program, ek, k, x, enc, t);
            assert(program.commits@[t]@ == program.commits@[t]@);
        }
        assert(self.commit_bits(program, enc, x) =~= ek.coeffs@) by {
            assert forall|t: int| 0 <= t < KAPPA implies self.commit_bits(program, enc, x)[t]
                == ek.coeffs@[t] by {
                assert(program.commits@[t] == program.commits@[t]);
            }
        }
        self.lemma_pad_opens(s, program, ek.coeffs@);
    }

    /// A proof whose `B` is on the twist but not in `G_2` discloses: evaluating an
    /// honest encoding gives the secret.
    pub proof fn law_off_subgroup_discloses(
        self,
        s: Secret,
        program: GroupProgram,
        ek: GroupEncodingInfo,
        x: ProofPoints,
        enc: GroupEncoding,
    )
        requires
            self.garbled(s, program, ek),
            group_encoded(ek, x, enc),
            !groups::in_subgroup(x.b@),
        ensures
            self.outcome(program, enc, x) == Some(s@),
    {
        let k = choose|k: int| #[trigger] self.garbled_with(s, program, ek, k);
        self.lemma_honest_shape(s, program, ek, k, x, enc);
        assert(multiples_decode(enc, x.b@));
        assert(multiple_bits(enc) =~= ek.coeffs@) by {
            assert forall|t: int| 0 <= t < KAPPA implies multiple_bits(enc)[t] == ek.coeffs@[t] by {
                assert(enc.b@[t] == enc.b@[t]);
            }
        }
        self.lemma_pad_opens(s, program, ek.coeffs@);
    }

    /// The pad opens to the secret under the garbler's coefficients.
    proof fn lemma_pad_opens(self, s: Secret, program: GroupProgram, coeffs: Seq<bool>)
        requires
            program.ct@ == curve::xored(s@, curve::pad(self.sid@, coeff_bytes(coeffs))),
        ensures
            self.opened(program, coeffs) == s@,
    {
        curve::law_xor_undoes_itself(s@, curve::pad(self.sid@, coeff_bytes(coeffs)));
    }

    /// Encodings under the same keys differ by exactly the difference of the inputs
    /// where the coefficient is set, and not at all where it is not.
    pub proof fn law_encodings_differ_by_the_inputs(
        self,
        s: Secret,
        program: GroupProgram,
        ek: GroupEncodingInfo,
        x1: ProofPoints,
        enc1: GroupEncoding,
        x2: ProofPoints,
        enc2: GroupEncoding,
    )
        requires
            self.garbled(s, program, ek),
            group_encoded(ek, x1, enc1),
            group_encoded(ek, x2, enc2),
            x1.are_points(),
            x2.are_points(),
        ensures
            enc1.a@.len() == N && enc1.b@.len() == KAPPA && enc1.c@.len() == KAPPA,
            enc2.a@.len() == N && enc2.b@.len() == KAPPA && enc2.c@.len() == KAPPA,
            forall|i: int|
                0 <= i < N ==> (#[trigger] enc2.a@[i])@.plus(enc1.a@[i]@.reflected())
                    == pointenc::coefficient_times(
                    ek.a_coeffs@[i],
                    x2.a@.plus(x1.a@.reflected()),
                ),
            forall|t: int|
                0 <= t < KAPPA ==> (#[trigger] enc2.b@[t])@.plus(enc1.b@[t]@.reflected())
                    == pointenc::coefficient_times(ek.coeffs@[t], x2.b@.plus(x1.b@.reflected())),
            forall|t: int|
                0 <= t < KAPPA ==> (#[trigger] enc2.c@[t])@.plus(enc1.c@[t]@.reflected())
                    == pointenc::coefficient_times(ek.coeffs@[t], x2.c@.plus(x1.c@.reflected())),
    {
        let k = choose|k: int| #[trigger] self.garbled_with(s, program, ek, k);
        assert forall|i: int| 0 <= i < N implies (#[trigger] enc2.a@[i])@.plus(
            enc1.a@[i]@.reflected(),
        ) == pointenc::coefficient_times(ek.a_coeffs@[i], x2.a@.plus(x1.a@.reflected())) by {
            let (c, key) = (ek.a_coeffs@[i], ek.a_keys@[i]@);
            assert(g1_encoded(c, x1.a@, key, enc1.a@[i]@));
            assert(g1_encoded(c, x2.a@, key, enc2.a@[i]@));
            lemma_labels_differ(c, key, x1.a@, x2.a@, groups::beta1());
        }
        assert forall|t: int| 0 <= t < KAPPA implies (#[trigger] enc2.b@[t])@.plus(
            enc1.b@[t]@.reflected(),
        ) == pointenc::coefficient_times(ek.coeffs@[t], x2.b@.plus(x1.b@.reflected())) by {
            let (c, key) = (ek.coeffs@[t], ek.b_keys@[t]@);
            assert(twist_encoded(c, x1.b@, key, enc1.b@[t]@));
            assert(twist_encoded(c, x2.b@, key, enc2.b@[t]@));
            lemma_labels_differ(c, key, x1.b@, x2.b@, groups::beta2());
        }
        assert forall|t: int| 0 <= t < KAPPA implies (#[trigger] enc2.c@[t])@.plus(
            enc1.c@[t]@.reflected(),
        ) == pointenc::coefficient_times(ek.coeffs@[t], x2.c@.plus(x1.c@.reflected())) by {
            let (c, key) = (ek.coeffs@[t], ek.c_keys@[t]@);
            assert(g1_encoded(c, x1.c@, key, enc1.c@[t]@));
            assert(g1_encoded(c, x2.c@, key, enc2.c@[t]@));
            lemma_labels_differ(c, key, x1.c@, x2.c@, groups::beta1());
        }
    }

    /// The encoding of points at infinity is the keys.
    pub proof fn law_encoding_of_infinity_is_the_keys(
        self,
        s: Secret,
        program: GroupProgram,
        ek: GroupEncodingInfo,
        x: ProofPoints,
        enc: GroupEncoding,
    )
        requires
            self.garbled(s, program, ek),
            group_encoded(ek, x, enc),
            x.a@ == Pt::Inf,
            x.b@ == Pt::Inf,
            x.c@ == Pt::Inf,
        ensures
            enc.a@.len() == ek.a_keys@.len() && enc.b@.len() == ek.b_keys@.len() && enc.c@.len()
                == ek.c_keys@.len(),
            forall|i: int| 0 <= i < enc.a@.len() ==> (#[trigger] enc.a@[i])@ == ek.a_keys@[i]@,
            forall|t: int| 0 <= t < enc.b@.len() ==> (#[trigger] enc.b@[t])@ == ek.b_keys@[t]@,
            forall|t: int| 0 <= t < enc.c@.len() ==> (#[trigger] enc.c@[t])@ == ek.c_keys@[t]@,
    {
        let k = choose|k: int| #[trigger] self.garbled_with(s, program, ek, k);
        assert(self.garbled_with(s, program, ek, k));
    }

    /// Encoding information must be used once: two encodings under the same keys
    /// of proofs that differ in `B` show the coefficients, by whether the labels on
    /// `B` differ, and the pad opens under these to the secret.
    pub proof fn law_reused_encoding_opens_the_pad(
        self,
        s: Secret,
        program: GroupProgram,
        ek: GroupEncodingInfo,
        x1: ProofPoints,
        enc1: GroupEncoding,
        x2: ProofPoints,
        enc2: GroupEncoding,
    )
        requires
            self.garbled(s, program, ek),
            group_encoded(ek, x1, enc1),
            group_encoded(ek, x2, enc2),
            x1.are_points(),
            x2.are_points(),
            x1.b@ != x2.b@,
        ensures
            forall|t: int|
                0 <= t < KAPPA ==> ek.coeffs@[t] == ((#[trigger] enc1.b@[t])@ != enc2.b@[t]@),
            self.opened(
                program,
                Seq::new(KAPPA as nat, |t: int| enc1.b@[t]@ != enc2.b@[t]@),
            ) == s@,
    {
        let k = choose|k: int| #[trigger] self.garbled_with(s, program, ek, k);
        let bits = Seq::new(KAPPA as nat, |t: int| enc1.b@[t]@ != enc2.b@[t]@);
        assert forall|t: int| 0 <= t < KAPPA implies ek.coeffs@[t] == ((#[trigger] enc1.b@[t])@
            != enc2.b@[t]@) by {
            assert(twist_encoded(ek.coeffs@[t], x1.b@, ek.b_keys@[t]@, enc1.b@[t]@));
            assert(twist_encoded(ek.coeffs@[t], x2.b@, ek.b_keys@[t]@, enc2.b@[t]@));
            if enc1.b@[t]@ == enc2.b@[t]@ && ek.coeffs@[t] {
                points::lemma_cancelled(x1.b@, x2.b@, ek.b_keys@[t]@, groups::beta2());
            }
        }
        assert(bits =~= ek.coeffs@);
        self.lemma_pad_opens(s, program, ek.coeffs@);
    }
}

/// A label in `E`, by its logarithm.
proof fn lemma_g1_encoded(c: bool, v: Pt, key: Pt)
    requires
        groups::is_g1(v),
        groups::is_g1(key),
    ensures
        g1_encoded(c, v, key, pointenc::coefficient_times(c, v).plus(key)),
{
    if c {
        groups::lemma_g1_sum(v, key);
    } else {
        logs::lemma_at_log(groups::g1_generator(), groups::beta1(), key);
        vstd::arithmetic::div_mod::lemma_small_mod(
            groups::g1_log(key) as nat,
            ring::r() as nat,
        );
    }
}

/// A label on the twist, by its multiple by `r` and its logarithm.
proof fn lemma_twist_encoded(c: bool, v: Pt, key: Pt)
    requires
        groups::is_twist(v),
        groups::is_twist(key),
    ensures
        twist_encoded(c, v, key, pointenc::coefficient_times(c, v).plus(key)),
{
    assoc::lemma_infinity_times(ring::r() as nat);
    if c {
        assoc::lemma_multiple_of_sum(v, key, ring::r() as nat, groups::beta2());
        if groups::in_subgroup(v) && groups::in_subgroup(key) {
            groups::lemma_g2_sum(v, key);
        }
    } else if groups::in_subgroup(key) {
        logs::lemma_at_log(groups::g2_generator(), groups::beta2(), key);
        vstd::arithmetic::div_mod::lemma_small_mod(
            groups::g2_log(key) as nat,
            ring::r() as nat,
        );
    }
}

/// Labels that are `c·V + K` as points are the encoding.
pub proof fn lemma_encoded_by_points(
    ek: GroupEncodingInfo,
    x: ProofPoints,
    enc: GroupEncoding,
)
    requires
        x.are_points(),
        enc.a@.len() == min(ek.a_coeffs@.len(), ek.a_keys@.len()),
        enc.b@.len() == min(ek.coeffs@.len(), ek.b_keys@.len()),
        enc.c@.len() == min(ek.coeffs@.len(), ek.c_keys@.len()),
        forall|i: int|
            0 <= i < enc.a@.len() ==> groups::is_g1(ek.a_keys@[i]@) && (#[trigger] enc.a@[i])@
                == pointenc::coefficient_times(ek.a_coeffs@[i], x.a@).plus(ek.a_keys@[i]@),
        forall|t: int|
            0 <= t < enc.b@.len() ==> groups::is_twist(ek.b_keys@[t]@) && (#[trigger] enc.b@[t])@
                == pointenc::coefficient_times(ek.coeffs@[t], x.b@).plus(ek.b_keys@[t]@),
        forall|t: int|
            0 <= t < enc.c@.len() ==> groups::is_g1(ek.c_keys@[t]@) && (#[trigger] enc.c@[t])@
                == pointenc::coefficient_times(ek.coeffs@[t], x.c@).plus(ek.c_keys@[t]@),
    ensures
        group_encoded(ek, x, enc),
{
    assert forall|i: int| 0 <= i < enc.a@.len() implies g1_encoded(
        ek.a_coeffs@[i],
        x.a@,
        ek.a_keys@[i]@,
        (#[trigger] enc.a@[i])@,
    ) by {
        assert(enc.a@[i]@ == pointenc::coefficient_times(ek.a_coeffs@[i], x.a@).plus(
            ek.a_keys@[i]@,
        ));
        lemma_g1_encoded(ek.a_coeffs@[i], x.a@, ek.a_keys@[i]@);
    }
    assert forall|t: int| 0 <= t < enc.b@.len() implies twist_encoded(
        ek.coeffs@[t],
        x.b@,
        ek.b_keys@[t]@,
        (#[trigger] enc.b@[t])@,
    ) by {
        assert(enc.b@[t]@ == pointenc::coefficient_times(ek.coeffs@[t], x.b@).plus(
            ek.b_keys@[t]@,
        ));
        lemma_twist_encoded(ek.coeffs@[t], x.b@, ek.b_keys@[t]@);
    }
    assert forall|t: int| 0 <= t < enc.c@.len() implies g1_encoded(
        ek.coeffs@[t],
        x.c@,
        ek.c_keys@[t]@,
        (#[trigger] enc.c@[t])@,
    ) by {
        assert(enc.c@[t]@ == pointenc::coefficient_times(ek.coeffs@[t], x.c@).plus(
            ek.c_keys@[t]@,
        ));
        lemma_g1_encoded(ek.coeffs@[t], x.c@, ek.c_keys@[t]@);
    }
}

/// Two labels for one key differ by the inputs, if the coefficient is set.
proof fn lemma_labels_differ(c: bool, key: Pt, v1: Pt, v2: Pt, b: El)
    requires
        key.on(b),
        v1.on(b),
        v2.on(b),
        b.reduced(),
        b != El::num(0),
    ensures
        pointenc::coefficient_times(c, v2).plus(key).plus(
            pointenc::coefficient_times(c, v1).plus(key).reflected(),
        ) == pointenc::coefficient_times(c, v2.plus(v1.reflected())),
{
    if c {
        assoc::lemma_difference_of_sums(v2, v1, key, b);
    } else {
        points::lemma_difference_zero(key, key, b);
    }
}

impl GroupScheme {
    /// Where the comparisons agree, so does how far the candidates are apart.
    proof fn lemma_apart_alike(
        self,
        program: GroupProgram,
        enc1: GroupEncoding,
        x1: ProofPoints,
        enc2: GroupEncoding,
        x2: ProofPoints,
    )
        requires
            forall|t: int|
                0 <= t < KAPPA ==> self.messages_differ(program, enc1, x1, t)
                    == #[trigger] self.messages_differ(program, enc2, x2, t),
            forall|t: int|
                0 <= t < KAPPA ==> (#[trigger] self.matches_zero(program, enc1, x1, t)
                    != self.matches_one(program, enc1, x1, t)) == (self.matches_zero(
                    program,
                    enc2,
                    x2,
                    t,
                ) != self.matches_one(program, enc2, x2, t)),
        ensures
            self.candidates_apart(program, enc1, x1) ==> self.candidates_apart(program, enc2, x2),
    {
        assert forall|t: int|
            self.candidates_apart(program, enc1, x1) && 0 <= t < KAPPA && (forall|i: int|
                0 <= i < t ==> #[trigger] self.matches_zero(program, enc2, x2, i)
                    != self.matches_one(program, enc2, x2, i)) implies #[trigger] self.messages_differ(
            program,
            enc2,
            x2,
            t,
        ) by {
            assert forall|i: int| 0 <= i < t implies #[trigger] self.matches_zero(
                program,
                enc1,
                x1,
                i,
            ) != self.matches_one(program, enc1, x1, i) by {
                assert(self.matches_zero(program, enc2, x2, i) != self.matches_one(
                    program,
                    enc2,
                    x2,
                    i,
                ));
            }
            assert(self.messages_differ(program, enc1, x1, t));
        }
    }

    /// What evaluation gives depends on the points alone, not on their
    /// representation.
    pub proof fn law_outcome_by_points(
        self,
        program: GroupProgram,
        enc1: GroupEncoding,
        x1: ProofPoints,
        enc2: GroupEncoding,
        x2: ProofPoints,
    )
        requires
            x1.a@ == x2.a@,
            x1.b@ == x2.b@,
            x1.c@ == x2.c@,
            enc1.a@.len() == enc2.a@.len(),
            enc1.b@.len() == enc2.b@.len(),
            enc1.c@.len() == enc2.c@.len(),
            forall|i: int| 0 <= i < enc1.a@.len() ==> (#[trigger] enc1.a@[i])@ == enc2.a@[i]@,
            forall|t: int| 0 <= t < enc1.b@.len() ==> (#[trigger] enc1.b@[t])@ == enc2.b@[t]@,
            forall|t: int| 0 <= t < enc1.c@.len() ==> (#[trigger] enc1.c@[t])@ == enc2.c@[t]@,
        ensures
            self.outcome(program, enc1, x1) == self.outcome(program, enc2, x2),
            forall|out: Option<Secret>|
                self.evaluated(program, enc1, x1, out) == #[trigger] self.evaluated(
                    program,
                    enc2,
                    x2,
                    out,
                ),
    {
        if lengths_fit(program, enc1) {
            assert(g1_logs(enc1.a@) =~= g1_logs(enc2.a@)) by {
                assert forall|i: int| 0 <= i < enc1.a@.len() implies g1_logs(enc1.a@)[i]
                    == g1_logs(enc2.a@)[i] by {
                    assert(enc1.a@[i]@ == enc2.a@[i]@);
                }
            }
            assert(multiple_bits(enc1) =~= multiple_bits(enc2)) by {
                assert forall|t: int| 0 <= t < enc1.b@.len() implies multiple_bits(enc1)[t]
                    == multiple_bits(enc2)[t] by {
                    assert(enc1.b@[t]@ == enc2.b@[t]@);
                }
            }
            assert(multiples_decode(enc1, x1.b@) == multiples_decode(enc2, x2.b@)) by {
                assert forall|t: int| 0 <= t < enc1.b@.len() implies (#[trigger] enc2.b@[t])@
                    == enc1.b@[t]@ by {
                    assert(enc1.b@[t]@ == enc2.b@[t]@);
                }
            }
            assert(labels_in_subgroup(enc1) == labels_in_subgroup(enc2)) by {
                assert forall|t: int| 0 <= t < enc1.b@.len() implies (#[trigger] enc2.b@[t])@
                    == enc1.b@[t]@ by {
                    assert(enc1.b@[t]@ == enc2.b@[t]@);
                }
            }
            assert forall|t: int| 0 <= t < KAPPA implies #[trigger] self.label_log(
                program,
                enc1,
                x1,
                t,
            ) == self.label_log(program, enc2, x2, t) by {
                assert(enc1.b@[t]@ == enc2.b@[t]@);
                assert(enc1.c@[t]@ == enc2.c@[t]@);
            }
            assert forall|t: int| 0 <= t < KAPPA implies #[trigger] self.matches_one(
                program,
                enc1,
                x1,
                t,
            ) == self.matches_one(program, enc2, x2, t) && self.matches_zero(program, enc1, x1, t)
                == self.matches_zero(program, enc2, x2, t) by {
                assert(self.label_log(program, enc1, x1, t) == self.label_log(
                    program,
                    enc2,
                    x2,
                    t,
                ));
            }
            assert(self.commits_decode(program, enc1, x1) == self.commits_decode(
                program,
                enc2,
                x2,
            )) by {
                assert forall|t: int|
                    #![trigger program.commits@[t]]
                    0 <= t < KAPPA implies (self.matches_zero(program, enc1, x1, t)
                    != self.matches_one(program, enc1, x1, t)) == (self.matches_zero(
                    program,
                    enc2,
                    x2,
                    t,
                ) != self.matches_one(program, enc2, x2, t)) by {}
            }
            assert(self.commit_bits(program, enc1, x1) =~= self.commit_bits(program, enc2, x2));
            assert forall|t: int| 0 <= t < KAPPA implies #[trigger] self.messages_differ(
                program,
                enc1,
                x1,
                t,
            ) == self.messages_differ(program, enc2, x2, t) by {
                assert(self.label_log(program, enc1, x1, t) == self.label_log(
                    program,
                    enc2,
                    x2,
                    t,
                ));
            }
            assert forall|t: int| 0 <= t < KAPPA implies (#[trigger] self.matches_zero(
                program,
                enc1,
                x1,
                t,
            ) != self.matches_one(program, enc1, x1, t)) == (self.matches_zero(
                program,
                enc2,
                x2,
                t,
            ) != self.matches_one(program, enc2, x2, t)) by {
                assert(self.matches_one(program, enc1, x1, t) == self.matches_one(
                    program,
                    enc2,
                    x2,
                    t,
                ));
            }
            self.lemma_apart_alike(program, enc1, x1, enc2, x2);
            self.lemma_apart_alike(program, enc2, x2, enc1, x1);
        }
    }
}

/// `Σ_i 2^i·s_i`, entry by entry: the sum of none is zero, and one more entry adds its value
/// times the power of two that its position gives.
pub proof fn law_weighted_by_position(s: Seq<int>, v: int)
    ensures
        weighted(Seq::<int>::empty()) == 0,
        weighted(s.push(v)) == weighted(s) + nums::pow(2, s.len()) * v,
    decreases s.len(),
{
    if s.len() > 0 {
        let (rest, all) = (s.skip(1), s.push(v));
        law_weighted_by_position(rest, v);
        assert(all.skip(1) =~= rest.push(v));
        let q = nums::pow(2, rest.len());
        assert(nums::pow(2, s.len()) == 2 * q);
        assert((2 * q) * v == 2 * (q * v)) by (nonlinear_arith);
    } else {
        assert(s.push(v).skip(1) =~= Seq::<int>::empty());
        assert(nums::pow(2, 0) == 1);
    }
}

/// Coefficient vectors are told apart by their bytes.
pub proof fn law_coefficients_told_apart(c1: Seq<bool>, c2: Seq<bool>)
    requires
        coeff_bytes(c1) == coeff_bytes(c2),
    ensures
        c1 == c2,
{
    assert(coeff_bytes(c1).len() == c1.len() && coeff_bytes(c2).len() == c2.len());
    assert forall|i: int| 0 <= i < c1.len() implies c1[i] == c2[i] by {
        assert(coeff_bytes(c1)[i] == coeff_bytes(c2)[i]);
        assert(coeff_bytes(c1)[i] == (if c1[i] {
            1u8
        } else {
            0u8
        }));
        assert(coeff_bytes(c2)[i] == (if c2[i] {
            1u8
        } else {
            0u8
        }));
    }
    assert(c1 =~= c2);
}

impl GroupScheme {
    /// Whether SHA-256 tells the two candidates apart wherever their messages differ: it does
    /// not collide on the two messages that evaluation compares at any index.
    pub open spec fn digests_told_apart(
        self,
        program: GroupProgram,
        enc: GroupEncoding,
        x: ProofPoints,
    ) -> bool {
        forall|t: int|
            0 <= t < KAPPA && #[trigger] self.messages_differ(program, enc, x, t)
                ==> curve::commitment(
                self.sid@,
                t,
                groups::gt_at(self.label_log(program, enc, x, t)),
            ) != curve::commitment(
                self.sid@,
                t,
                groups::gt_at(
                    (self.label_log(program, enc, x, t) - self.vk.verdict_log(x)) % ring::r(),
                ),
            )
    }

    /// What it takes for SHA-256 to tell the candidates apart: that at no index the messages of
    /// `Y_t` and `Y_t − P` differ and have the same digest.
    pub proof fn law_told_apart_without_collision(
        self,
        program: GroupProgram,
        enc: GroupEncoding,
        x: ProofPoints,
    )
        requires
            forall|t: int|
                #![trigger program.commits@[t]]
                0 <= t < KAPPA && curve::com_message(
                    self.sid@,
                    t,
                    groups::gt_at(
                        (groups::g1_log(x.a@) * groups::g2_log(enc.b@[t]@) + (weighted(
                    Seq::new(enc.a@.len(), |i: int| groups::g1_log(enc.a@[i]@)),
                ) % ring::r()) * groups::g2_log(program.bases@[t]@) + groups::g1_log(enc.c@[t]@)
                    * groups::g2_log(self.vk.h1@)) % ring::r(),
                    ),
                ) != curve::com_message(
                    self.sid@,
                    t,
                    groups::gt_at(
                        (groups::g1_log(x.a@) * groups::g2_log(enc.b@[t]@) + (weighted(
                    Seq::new(enc.a@.len(), |i: int| groups::g1_log(enc.a@[i]@)),
                ) % ring::r()) * groups::g2_log(program.bases@[t]@) + groups::g1_log(enc.c@[t]@)
                    * groups::g2_log(self.vk.h1@) - (groups::g1_log(x.a@) * groups::g2_log(x.b@)
                    + groups::g1_log(x.c@) * groups::g2_log(self.vk.h1@) - groups::gt_log(
                    self.vk.d@,
                ))) % ring::r(),
                    ),
                )
                    ==> curve::sha256(
                curve::com_message(
                    self.sid@,
                    t,
                    groups::gt_at(
                        (groups::g1_log(x.a@) * groups::g2_log(enc.b@[t]@) + (weighted(
                    Seq::new(enc.a@.len(), |i: int| groups::g1_log(enc.a@[i]@)),
                ) % ring::r()) * groups::g2_log(program.bases@[t]@) + groups::g1_log(enc.c@[t]@)
                    * groups::g2_log(self.vk.h1@)) % ring::r(),
                    ),
                ),
            ) != curve::sha256(
                curve::com_message(
                    self.sid@,
                    t,
                    groups::gt_at(
                        (groups::g1_log(x.a@) * groups::g2_log(enc.b@[t]@) + (weighted(
                    Seq::new(enc.a@.len(), |i: int| groups::g1_log(enc.a@[i]@)),
                ) % ring::r()) * groups::g2_log(program.bases@[t]@) + groups::g1_log(enc.c@[t]@)
                    * groups::g2_log(self.vk.h1@) - (groups::g1_log(x.a@) * groups::g2_log(x.b@)
                    + groups::g1_log(x.c@) * groups::g2_log(self.vk.h1@) - groups::gt_log(
                    self.vk.d@,
                ))) % ring::r(),
                    ),
                ),
            ),
        ensures
            self.digests_told_apart(program, enc, x),
    {
        assert(g1_logs(enc.a@) =~= Seq::new(enc.a@.len(), |i: int| groups::g1_log(enc.a@[i]@)));
        assert forall|t: int| 0 <= t < KAPPA && #[trigger] self.messages_differ(program, enc, x, t)
            implies curve::commitment(
            self.sid@,
            t,
            groups::gt_at(self.label_log(program, enc, x, t)),
        ) != curve::commitment(
            self.sid@,
            t,
            groups::gt_at(
                (self.label_log(program, enc, x, t) - self.vk.verdict_log(x)) % ring::r(),
            ),
        ) by {
            self.lemma_label_less(program, enc, x, t);
            assert(program.commits@[t] == program.commits@[t]);
        }
    }

    /// For `B` in `G_2` evaluation seals exactly where
    /// `log A · log B + log C · log H_1 − log D` is zero modulo `r`: evaluating an honest
    /// encoding gives nothing there, and everywhere else the secret, as long as SHA-256 tells
    /// the different messages apart that evaluation compares.
    pub proof fn law_seals_exactly_at_zero(
        self,
        s: Secret,
        program: GroupProgram,
        ek: GroupEncodingInfo,
        x: ProofPoints,
        enc: GroupEncoding,
        out: Option<Secret>,
    )
        requires
            self.vk.wf(),
            self.garbled(s, program, ek),
            self.encoded(ek, x, enc),
            self.evaluated(program, enc, x, out),
            groups::in_subgroup(x.b@),
            self.digests_told_apart(program, enc, x),
        ensures
            out is None <==> (groups::g1_log(x.a@) * groups::g2_log(x.b@) + groups::g1_log(x.c@) * groups::g2_log(
                self.vk.h1@,
            ) - groups::gt_log(self.vk.d@)) % ring::r() == 0,
            (groups::g1_log(x.a@) * groups::g2_log(x.b@) + groups::g1_log(x.c@) * groups::g2_log(
                self.vk.h1@,
            ) - groups::gt_log(self.vk.d@)) % ring::r() != 0 ==> (out matches Some(o) && o@ == s@),
    {
        let k = choose|k: int| #[trigger] self.garbled_with(s, program, ek, k);
        self.lemma_honest_shape(s, program, ek, k, x, enc);
        if self.vk.verdict_log(x) != 0 {
            assert forall|t: int| 0 <= t < enc.b@.len() implies groups::in_subgroup(
                (#[trigger] enc.b@[t])@,
            ) by {
                assert(groups::r_multiple(enc.b@[t]@) == Pt::Inf);
            }
            assert forall|t: int|
                #![trigger program.commits@[t]]
                0 <= t < KAPPA implies self.matches_one(program, enc, x, t) || self.matches_zero(
                program,
                enc,
                x,
                t,
            ) by {
                self.lemma_label(s, program, ek, k, x, enc, t);
            }
            if !self.candidates_differ(program, enc, x) {
                let t = self.lemma_first_clash(program, enc, x, KAPPA as int);
                assert(self.messages_differ(program, enc, x, t));
            }
            self.law_invalid_proof_discloses(s, program, ek, x, enc);
        }
    }

    /// Where the verdict is not zero, the two candidates that evaluation compares are different
    /// elements, so that a commitment can only be that of both where SHA-256 collides: no
    /// commitment of an honest garbling is that of both candidates, as long as it tells the
    /// different messages apart that evaluation compares.
    pub proof fn law_candidates_differ_without_collision(
        self,
        s: Secret,
        program: GroupProgram,
        ek: GroupEncodingInfo,
        x: ProofPoints,
        enc: GroupEncoding,
        out: Option<Secret>,
        t: int,
    )
        requires
            self.vk.wf(),
            self.garbled(s, program, ek),
            self.encoded(ek, x, enc),
            self.evaluated(program, enc, x, out),
            groups::in_subgroup(x.b@),
            (groups::g1_log(x.a@) * groups::g2_log(x.b@) + groups::g1_log(x.c@) * groups::g2_log(
                self.vk.h1@,
            ) - groups::gt_log(self.vk.d@)) % ring::r() != 0,
            self.digests_told_apart(program, enc, x),
            0 <= t < KAPPA,
        ensures
            self.candidates_differ(program, enc, x),
            curve::com_message(
                    self.sid@,
                    t,
                    groups::gt_at(
                        (groups::g1_log(x.a@) * groups::g2_log(enc.b@[t]@) + (weighted(
                    Seq::new(enc.a@.len(), |i: int| groups::g1_log(enc.a@[i]@)),
                ) % ring::r()) * groups::g2_log(program.bases@[t]@) + groups::g1_log(enc.c@[t]@)
                    * groups::g2_log(self.vk.h1@)) % ring::r(),
                    ),
                ) != curve::com_message(
                    self.sid@,
                    t,
                    groups::gt_at(
                        (groups::g1_log(x.a@) * groups::g2_log(enc.b@[t]@) + (weighted(
                    Seq::new(enc.a@.len(), |i: int| groups::g1_log(enc.a@[i]@)),
                ) % ring::r()) * groups::g2_log(program.bases@[t]@) + groups::g1_log(enc.c@[t]@)
                    * groups::g2_log(self.vk.h1@) - (groups::g1_log(x.a@) * groups::g2_log(x.b@)
                    + groups::g1_log(x.c@) * groups::g2_log(self.vk.h1@) - groups::gt_log(
                    self.vk.d@,
                ))) % ring::r(),
                    ),
                ),
            !(program.commits@[t]@ == curve::sha256(
                curve::com_message(
                    self.sid@,
                    t,
                    groups::gt_at(
                        (groups::g1_log(x.a@) * groups::g2_log(enc.b@[t]@) + (weighted(
                    Seq::new(enc.a@.len(), |i: int| groups::g1_log(enc.a@[i]@)),
                ) % ring::r()) * groups::g2_log(program.bases@[t]@) + groups::g1_log(enc.c@[t]@)
                    * groups::g2_log(self.vk.h1@)) % ring::r(),
                    ),
                ),
            ) && program.commits@[t]@ == curve::sha256(
                curve::com_message(
                    self.sid@,
                    t,
                    groups::gt_at(
                        (groups::g1_log(x.a@) * groups::g2_log(enc.b@[t]@) + (weighted(
                    Seq::new(enc.a@.len(), |i: int| groups::g1_log(enc.a@[i]@)),
                ) % ring::r()) * groups::g2_log(program.bases@[t]@) + groups::g1_log(enc.c@[t]@)
                    * groups::g2_log(self.vk.h1@) - (groups::g1_log(x.a@) * groups::g2_log(x.b@)
                    + groups::g1_log(x.c@) * groups::g2_log(self.vk.h1@) - groups::gt_log(
                    self.vk.d@,
                ))) % ring::r(),
                    ),
                ),
            )),
    {
        let k = choose|k: int| #[trigger] self.garbled_with(s, program, ek, k);
        self.lemma_honest_shape(s, program, ek, k, x, enc);
        assert(g1_logs(enc.a@) =~= Seq::new(enc.a@.len(), |i: int| groups::g1_log(enc.a@[i]@)));
        assert forall|j: int| 0 <= j < enc.b@.len() implies groups::in_subgroup(
            (#[trigger] enc.b@[j])@,
        ) by {
            assert(groups::r_multiple(enc.b@[j]@) == Pt::Inf);
        }
        assert forall|j: int|
            #![trigger program.commits@[j]]
            0 <= j < KAPPA implies self.matches_one(program, enc, x, j) || self.matches_zero(
            program,
            enc,
            x,
            j,
        ) by {
            self.lemma_label(s, program, ek, k, x, enc, j);
        }
        if !self.candidates_differ(program, enc, x) {
            let j = self.lemma_first_clash(program, enc, x, KAPPA as int);
            assert(self.messages_differ(program, enc, x, j));
        }
        assert forall|j: int| 0 <= j < t implies #[trigger] self.matches_zero(program, enc, x, j)
            != self.matches_one(program, enc, x, j) by {
            assert(program.commits@[j] == program.commits@[j]);
        }
        assert(self.messages_differ(program, enc, x, t));
        assert(program.commits@[t] == program.commits@[t]);
        self.lemma_label_less(program, enc, x, t);
    }

    /// The first index whose commitment is that of both candidates.
    proof fn lemma_first_clash(
        self,
        program: GroupProgram,
        enc: GroupEncoding,
        x: ProofPoints,
        n: int,
    ) -> (t: int)
        requires
            0 <= n <= KAPPA,
            exists|j: int|
                #![trigger program.commits@[j]]
                0 <= j < n && self.matches_zero(program, enc, x, j) && self.matches_one(
                    program,
                    enc,
                    x,
                    j,
                ),
            forall|j: int|
                #![trigger program.commits@[j]]
                0 <= j < KAPPA ==> self.matches_one(program, enc, x, j) || self.matches_zero(
                    program,
                    enc,
                    x,
                    j,
                ),
        ensures
            0 <= t < n,
            self.matches_zero(program, enc, x, t) && self.matches_one(program, enc, x, t),
            forall|i: int|
                0 <= i < t ==> #[trigger] self.matches_zero(program, enc, x, i)
                    != self.matches_one(program, enc, x, i),
        decreases n,
    {
        let j = choose|j: int|
            #![trigger program.commits@[j]]
            0 <= j < n && self.matches_zero(program, enc, x, j) && self.matches_one(
                program,
                enc,
                x,
                j,
            );
        if exists|i: int|
            #![trigger program.commits@[i]]
            0 <= i < j && self.matches_zero(program, enc, x, i) && self.matches_one(
                program,
                enc,
                x,
                i,
            ) {
            self.lemma_first_clash(program, enc, x, j)
        } else {
            assert forall|i: int| 0 <= i < j implies #[trigger] self.matches_zero(
                program,
                enc,
                x,
                i,
            ) != self.matches_one(program, enc, x, i) by {
                assert(program.commits@[i] == program.commits@[i]);
            }
            j
        }
    }

    /// A proof whose `B` is on the twist but not in `G_2` discloses, whatever else it is:
    /// evaluating an honest encoding gives the secret.
    pub proof fn law_off_subgroup_gives_the_secret(
        self,
        s: Secret,
        program: GroupProgram,
        ek: GroupEncodingInfo,
        x: ProofPoints,
        enc: GroupEncoding,
        out: Option<Secret>,
    )
        requires
            self.garbled(s, program, ek),
            self.encoded(ek, x, enc),
            self.evaluated(program, enc, x, out),
            !groups::in_subgroup(x.b@),
        ensures
            out matches Some(o) && o@ == s@,
    {
        self.law_off_subgroup_discloses(s, program, ek, x, enc);
    }

    /// Malformed material gives nothing, for every `B` of `G_2` and whoever made it: where
    /// a length is not that of the scheme, where the verdict is zero, where a label on `B`
    /// or a base lies outside `G_2`, and where for some `t` the digest `h_t` is the
    /// commitment of neither `Y_t` nor `Y_t − P`, or of both.
    pub proof fn law_malformed_gives_nothing(
        self,
        program: GroupProgram,
        enc: GroupEncoding,
        x: ProofPoints,
        out: Option<Secret>,
        t: int,
    )
        requires
            self.evaluated(program, enc, x, out),
            groups::in_subgroup(x.b@),
            0 <= t < KAPPA,
        ensures
            enc.a@.len() != N || enc.b@.len() != KAPPA || enc.c@.len() != KAPPA
                || program.bases@.len() != KAPPA || program.commits@.len() != KAPPA
                ==> out is None,
            (groups::g1_log(x.a@) * groups::g2_log(x.b@) + groups::g1_log(x.c@) * groups::g2_log(
                self.vk.h1@,
            ) - groups::gt_log(self.vk.d@)) % ring::r() == 0 ==> out is None,
            !groups::in_subgroup(enc.b@[t]@) || !groups::in_subgroup(program.bases@[t]@)
                ==> out is None,
            (program.commits@[t]@ == curve::sha256(
                curve::com_message(
                    self.sid@,
                    t,
                    groups::gt_at(
                        (groups::g1_log(x.a@) * groups::g2_log(enc.b@[t]@) + (weighted(
                    Seq::new(enc.a@.len(), |i: int| groups::g1_log(enc.a@[i]@)),
                ) % ring::r()) * groups::g2_log(program.bases@[t]@) + groups::g1_log(enc.c@[t]@)
                    * groups::g2_log(self.vk.h1@)) % ring::r(),
                    ),
                ),
            )) == (program.commits@[t]@ == curve::sha256(
                curve::com_message(
                    self.sid@,
                    t,
                    groups::gt_at(
                        (groups::g1_log(x.a@) * groups::g2_log(enc.b@[t]@) + (weighted(
                    Seq::new(enc.a@.len(), |i: int| groups::g1_log(enc.a@[i]@)),
                ) % ring::r()) * groups::g2_log(program.bases@[t]@) + groups::g1_log(enc.c@[t]@)
                    * groups::g2_log(self.vk.h1@) - (groups::g1_log(x.a@) * groups::g2_log(x.b@)
                    + groups::g1_log(x.c@) * groups::g2_log(self.vk.h1@) - groups::gt_log(
                    self.vk.d@,
                ))) % ring::r(),
                    ),
                ),
            ))
                ==> out is None,
    {
        assert(g1_logs(enc.a@) =~= Seq::new(enc.a@.len(), |i: int| groups::g1_log(enc.a@[i]@)));
        self.lemma_label_less(program, enc, x, t);
        assert(enc.b@[t] == enc.b@[t] && program.bases@[t] == program.bases@[t]
            && program.commits@[t] == program.commits@[t]);
    }

    /// `Y_t − P` by logarithms, reduced once.
    proof fn lemma_label_less(
        self,
        program: GroupProgram,
        enc: GroupEncoding,
        x: ProofPoints,
        t: int,
    )
        ensures
            (self.label_log(program, enc, x, t) - self.vk.verdict_log(x)) % ring::r() == (
            groups::g1_log(x.a@) * groups::g2_log(enc.b@[t]@) + (weighted(g1_logs(enc.a@))
                % ring::r()) * groups::g2_log(program.bases@[t]@) + groups::g1_log(enc.c@[t]@)
                * groups::g2_log(self.vk.h1@) - (groups::g1_log(x.a@) * groups::g2_log(x.b@)
                + groups::g1_log(x.c@) * groups::g2_log(self.vk.h1@) - groups::gt_log(self.vk.d@)))
                % ring::r(),
    {
        nums::lemma_mod_ops(
            groups::g1_log(x.a@) * groups::g2_log(enc.b@[t]@) + (weighted(g1_logs(enc.a@))
                % ring::r()) * groups::g2_log(program.bases@[t]@) + groups::g1_log(enc.c@[t]@)
                * groups::g2_log(self.vk.h1@),
            groups::g1_log(x.a@) * groups::g2_log(x.b@) + groups::g1_log(x.c@) * groups::g2_log(
                self.vk.h1@,
            ) - groups::gt_log(self.vk.d@),
            ring::r(),
        );
    }

    /// What comes out for a `B` of `G_2` is what the pad opens to under the coefficients
    /// that the commitments show, whoever made the program: where the lengths are those of
    /// the scheme, the labels on `B` and the bases lie in `G_2`, the verdict is not zero, and
    /// each `h_t` is the commitment of `Y_t − c_t·P` and not of the other candidate, the
    /// outcome is `ct` padded with the first 16 bytes of the digest of the session and `c⃗`.
    pub proof fn law_commitments_show_the_coefficients(
        self,
        program: GroupProgram,
        enc: GroupEncoding,
        x: ProofPoints,
        out: Option<Secret>,
        coeffs: Seq<bool>,
    )
        requires
            self.evaluated(program, enc, x, out),
            groups::in_subgroup(x.b@),
            (groups::g1_log(x.a@) * groups::g2_log(x.b@) + groups::g1_log(x.c@) * groups::g2_log(
                self.vk.h1@,
            ) - groups::gt_log(self.vk.d@)) % ring::r() != 0,
            enc.a@.len() == N && enc.b@.len() == KAPPA && enc.c@.len() == KAPPA
                && program.bases@.len() == KAPPA && program.commits@.len() == KAPPA
                && coeffs.len() == KAPPA,
            forall|t: int|
                0 <= t < KAPPA ==> groups::in_subgroup((#[trigger] enc.b@[t])@)
                    && groups::in_subgroup(program.bases@[t]@),
            forall|t: int|
                #![trigger program.commits@[t]]
                0 <= t < KAPPA ==> {
                    &&& (program.commits@[t]@ == curve::sha256(
                curve::com_message(
                    self.sid@,
                    t,
                    groups::gt_at(
                        (groups::g1_log(x.a@) * groups::g2_log(enc.b@[t]@) + (weighted(
                    Seq::new(enc.a@.len(), |i: int| groups::g1_log(enc.a@[i]@)),
                ) % ring::r()) * groups::g2_log(program.bases@[t]@) + groups::g1_log(enc.c@[t]@)
                    * groups::g2_log(self.vk.h1@)) % ring::r(),
                    ),
                ),
            )) == !coeffs[t]
                    &&& (program.commits@[t]@ == curve::sha256(
                curve::com_message(
                    self.sid@,
                    t,
                    groups::gt_at(
                        (groups::g1_log(x.a@) * groups::g2_log(enc.b@[t]@) + (weighted(
                    Seq::new(enc.a@.len(), |i: int| groups::g1_log(enc.a@[i]@)),
                ) % ring::r()) * groups::g2_log(program.bases@[t]@) + groups::g1_log(enc.c@[t]@)
                    * groups::g2_log(self.vk.h1@) - (groups::g1_log(x.a@) * groups::g2_log(x.b@)
                    + groups::g1_log(x.c@) * groups::g2_log(self.vk.h1@) - groups::gt_log(
                    self.vk.d@,
                ))) % ring::r(),
                    ),
                ),
            )) == coeffs[t]
                },
        ensures
            out matches Some(o) && o@.len() == 16 && forall|i: int|
                0 <= i < 16 ==> #[trigger] o@[i] == program.ct@[i] ^ curve::sha256(
                    curve::key_message(
                        self.sid@,
                        Seq::new(
                            KAPPA as nat,
                            |t: int|
                                if coeffs[t] {
                                    1u8
                                } else {
                                    0u8
                                },
                        ),
                    ),
                ).take(16)[i],
    {
        assert(g1_logs(enc.a@) =~= Seq::new(enc.a@.len(), |i: int| groups::g1_log(enc.a@[i]@)));
        assert forall|t: int|
            #![trigger program.commits@[t]]
            0 <= t < KAPPA implies self.matches_zero(program, enc, x, t) == !coeffs[t]
            && self.matches_one(program, enc, x, t) == coeffs[t] by {
            self.lemma_label_less(program, enc, x, t);
        }
        assert(program.wf()) by {
            assert forall|t: int| 0 <= t < program.bases@.len() implies groups::in_subgroup(
                (#[trigger] program.bases@[t])@,
            ) by {
                assert(groups::in_subgroup(enc.b@[t]@));
            }
        }
        assert(self.commit_bits(program, enc, x) =~= coeffs) by {
            assert forall|t: int| 0 <= t < KAPPA implies self.commit_bits(program, enc, x)[t]
                == coeffs[t] by {
                assert(program.commits@[t] == program.commits@[t]);
            }
        }
        assert(coeff_bytes(coeffs) =~= Seq::new(
            KAPPA as nat,
            |t: int|
                if coeffs[t] {
                    1u8
                } else {
                    0u8
                },
        ));
    }

    /// Off the subgroup the multiples by `r` show the coefficients, whoever made the program:
    /// where the lengths are those of the scheme and each `r·⟦B⟧_t` is `c_t·(r·B)`, the
    /// outcome is `ct` padded with the first 16 bytes of the digest of the session and `c⃗`;
    /// where one of them is neither zero nor `r·B`, nothing comes out.
    pub proof fn law_multiples_show_the_coefficients(
        self,
        program: GroupProgram,
        enc: GroupEncoding,
        x: ProofPoints,
        out: Option<Secret>,
        coeffs: Seq<bool>,
    )
        requires
            self.evaluated(program, enc, x, out),
            x.b@.times(ring::r() as nat) != Pt::Inf,
            enc.a@.len() == N && enc.b@.len() == KAPPA && enc.c@.len() == KAPPA
                && program.bases@.len() == KAPPA && program.commits@.len() == KAPPA
                && coeffs.len() == KAPPA,
        ensures
            (forall|t: int|
                0 <= t < KAPPA ==> (#[trigger] enc.b@[t])@.times(ring::r() as nat) == (
                if coeffs[t] {
                    x.b@.times(ring::r() as nat)
                } else {
                    Pt::Inf
                })) ==> (out matches Some(o) && o@.len() == 16 && forall|i: int|
                0 <= i < 16 ==> #[trigger] o@[i] == program.ct@[i] ^ curve::sha256(
                    curve::key_message(
                        self.sid@,
                        Seq::new(
                            KAPPA as nat,
                            |t: int|
                                if coeffs[t] {
                                    1u8
                                } else {
                                    0u8
                                },
                        ),
                    ),
                ).take(16)[i]),
            (exists|t: int|
                0 <= t < KAPPA && (#[trigger] enc.b@[t])@.times(ring::r() as nat) != Pt::Inf
                    && enc.b@[t]@.times(ring::r() as nat) != x.b@.times(ring::r() as nat))
                ==> out is None,
    {
        if forall|t: int|
            0 <= t < KAPPA ==> (#[trigger] enc.b@[t])@.times(ring::r() as nat) == (if coeffs[t] {
                x.b@.times(ring::r() as nat)
            } else {
                Pt::Inf
            }) {
            assert(multiple_bits(enc) =~= coeffs) by {
                assert forall|t: int| 0 <= t < KAPPA implies multiple_bits(enc)[t] == coeffs[t] by {
                    assert(enc.b@[t] == enc.b@[t]);
                }
            }
            assert(multiples_decode(enc, x.b@));
            assert(coeff_bytes(coeffs) =~= Seq::new(
                KAPPA as nat,
                |t: int|
                    if coeffs[t] {
                        1u8
                    } else {
                        0u8
                    },
            ));
        }
    }

    /// Material of the wrong lengths gives nothing, whatever the proof is.
    pub proof fn law_wrong_lengths_give_nothing(
        self,
        program: GroupProgram,
        enc: GroupEncoding,
        x: ProofPoints,
        out: Option<Secret>,
    )
        requires
            self.evaluated(program, enc, x, out),
            enc.a@.len() != N || enc.b@.len() != KAPPA || enc.c@.len() != KAPPA
                || program.bases@.len() != KAPPA || program.commits@.len() != KAPPA,
        ensures
            out is None,
    {
    }

    /// Encoding adds a point to the key exactly where the coefficient is set, one label for
    /// each coefficient that has a key, whatever the encoding information is.
    pub proof fn law_encoding_adds_where_set(
        self,
        ek: GroupEncodingInfo,
        x: ProofPoints,
        enc: GroupEncoding,
        i: int,
    )
        requires
            self.encoded(ek, x, enc),
            0 <= i,
        ensures
            i < enc.a@.len() <==> i < ek.a_coeffs@.len() && i < ek.a_keys@.len(),
            i < enc.b@.len() <==> i < ek.coeffs@.len() && i < ek.b_keys@.len(),
            i < enc.c@.len() <==> i < ek.coeffs@.len() && i < ek.c_keys@.len(),
            i < enc.a@.len() ==> enc.a@[i]@ == (if ek.a_coeffs@[i] {
                x.a@.plus(ek.a_keys@[i]@)
            } else {
                ek.a_keys@[i]@
            }),
            i < enc.b@.len() ==> enc.b@[i]@ == (if ek.coeffs@[i] {
                x.b@.plus(ek.b_keys@[i]@)
            } else {
                ek.b_keys@[i]@
            }),
            i < enc.c@.len() ==> enc.c@[i]@ == (if ek.coeffs@[i] {
                x.c@.plus(ek.c_keys@[i]@)
            } else {
                ek.c_keys@[i]@
            }),
    {
        if i < enc.a@.len() {
            assert(g1_encoded(ek.a_coeffs@[i], x.a@, ek.a_keys@[i]@, enc.a@[i]@));
        }
        if i < enc.b@.len() {
            assert(twist_encoded(ek.coeffs@[i], x.b@, ek.b_keys@[i]@, enc.b@[i]@));
        }
        if i < enc.c@.len() {
            assert(g1_encoded(ek.coeffs@[i], x.c@, ek.c_keys@[i]@, enc.c@[i]@));
        }
    }
}

impl GroupScheme {
    /// What a garbling of `s` holds, for the scalar `k`: the digits are those of `−k`, the key
    /// on `B` is `k·U_t`, the commitment is that of `e(R, U_t) + e(K^C_t, H_1) + c_t·D` for
    /// the weighted sum `R` of the masks, and the pad is on every byte of the secret.
    pub proof fn law_garbling_shares_the_scalar(
        self,
        s: Secret,
        program: GroupProgram,
        ek: GroupEncodingInfo,
        k: int,
        t: int,
        i: int,
    )
        requires
            self.garbled_with(s, program, ek, k),
            0 <= t < KAPPA,
            0 <= i < 16,
        ensures
            0 < k < ring::r(),
            program.bases@.len() == KAPPA && program.commits@.len() == KAPPA,
            ek.a_coeffs@.len() == N && ek.a_keys@.len() == N && ek.coeffs@.len() == KAPPA
                && ek.b_keys@.len() == KAPPA && ek.c_keys@.len() == KAPPA,
            (nums::bits_val(ek.a_coeffs@) + k) % ring::r() == 0,
            0 <= nums::bits_val(ek.a_coeffs@) < ring::r(),
            program.bases@[t]@.times(ring::r() as nat) == Pt::Inf,
            ek.b_keys@[t]@ == program.bases@[t]@.times(k as nat),
            program.commits@[t]@ == curve::sha256(
                curve::com_message(
                    self.sid@,
                    t,
                    groups::gt_at(
                        ((weighted(Seq::new(N as nat, |j: int| groups::g1_log(ek.a_keys@[j]@)))
                            % ring::r()) * groups::g2_log(program.bases@[t]@) + groups::g1_log(
                            ek.c_keys@[t]@,
                        ) * groups::g2_log(self.vk.h1@) + (if ek.coeffs@[t] {
                            groups::gt_log(self.vk.d@)
                        } else {
                            0
                        })) % ring::r(),
                    ),
                ),
            ),
            program.ct@[i] == s@[i] ^ curve::sha256(
                curve::key_message(
                    self.sid@,
                    Seq::new(
                        KAPPA as nat,
                        |j: int|
                            if ek.coeffs@[j] {
                                1u8
                            } else {
                                0u8
                            },
                    ),
                ),
            ).take(16)[i],
    {
        let m = ring::r();
        assert(g1_logs(ek.a_keys@) =~= Seq::new(
            N as nat,
            |j: int| groups::g1_log(ek.a_keys@[j]@),
        ));
        assert(coeff_bytes(ek.coeffs@) =~= Seq::new(
            KAPPA as nat,
            |j: int|
                if ek.coeffs@[j] {
                    1u8
                } else {
                    0u8
                },
        ));
        nums::lemma_mod_ops(-k, k, m);
        nums::lemma_mod_ops((-k) % m, k, m);
        vstd::arithmetic::div_mod::lemma_small_mod(0, m as nat);
        assert(groups::in_subgroup(program.bases@[t]@));
        assert(ek.b_keys@[t]@ == program.bases@[t]@.times(k as nat));
        assert(program.commits@[t]@ == program.commits@[t]@);
    }

    /// Where the garbling comes from: its coefficients are the low bits of the first words
    /// drawn, and its bases, keys on `C`, scalar and masks the draws that follow, none of them
    /// chosen otherwise.
    pub proof fn law_garbling_is_drawn(
        self,
        before: StdRng,
        after: StdRng,
        s: Secret,
        program: GroupProgram,
        ek: GroupEncodingInfo,
    )
        requires
            self.garbled_by(before, after, s, program, ek),
        ensures
            exists|words: Seq<u32>, k: Fr, g1: StdRng, g2: StdRng, g3: StdRng, g4: StdRng|
                {
                    &&& words.len() == ek.coeffs@.len()
                    &&& forall|t: int|
                        0 <= t < ek.coeffs@.len() ==> #[trigger] ek.coeffs@[t] == (words[t] % 2
                            == 1)
                    &&& #[trigger] draws::draws(before, g1, words)
                    &&& #[trigger] draws::draws(g1, g2, program.bases@)
                    &&& #[trigger] draws::draws(g2, g3, ek.c_keys@)
                    &&& #[trigger] nonzero_drawn(g3, g4, k)
                    &&& draws::draws(g4, after, ek.a_keys@)
                    &&& self.garbled_with(s, program, ek, k@)
                },
    {
        let coins = choose|coins: GroupCoins|
            {
                &&& #[trigger] coins.drawn(before, after)
                &&& program.bases@ == coins.bases@
                &&& ek.a_keys@ == coins.a_keys@
                &&& ek.coeffs@ == coins.coeffs@
                &&& ek.c_keys@ == coins.c_keys@
                &&& self.garbled_with(s, program, ek, coins.k@)
            };
        let (words, g1, g2, g3, g4) = choose|
            words: Seq<u32>,
            g1: StdRng,
            g2: StdRng,
            g3: StdRng,
            g4: StdRng,
        |
            {
                &&& words.len() == coins.coeffs@.len()
                &&& forall|t: int|
                    0 <= t < coins.coeffs@.len() ==> #[trigger] coins.coeffs@[t] == (words[t] % 2
                        == 1)
                &&& #[trigger] draws::draws(before, g1, words)
                &&& #[trigger] draws::draws(g1, g2, coins.bases@)
                &&& #[trigger] draws::draws(g2, g3, coins.c_keys@)
                &&& #[trigger] nonzero_drawn(g3, g4, coins.k)
                &&& draws::draws(g4, after, coins.a_keys@)
            };
        assert(draws::draws(before, g1, words) && draws::draws(g1, g2, program.bases@)
            && draws::draws(g2, g3, ek.c_keys@) && nonzero_drawn(g3, g4, coins.k));
    }
}

} // verus!
