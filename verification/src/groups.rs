//! The groups of BN254 as plain limbs, with their arithmetic from ark-ec and
//! ark-bn254.
//!
//! A [`G1`] is a point of `E(F_p)`, a [`Twist`] a point of the twist
//! `E'(F_{p^2})` and a [`Gt`] an element of the target group. Their fields are
//! private: every value comes from an operation of this module, so it is a
//! point of its curve or an element of its group, which is the invariant of its
//! type.
//!
//! `E(F_p)` has the prime order `r`, so each point is a multiple of the
//! generator; the multiple modulo `r` is its logarithm ([`g1_log`]). A twist
//! point has one if it lies in the subgroup `G_2` ([`g2_log`]), and so has an
//! element of the target group, by the pairing of the two generators
//! ([`gt_log`]). The contracts below speak of sums and pairings by them.
use crate::assoc;
use crate::draws::Drawn;
use crate::elems::{Field, Fq, Fq2, Fr};
use crate::logs;
use crate::nums;
use crate::points;
use crate::points::Pt;
use crate::ring;
use crate::ring::El;
use ark_bn254::{Bn254, G1Affine, G2Affine};
use ark_ec::pairing::{Pairing, PairingOutput};
use ark_ec::{AffineRepr, CurveGroup, PrimeGroup};
use ark_ff::{AdditiveGroup, BigInt, BigInteger, Field as _, PrimeField, UniformRand, Zero};
use ark_serialize::CanonicalSerialize;
use ark_std::rand::rngs::StdRng;
use vstd::prelude::*;

verus! {

/// The constant `b` of `E: v² = u³ + b`.
pub open spec fn beta1() -> El {
    El { c0: 3, c1: 0 }
}

/// The constant `b'` of the twist `E': v² = u³ + b'`.
pub open spec fn beta2() -> El {
    El {
        c0: 19485874751759354771024239261021720505790618469301721065564631296452457478373int,
        c1: 266929791119991161246907387137283842545076965332900288569378510910307636690int,
    }
}

/// The generator `G` of `E`.
pub open spec fn g1_generator() -> Pt {
    Pt::At(El::num(1), El::num(2))
}

/// The generator `H` of `G_2`.
pub open spec fn g2_generator() -> Pt {
    Pt::At(
        El {
            c0: 10857046999023057135944570762232829481370756359578518086990519993285655852781int,
            c1: 11559732032986387107991004021392285783925812861821192530917403151452391805634int,
        },
        El {
            c0: 8495653923123431417604973247489272438418190587263600148770280649306958101930int,
            c1: 4082367875863433681332203403145435568316851327593401208105741076214120093531int,
        },
    )
}

/// The point `k·G` of `E`.
pub open spec fn g1_at(k: int) -> Pt {
    logs::at(g1_generator(), k)
}

/// The point `k·H` of the twist.
pub open spec fn g2_at(k: int) -> Pt {
    logs::at(g2_generator(), k)
}

/// The twelve coefficients over `F_p` that the pairing of ark-ec gives for `k·G` and
/// `H`.
pub uninterp spec fn gt_at(k: int) -> Seq<int>;

/// The bytes of a twist point in ark's compressed form.
pub uninterp spec fn twist_bytes(p: Pt) -> Seq<u8>;

/// The logarithm of a point of `E`.
pub open spec fn g1_log(p: Pt) -> int {
    logs::log_of(g1_generator(), p)
}

/// The logarithm of a point of `G_2`.
pub open spec fn g2_log(p: Pt) -> int {
    logs::log_of(g2_generator(), p)
}

/// The logarithm of an element of the target group.
pub open spec fn gt_log(n: Seq<int>) -> int {
    choose|k: int| 0 <= k < ring::r() && #[trigger] gt_at(k) == n
}

/// `r·p`.
pub open spec fn r_multiple(p: Pt) -> Pt {
    p.times(ring::r() as nat)
}

/// Whether a twist point lies in `G_2`, the points whose order divides `r`.
pub open spec fn in_subgroup(p: Pt) -> bool {
    r_multiple(p) == Pt::Inf
}

/// Whether this is a point of `E(F_p)`: a multiple of `G`, whose order is `r`.
pub open spec fn is_g1(p: Pt) -> bool {
    p.on(beta1()) && logs::is_multiple(g1_generator(), beta1(), p)
}

/// Whether this is a point of the twist. If it lies in `G_2` it is a multiple of `H`,
/// whose order is `r`.
pub open spec fn is_twist(p: Pt) -> bool {
    &&& p.on(beta2())
    &&& in_subgroup(p) ==> logs::is_multiple(g2_generator(), beta2(), p)
}

/// Sums in `E`.
pub proof fn lemma_g1_sum(p: Pt, q: Pt)
    requires
        is_g1(p),
        is_g1(q),
    ensures
        is_g1(p.plus(q)),
        g1_log(p.plus(q)) == (g1_log(p) + g1_log(q)) % ring::r(),
{
    assoc::lemma_sum_on_curve(p, q, beta1());
    logs::lemma_log_sum(g1_generator(), beta1(), p, q);
}

/// Sums in `G_2`.
pub proof fn lemma_g2_sum(p: Pt, q: Pt)
    requires
        is_twist(p),
        is_twist(q),
        in_subgroup(p),
        in_subgroup(q),
    ensures
        is_twist(p.plus(q)),
        in_subgroup(p.plus(q)),
        g2_log(p.plus(q)) == (g2_log(p) + g2_log(q)) % ring::r(),
{
    assoc::lemma_sum_on_curve(p, q, beta2());
    assoc::lemma_multiple_of_sum(p, q, ring::r() as nat, beta2());
    logs::lemma_log_sum(g2_generator(), beta2(), p, q);
}

// ---------------------------------------------------------------------- G1

/// A point of `E(F_p)`.
#[derive(Clone, Copy, Debug)]
pub struct G1 {
    c: [[u64; 4]; 2],
    infinity: bool,
}

impl Drawn for G1 {
    /// The point is a random one, from the generator in the first state.
    closed spec fn drawn(before: StdRng, after: StdRng, x: G1) -> bool {
        exists|g: &mut StdRng|
            *g == before && #[trigger] call_ensures(ark_g1_rand, (g,), x)
    }
}

impl View for G1 {
    type V = Pt;

    closed spec fn view(&self) -> Pt {
        if self.infinity {
            Pt::Inf
        } else {
            Pt::At(El::num(nums::limbs_val(self.c@[0]@)), El::num(nums::limbs_val(self.c@[1]@)))
        }
    }
}

impl G1 {
    /// Every value is a point of the curve.
    #[verifier::type_invariant]
    spec fn is_point(self) -> bool {
        is_g1(self@)
    }
}

/// `+` of ark-ec on `ark_bn254::G1Affine`: the sum by chords and tangents.
#[verifier::external_body]
fn ark_g1_add(a: &G1, b: &G1) -> (res: G1)
    requires
        a@.on(beta1()),
        b@.on(beta1()),
    ensures
        res@ == a@.plus(b@),
{
    let f = |l: [u64; 4]| ark_bn254::Fq::from_le_bytes_mod_order(&BigInt(l).to_bytes_le());
    let p = |g: &G1| G1Affine { x: f(g.c[0]), y: f(g.c[1]), infinity: g.infinity };
    let s = (p(a) + p(b)).into_affine();
    G1 { c: [s.x, s.y].map(|e| e.into_bigint().0), infinity: s.infinity }
}

/// `AdditiveGroup::double` of ark-ff on `ark_bn254::G1Projective`: the sum of the
/// point with itself.
#[verifier::external_body]
fn ark_g1_double(a: &G1) -> (res: G1)
    requires
        a@.on(beta1()),
    ensures
        res@ == a@.plus(a@),
{
    let f = |l: [u64; 4]| ark_bn254::Fq::from_le_bytes_mod_order(&BigInt(l).to_bytes_le());
    let p = G1Affine { x: f(a.c[0]), y: f(a.c[1]), infinity: a.infinity };
    let s = p.into_group().double().into_affine();
    G1 { c: [s.x, s.y].map(|e| e.into_bigint().0), infinity: s.infinity }
}

/// Unary `-` of ark-ec on `ark_bn254::G1Affine`: the reflected point.
#[verifier::external_body]
fn ark_g1_neg(a: &G1) -> (res: G1)
    requires
        a@.on(beta1()),
    ensures
        res@ == a@.reflected(),
{
    let f = |l: [u64; 4]| ark_bn254::Fq::from_le_bytes_mod_order(&BigInt(l).to_bytes_le());
    let p = G1Affine { x: f(a.c[0]), y: f(a.c[1]), infinity: a.infinity };
    let s = -p;
    G1 { c: [s.x, s.y].map(|e| e.into_bigint().0), infinity: s.infinity }
}

/// `Zero::zero` of ark-ff for `ark_bn254::G1Projective`: the point at infinity, a
/// multiple of `G`, whose order is `r`.
#[verifier::external_body]
fn ark_g1_zero() -> (res: G1)
    ensures
        res@ == Pt::Inf,
        is_g1(res@),
{
    let s = ark_bn254::G1Projective::zero().into_affine();
    G1 { c: [s.x, s.y].map(|e| e.into_bigint().0), infinity: s.infinity }
}

/// `UniformRand::rand` of ark-ff for `ark_bn254::G1Projective`: a random point, which
/// is a multiple of `G` since the cofactor is one.
#[verifier::external_body]
fn ark_g1_rand(rng: &mut StdRng) -> (res: G1)
    ensures
        is_g1(res@),
{
    let s = ark_bn254::G1Projective::rand(rng).into_affine();
    G1 { c: [s.x, s.y].map(|e| e.into_bigint().0), infinity: s.infinity }
}

/// `PrimeGroup::generator` of ark-ec for `ark_bn254::G1Projective`, times a
/// scalar: the multiple of `G`, whose order is `r`, by the scalar's least
/// representative.
#[verifier::external_body]
fn ark_g1_generator_times(k: Fr) -> (res: G1)
    ensures
        res@ == g1_at(k@),
        is_g1(res@),
{
    let k = ark_bn254::Fr::from_le_bytes_mod_order(&BigInt(k.limbs).to_bytes_le());
    let s = (ark_bn254::G1Projective::generator() * k).into_affine();
    G1 { c: [s.x, s.y].map(|e| e.into_bigint().0), infinity: s.infinity }
}

/// `Affine::is_on_curve` of ark-ec on the `ark_bn254::G1Affine` with the
/// coordinates: whether they satisfy the equation. The points that do are the
/// multiples of `G`, since the cofactor is one.
#[verifier::external_body]
fn ark_g1_on_curve(x: [u64; 4], y: [u64; 4]) -> (res: bool)
    ensures
        res == points::on_curve(
            El::num(nums::limbs_val(x@)),
            El::num(nums::limbs_val(y@)),
            beta1(),
        ),
        res ==> is_g1(Pt::At(El::num(nums::limbs_val(x@)), El::num(nums::limbs_val(y@)))),
{
    let f = |l: [u64; 4]| ark_bn254::Fq::from_le_bytes_mod_order(&BigInt(l).to_bytes_le());
    G1Affine::new_unchecked(f(x), f(y)).is_on_curve()
}

impl G1 {
    /// The point at infinity.
    pub fn zero() -> (res: G1)
        ensures
            res@ == Pt::Inf,
            is_g1(res@),
            g1_log(res@) == 0,
    {
        let res = ark_g1_zero();
        proof {
            logs::lemma_log_infinity(g1_generator(), beta1());
        }
        res
    }

    /// `self + b`.
    pub fn add(&self, b: &G1) -> (res: G1)
        ensures
            res@ == self@.plus(b@),
            is_g1(res@),
            g1_log(res@) == (g1_log(self@) + g1_log(b@)) % ring::r(),
    {
        proof {
            use_type_invariant(self);
            use_type_invariant(b);
            lemma_g1_sum(self@, b@);
        }
        ark_g1_add(self, b)
    }

    /// `−self`.
    pub fn neg(&self) -> (res: G1)
        ensures
            res@ == self@.reflected(),
            is_g1(res@),
            g1_log(res@) == (-g1_log(self@)) % ring::r(),
    {
        proof {
            use_type_invariant(self);
            assoc::lemma_reflected_twice(self@, beta1());
            logs::lemma_log_reflected(g1_generator(), beta1(), self@);
        }
        ark_g1_neg(self)
    }

    /// `self − b`.
    pub fn sub(&self, b: &G1) -> (res: G1)
        ensures
            res@ == self@.plus(b@.reflected()),
            is_g1(res@),
            g1_log(res@) == (g1_log(self@) - g1_log(b@)) % ring::r(),
    {
        proof {
            let (m, x, y) = (ring::r(), g1_log(self@), g1_log(b@));
            nums::lemma_mod_ops(x, -y, m);
        }
        self.add(&b.neg())
    }

    /// `2·self`.
    pub fn double(&self) -> (res: G1)
        ensures
            res@ == self@.plus(self@),
            is_g1(res@),
            g1_log(res@) == (2 * g1_log(self@)) % ring::r(),
    {
        proof {
            use_type_invariant(self);
            lemma_g1_sum(self@, self@);
        }
        ark_g1_double(self)
    }

    /// `k·G`, for the generator `G`.
    pub fn generator_times(k: Fr) -> (res: G1)
        ensures
            res@ == g1_at(k@),
            is_g1(res@),
            g1_log(res@) == k@,
    {
        let res = ark_g1_generator_times(k);
        proof {
            logs::lemma_log(g1_generator(), beta1(), k@);
        }
        res
    }

    /// A random point.
    pub fn rand(rng: &mut StdRng) -> (res: G1)
        ensures
            G1::drawn(*old(rng), *final(rng), res),
            is_g1(res@),
    {
        ark_g1_rand(rng)
    }

    /// The point with the given coordinates, if they satisfy the equation.
    pub fn from_coords(x: Fq, y: Fq) -> (res: Option<G1>)
        ensures
            res is Some <==> points::on_curve(x@, y@, beta1()),
            res matches Some(g) ==> g@ == Pt::At(x@, y@) && is_g1(g@),
    {
        if ark_g1_on_curve(x.limbs, y.limbs) {
            proof {
                x.lemma_view();
                y.lemma_view();
            }
            let res = G1 { c: [x.limbs, y.limbs], infinity: false };
            Some(res)
        } else {
            None
        }
    }

    /// Affine coordinates, or nothing for the point at infinity.
    pub fn coords(&self) -> (res: Option<(Fq, Fq)>)
        ensures
            match self@ {
                Pt::Inf => res is None,
                Pt::At(x, y) => res matches Some(c) && c.0@ == x && c.1@ == y,
            },
    {
        if self.infinity {
            None
        } else {
            Some((Fq { limbs: self.c[0] }, Fq { limbs: self.c[1] }))
        }
    }

    /// Whether this is the point at infinity.
    pub fn is_zero(&self) -> (res: bool)
        ensures
            res == (self@ == Pt::Inf),
    {
        self.infinity
    }

    /// Whether two points are the same.
    pub fn equals(&self, other: &G1) -> (res: bool)
        ensures
            res == (self@ == other@),
    {
        match (self.coords(), other.coords()) {
            (Some(a), Some(b)) => a.0.equals(&b.0) && a.1.equals(&b.1),
            (None, None) => true,
            _ => false,
        }
    }
}

impl PartialEq for G1 {
    fn eq(&self, other: &G1) -> (res: bool) {
        self.equals(other)
    }
}

impl Eq for G1 {

}

impl vstd::std_specs::cmp::PartialEqSpecImpl for G1 {
    open spec fn obeys_eq_spec() -> bool {
        true
    }

    open spec fn eq_spec(&self, other: &G1) -> bool {
        self@ == other@
    }
}

// ------------------------------------------------------------------- Twist

/// The element of `F_{p^2}` with the given limbs of its components.
pub open spec fn pair_el(c0: Seq<u64>, c1: Seq<u64>) -> El {
    (El { c0: nums::limbs_val(c0), c1: nums::limbs_val(c1) }).red()
}

/// A point of the twist `E'(F_{p^2})`, not necessarily in `G_2`.
#[derive(Clone, Copy, Debug)]
pub struct Twist {
    c: [[u64; 4]; 4],
    infinity: bool,
}

impl Drawn for Twist {
    /// The point is a random one, from the generator in the first state.
    closed spec fn drawn(before: StdRng, after: StdRng, x: Twist) -> bool {
        exists|g: &mut StdRng|
            *g == before && #[trigger] call_ensures(ark_twist_rand, (g,), x)
    }
}

impl View for Twist {
    type V = Pt;

    closed spec fn view(&self) -> Pt {
        if self.infinity {
            Pt::Inf
        } else {
            Pt::At(
                pair_el(self.c@[0]@, self.c@[1]@),
                pair_el(self.c@[2]@, self.c@[3]@),
            )
        }
    }
}

impl Twist {
    /// Every value is a point of the twist.
    #[verifier::type_invariant]
    spec fn is_point(self) -> bool {
        is_twist(self@)
    }
}

/// `+` of ark-ec on `ark_bn254::G2Affine`: the sum by chords and tangents, a point of
/// the twist. The points there whose order divides `r` are the multiples of `H`.
#[verifier::external_body]
fn ark_twist_add(a: &Twist, b: &Twist) -> (res: Twist)
    requires
        a@.on(beta2()),
        b@.on(beta2()),
    ensures
        res@ == a@.plus(b@),
        is_twist(res@),
{
    let p = |t: &Twist|
        {
            let [x0, x1, y0, y1] = t.c.map(
                |l| ark_bn254::Fq::from_le_bytes_mod_order(&BigInt(l).to_bytes_le()),
            );
            let (x, y) = (ark_bn254::Fq2::new(x0, x1), ark_bn254::Fq2::new(y0, y1));
            G2Affine { x, y, infinity: t.infinity }
        };
    let s = (p(a) + p(b)).into_affine();
    let c = [s.x.c0, s.x.c1, s.y.c0, s.y.c1].map(|e| e.into_bigint().0);
    Twist { c, infinity: s.infinity }
}

/// Unary `-` of ark-ec on `ark_bn254::G2Affine`: the reflected point.
#[verifier::external_body]
fn ark_twist_neg(a: &Twist) -> (res: Twist)
    requires
        a@.on(beta2()),
    ensures
        res@ == a@.reflected(),
{
    let [x0, x1, y0, y1] = a.c.map(
        |l| ark_bn254::Fq::from_le_bytes_mod_order(&BigInt(l).to_bytes_le()),
    );
    let (x, y) = (ark_bn254::Fq2::new(x0, x1), ark_bn254::Fq2::new(y0, y1));
    let p = G2Affine { x, y, infinity: a.infinity };
    let s = -p;
    let c = [s.x.c0, s.x.c1, s.y.c0, s.y.c1].map(|e| e.into_bigint().0);
    Twist { c, infinity: s.infinity }
}

/// `*` of ark-ec on `ark_bn254::G2Projective` and `ark_bn254::Fr`: the multiple by
/// the scalar's least representative, a point of the twist. The points there whose
/// order divides `r` are the multiples of `H`.
#[verifier::external_body]
fn ark_twist_mul(a: &Twist, k: Fr) -> (res: Twist)
    requires
        a@.on(beta2()),
    ensures
        res@ == a@.times(k@ as nat),
        is_twist(res@),
{
    let [x0, x1, y0, y1] = a.c.map(
        |l| ark_bn254::Fq::from_le_bytes_mod_order(&BigInt(l).to_bytes_le()),
    );
    let (x, y) = (ark_bn254::Fq2::new(x0, x1), ark_bn254::Fq2::new(y0, y1));
    let p = G2Affine { x, y, infinity: a.infinity };
    let k = ark_bn254::Fr::from_le_bytes_mod_order(&BigInt(k.limbs).to_bytes_le());
    let s = (p.into_group() * k).into_affine();
    let c = [s.x.c0, s.x.c1, s.y.c0, s.y.c1].map(|e| e.into_bigint().0);
    Twist { c, infinity: s.infinity }
}

/// `PrimeGroup::mul_bigint` of ark-ec on `ark_bn254::G2Projective`, with the limbs
/// of the modulus of `ark_bn254::Fr`: the multiple by the integer `r`, a point of the
/// twist. The points there whose order divides `r` are the multiples of `H`.
#[verifier::external_body]
fn ark_twist_r_times(a: &Twist) -> (res: Twist)
    requires
        a@.on(beta2()),
    ensures
        res@ == r_multiple(a@),
        is_twist(res@),
{
    let [x0, x1, y0, y1] = a.c.map(
        |l| ark_bn254::Fq::from_le_bytes_mod_order(&BigInt(l).to_bytes_le()),
    );
    let (x, y) = (ark_bn254::Fq2::new(x0, x1), ark_bn254::Fq2::new(y0, y1));
    let p = G2Affine { x, y, infinity: a.infinity };
    let s = p.into_group().mul_bigint(ark_bn254::Fr::MODULUS.0).into_affine();
    let c = [s.x.c0, s.x.c1, s.y.c0, s.y.c1].map(|e| e.into_bigint().0);
    Twist { c, infinity: s.infinity }
}

/// `Zero::zero` of ark-ff for `ark_bn254::G2Projective`: the point at infinity, a
/// multiple of `H`, whose order is `r`.
#[verifier::external_body]
fn ark_twist_zero() -> (res: Twist)
    ensures
        res@ == Pt::Inf,
        is_twist(res@),
{
    let s = ark_bn254::G2Projective::zero().into_affine();
    let c = [s.x.c0, s.x.c1, s.y.c0, s.y.c1].map(|e| e.into_bigint().0);
    Twist { c, infinity: s.infinity }
}

/// `UniformRand::rand` of ark-ff for `ark_bn254::G2Projective`: a random point of
/// `G_2`, since sampling multiplies by the cofactor, and so a multiple of `H`.
#[verifier::external_body]
fn ark_twist_rand(rng: &mut StdRng) -> (res: Twist)
    ensures
        is_twist(res@),
        in_subgroup(res@),
{
    let s = ark_bn254::G2Projective::rand(rng).into_affine();
    let c = [s.x.c0, s.x.c1, s.y.c0, s.y.c1].map(|e| e.into_bigint().0);
    Twist { c, infinity: s.infinity }
}

/// `PrimeGroup::generator` of ark-ec for `ark_bn254::G2Projective`, times a
/// scalar: the multiple of `H`, whose order is `r`, by the scalar's least
/// representative.
#[verifier::external_body]
fn ark_twist_generator_times(k: Fr) -> (res: Twist)
    ensures
        res@ == g2_at(k@),
        is_twist(res@),
        in_subgroup(res@),
{
    let k = ark_bn254::Fr::from_le_bytes_mod_order(&BigInt(k.limbs).to_bytes_le());
    let s = (ark_bn254::G2Projective::generator() * k).into_affine();
    let c = [s.x.c0, s.x.c1, s.y.c0, s.y.c1].map(|e| e.into_bigint().0);
    Twist { c, infinity: s.infinity }
}

/// `Affine::is_on_curve` of ark-ec on the `ark_bn254::G2Affine` with the
/// coordinates, given by components: whether they satisfy the equation. Of the points
/// that do, those whose order divides `r` are the multiples of `H`.
#[verifier::external_body]
fn ark_twist_on_curve(c: [[u64; 4]; 4]) -> (res: bool)
    ensures
        res == points::on_curve(
            pair_el(c@[0]@, c@[1]@),
            pair_el(c@[2]@, c@[3]@),
            beta2(),
        ),
        res ==> is_twist(Pt::At(pair_el(c@[0]@, c@[1]@), pair_el(c@[2]@, c@[3]@))),
{
    let [x0, x1, y0, y1] = c.map(
        |l| ark_bn254::Fq::from_le_bytes_mod_order(&BigInt(l).to_bytes_le()),
    );
    let (x, y) = (ark_bn254::Fq2::new(x0, x1), ark_bn254::Fq2::new(y0, y1));
    G2Affine::new_unchecked(x, y).is_on_curve()
}

/// `CanonicalSerialize::serialize_compressed` of ark-serialize on
/// `ark_bn254::G2Affine`: 64 bytes that depend on the point alone.
#[verifier::external_body]
fn ark_twist_compressed(a: &Twist) -> (res: Vec<u8>)
    requires
        a@.on(beta2()),
    ensures
        res@ == twist_bytes(a@),
        res@.len() == 64,
{
    let [x0, x1, y0, y1] = a.c.map(
        |l| ark_bn254::Fq::from_le_bytes_mod_order(&BigInt(l).to_bytes_le()),
    );
    let (x, y) = (ark_bn254::Fq2::new(x0, x1), ark_bn254::Fq2::new(y0, y1));
    let p = G2Affine { x, y, infinity: a.infinity };
    let mut bytes = Vec::new();
    p.serialize_compressed(&mut bytes).expect("serializing a group element cannot fail");
    bytes
}

impl Twist {
    /// The point at infinity.
    pub fn zero() -> (res: Twist)
        ensures
            res@ == Pt::Inf,
            is_twist(res@),
            in_subgroup(res@),
            g2_log(res@) == 0,
    {
        proof {
            assoc::lemma_infinity_times(ring::r() as nat);
        }
        let res = ark_twist_zero();
        proof {
            logs::lemma_log_infinity(g2_generator(), beta2());
        }
        res
    }

    /// `self + b`.
    pub fn add(&self, b: &Twist) -> (res: Twist)
        ensures
            res@ == self@.plus(b@),
            is_twist(res@),
            r_multiple(res@) == r_multiple(self@).plus(r_multiple(b@)),
            in_subgroup(self@) && in_subgroup(b@) ==> g2_log(res@) == (g2_log(self@) + g2_log(b@))
                % ring::r(),
    {
        proof {
            use_type_invariant(self);
            use_type_invariant(b);
            assoc::lemma_multiple_of_sum(self@, b@, ring::r() as nat, beta2());
            if in_subgroup(self@) && in_subgroup(b@) {
                lemma_g2_sum(self@, b@);
            }
        }
        ark_twist_add(self, b)
    }

    /// `−self`.
    pub fn neg(&self) -> (res: Twist)
        ensures
            res@ == self@.reflected(),
            is_twist(res@),
            in_subgroup(self@) ==> in_subgroup(res@) && g2_log(res@) == (-g2_log(self@))
                % ring::r(),
    {
        proof {
            use_type_invariant(self);
            assoc::lemma_reflected_twice(self@, beta2());
            points::lemma_reflected_multiple(self@, ring::r() as nat);
            if in_subgroup(self@) {
                logs::lemma_log_reflected(g2_generator(), beta2(), self@);
            }
        }
        ark_twist_neg(self)
    }

    /// `self − b`.
    pub fn sub(&self, b: &Twist) -> (res: Twist)
        ensures
            res@ == self@.plus(b@.reflected()),
            is_twist(res@),
            r_multiple(res@) == r_multiple(self@).plus(r_multiple(b@).reflected()),
            in_subgroup(self@) && in_subgroup(b@) ==> g2_log(res@) == (g2_log(self@) - g2_log(b@))
                % ring::r(),
    {
        proof {
            use_type_invariant(b);
            points::lemma_reflected_multiple(b@, ring::r() as nat);
            let (m, x, y) = (ring::r(), g2_log(self@), g2_log(b@));
            nums::lemma_mod_ops(x, -y, m);
        }
        self.add(&b.neg())
    }

    /// `k·self`.
    pub fn mul(&self, k: Fr) -> (res: Twist)
        ensures
            res@ == self@.times(k@ as nat),
            is_twist(res@),
            in_subgroup(self@) ==> in_subgroup(res@) && g2_log(res@) == (k@ * g2_log(self@))
                % ring::r(),
    {
        proof {
            use_type_invariant(self);
            let (m, n) = (k@ as nat, ring::r() as nat);
            assoc::lemma_multiple_of_multiple(self@, m, n, beta2());
            assoc::lemma_infinity_times(m);
            if in_subgroup(self@) {
                logs::lemma_log_multiple(g2_generator(), beta2(), self@, m);
            }
        }
        ark_twist_mul(self, k)
    }

    /// `r·self`, for the integer `r`.
    pub fn r_times(&self) -> (res: Twist)
        ensures
            res@ == r_multiple(self@),
            is_twist(res@),
    {
        proof {
            use_type_invariant(self);
        }
        ark_twist_r_times(self)
    }

    /// `k·H`, for the generator `H` of `G_2`.
    pub fn generator_times(k: Fr) -> (res: Twist)
        ensures
            res@ == g2_at(k@),
            is_twist(res@),
            in_subgroup(res@),
            g2_log(res@) == k@,
    {
        let res = ark_twist_generator_times(k);
        proof {
            logs::lemma_log(g2_generator(), beta2(), k@);
        }
        res
    }

    /// A random point of `G_2`.
    pub fn rand(rng: &mut StdRng) -> (res: Twist)
        ensures
            Twist::drawn(*old(rng), *final(rng), res),
            is_twist(res@),
            in_subgroup(res@),
    {
        ark_twist_rand(rng)
    }

    /// The point with the given coordinates, if they satisfy the equation.
    pub fn from_coords(x: Fq2, y: Fq2) -> (res: Option<Twist>)
        ensures
            res is Some <==> points::on_curve(x@, y@, beta2()),
            res matches Some(t) ==> t@ == Pt::At(x@, y@) && is_twist(t@),
    {
        let c = [x.c0.limbs, x.c1.limbs, y.c0.limbs, y.c1.limbs];
        if ark_twist_on_curve(c) {
            proof {
                x.lemma_view();
                y.lemma_view();
            }
            let res = Twist { c, infinity: false };
            Some(res)
        } else {
            None
        }
    }

    /// Affine coordinates, or nothing for the point at infinity.
    pub fn coords(&self) -> (res: Option<(Fq2, Fq2)>)
        ensures
            match self@ {
                Pt::Inf => res is None,
                Pt::At(x, y) => res matches Some(c) && c.0@ == x && c.1@ == y,
            },
    {
        if self.infinity {
            None
        } else {
            Some(
                (
                    Fq2 { c0: Fq { limbs: self.c[0] }, c1: Fq { limbs: self.c[1] } },
                    Fq2 { c0: Fq { limbs: self.c[2] }, c1: Fq { limbs: self.c[3] } },
                ),
            )
        }
    }

    /// Whether this is the point at infinity.
    pub fn is_zero(&self) -> (res: bool)
        ensures
            res == (self@ == Pt::Inf),
    {
        self.infinity
    }

    /// Whether two points are the same.
    pub fn equals(&self, other: &Twist) -> (res: bool)
        ensures
            res == (self@ == other@),
    {
        match (self.coords(), other.coords()) {
            (Some(a), Some(b)) => a.0.equals(&b.0) && a.1.equals(&b.1),
            (None, None) => true,
            _ => false,
        }
    }

    /// The compressed form.
    pub fn to_compressed_bytes(&self) -> (res: Vec<u8>)
        ensures
            res@ == twist_bytes(self@),
            res@.len() == 64,
    {
        proof {
            use_type_invariant(self);
        }
        ark_twist_compressed(self)
    }
}

impl PartialEq for Twist {
    fn eq(&self, other: &Twist) -> (res: bool) {
        self.equals(other)
    }
}

impl Eq for Twist {

}

impl vstd::std_specs::cmp::PartialEqSpecImpl for Twist {
    open spec fn obeys_eq_spec() -> bool {
        true
    }

    open spec fn eq_spec(&self, other: &Twist) -> bool {
        self@ == other@
    }
}

// ---------------------------------------------------------------------- Gt

/// An element of the target group, written additively.
#[derive(Clone, Copy, Debug)]
pub struct Gt {
    c: [[u64; 4]; 12],
}

impl View for Gt {
    type V = Seq<int>;

    closed spec fn view(&self) -> Seq<int> {
        Seq::new(12, |i: int| nums::limbs_val(self.c@[i]@))
    }
}

/// An element has twelve coefficients, each of 32 bytes.
pub proof fn lemma_gt_view(n: Gt)
    ensures
        n@.len() == 12,
        forall|i: int| 0 <= i < 12 ==> 0 <= #[trigger] n@[i] < nums::pow(256, 32),
{
    nums::lemma_pow256();
    assert forall|i: int| 0 <= i < 12 implies 0 <= #[trigger] n@[i] < nums::pow(256, 32) by {
        nums::lemma_limbs4(n.c@[i]@);
    }
}

/// Whether coefficients are those of an element of the target group.
pub open spec fn in_gt(n: Seq<int>) -> bool {
    exists|k: int| 0 <= k < ring::r() && #[trigger] gt_at(k) == n
}

impl Gt {
    /// Every value is an element of the group.
    #[verifier::type_invariant]
    spec fn is_element(self) -> bool {
        in_gt(self@)
    }
}

/// The sum of the products of the first `n` pairs of logarithms.
pub open spec fn pairing_sum(a: Seq<G1>, b: Seq<Twist>, n: int) -> int
    decreases n,
{
    if n <= 0 {
        0
    } else {
        pairing_sum(a, b, n - 1) + g1_log(a[n - 1]@) * g2_log(b[n - 1]@)
    }
}

/// The coefficients, each in 32 little-endian bytes, one after the other.
pub open spec fn gt_bytes(n: Seq<int>) -> Seq<u8>
    decreases n.len(),
{
    if n.len() == 0 {
        Seq::empty()
    } else {
        gt_bytes(n.drop_last()) + nums::le_bytes(n.last(), 32)
    }
}

/// The bytes of a coefficient stand in the 32 places that its position gives.
pub proof fn lemma_gt_bytes(n: Seq<int>)
    ensures
        gt_bytes(n).len() == 32 * n.len(),
        forall|i: int|
            #![trigger n[i]]
            0 <= i < n.len() ==> gt_bytes(n).subrange(32 * i, 32 * i + 32) == nums::le_bytes(
                n[i],
                32,
            ),
    decreases n.len(),
{
    if n.len() > 0 {
        let (head, last) = (n.drop_last(), nums::le_bytes(n.last(), 32));
        lemma_gt_bytes(head);
        nums::lemma_le_bytes_len(n.last(), 32);
        let all = gt_bytes(n);
        assert(all == gt_bytes(head) + last);
        assert forall|i: int|
            #![trigger n[i]]
            0 <= i < n.len() implies all.subrange(32 * i, 32 * i + 32) == nums::le_bytes(
            n[i],
            32,
        ) by {
            if i < head.len() {
                assert(head[i] == n[i]);
                assert(all.subrange(32 * i, 32 * i + 32) =~= gt_bytes(head).subrange(
                    32 * i,
                    32 * i + 32,
                ));
            } else {
                assert(all.subrange(32 * i, 32 * i + 32) =~= last);
            }
        }
    }
}

/// `Pairing::multi_pairing` of ark-ec for `ark_bn254::Bn254`: the sum of the
/// pairings. The pairing is bilinear, so that of `j·G` and `k·H` is that of `(j·k)·G`
/// and `H`.
#[verifier::external_body]
fn ark_multi_pairing<const N: usize>(a: [G1; N], b: [Twist; N]) -> (res: Gt)
    requires
        forall|i: int| 0 <= i < N ==> (#[trigger] a@[i])@.on(beta1()),
        forall|i: int| 0 <= i < N ==> (#[trigger] b@[i])@.on(beta2()),
        forall|i: int| 0 <= i < N ==> in_subgroup((#[trigger] b@[i])@),
    ensures
        res@ == gt_at(pairing_sum(a@, b@, N as int) % ring::r()),
        gt_log(res@) == pairing_sum(a@, b@, N as int) % ring::r(),
{
    let f = |l| ark_bn254::Fq::from_le_bytes_mod_order(&BigInt(l).to_bytes_le());
    let e = |x, y| ark_bn254::Fq2::new(f(x), f(y));
    let p = a.map(|G1 { c: [x, y], infinity }| G1Affine { x: f(x), y: f(y), infinity });
    let q = b.map(
        |Twist { c: [x0, x1, y0, y1], infinity }|
            G2Affine { x: e(x0, x1), y: e(y0, y1), infinity },
    );
    let n = Bn254::multi_pairing(p, q);
    let mut c = n.0.to_base_prime_field_elements().map(PrimeField::into_bigint);
    Gt { c: core::array::from_fn(|_| c.next().unwrap().0) }
}

/// `+` of ark-ec on `PairingOutput`: the sum, by logarithms.
#[verifier::external_body]
fn ark_gt_add(a: &Gt, b: &Gt) -> (res: Gt)
    requires
        in_gt(a@),
        in_gt(b@),
    ensures
        res@ == gt_at((gt_log(a@) + gt_log(b@)) % ring::r()),
        gt_log(res@) == (gt_log(a@) + gt_log(b@)) % ring::r(),
{
    let f = |l: [u64; 4]| ark_bn254::Fq::from_le_bytes_mod_order(&BigInt(l).to_bytes_le());
    let e = |n: &Gt| ark_bn254::Fq12::from_base_prime_field_elems(n.c.map(f)).unwrap();
    let s = PairingOutput::<Bn254>(e(a)) + PairingOutput::<Bn254>(e(b));
    let c: Vec<[u64; 4]> = s.0.to_base_prime_field_elements().map(|e| e.into_bigint().0).collect();
    Gt { c: core::array::from_fn(|i| c[i]) }
}

/// `-` of ark-ec on `PairingOutput`: the difference, by logarithms.
#[verifier::external_body]
fn ark_gt_sub(a: &Gt, b: &Gt) -> (res: Gt)
    requires
        in_gt(a@),
        in_gt(b@),
    ensures
        res@ == gt_at((gt_log(a@) - gt_log(b@)) % ring::r()),
        gt_log(res@) == (gt_log(a@) - gt_log(b@)) % ring::r(),
{
    let f = |l: [u64; 4]| ark_bn254::Fq::from_le_bytes_mod_order(&BigInt(l).to_bytes_le());
    let e = |n: &Gt| ark_bn254::Fq12::from_base_prime_field_elems(n.c.map(f)).unwrap();
    let s = PairingOutput::<Bn254>(e(a)) - PairingOutput::<Bn254>(e(b));
    let c: Vec<[u64; 4]> = s.0.to_base_prime_field_elements().map(|e| e.into_bigint().0).collect();
    Gt { c: core::array::from_fn(|i| c[i]) }
}

/// `Zero::is_zero` of ark-ff on `PairingOutput` of ark-ec: whether the element is
/// the group's neutral one, whose logarithm is zero.
#[verifier::external_body]
fn ark_gt_is_zero(a: &Gt) -> (res: bool)
    requires
        in_gt(a@),
    ensures
        res == (gt_log(a@) == 0),
{
    let f = |l: [u64; 4]| ark_bn254::Fq::from_le_bytes_mod_order(&BigInt(l).to_bytes_le());
    let e = |n: &Gt| ark_bn254::Fq12::from_base_prime_field_elems(n.c.map(f)).unwrap();
    PairingOutput::<Bn254>(e(a)).is_zero()
}

/// `CanonicalSerialize::serialize_compressed` of ark-serialize on `PairingOutput`
/// of ark-ec: the coefficients in order, each in 32 little-endian bytes.
#[verifier::external_body]
fn ark_gt_serialize(a: &Gt) -> (res: Vec<u8>)
    requires
        in_gt(a@),
    ensures
        res@ == gt_bytes(a@),
{
    let f = |l: [u64; 4]| ark_bn254::Fq::from_le_bytes_mod_order(&BigInt(l).to_bytes_le());
    let e = |n: &Gt| ark_bn254::Fq12::from_base_prime_field_elems(n.c.map(f)).unwrap();
    let mut bytes = Vec::new();
    PairingOutput::<Bn254>(e(a)).serialize_compressed(&mut bytes).expect(
        "serializing a target-group element cannot fail",
    );
    bytes
}

impl Gt {
    /// The sum of the pairings `e(a_i, b_i)`, for `b_i` in `G_2`.
    pub fn multi_pairing<const N: usize>(a: [G1; N], b: [Twist; N]) -> (res: Gt)
        requires
            forall|i: int| 0 <= i < N ==> in_subgroup((#[trigger] b@[i])@),
        ensures
            res@ == gt_at(pairing_sum(a@, b@, N as int) % ring::r()),
            gt_log(res@) == pairing_sum(a@, b@, N as int) % ring::r(),
    {
        for i in 0..N
            invariant
                forall|j: int| 0 <= j < i ==> (#[trigger] a@[j])@.on(beta1()),
                forall|j: int| 0 <= j < i ==> (#[trigger] b@[j])@.on(beta2()),
        {
            let (g, t) = (&a[i], &b[i]);
            proof {
                use_type_invariant(g);
                use_type_invariant(t);
            }
        }
        ark_multi_pairing(a, b)
    }

    /// `self + b`.
    pub fn add(&self, b: &Gt) -> (res: Gt)
        ensures
            res@ == gt_at((gt_log(self@) + gt_log(b@)) % ring::r()),
            gt_log(res@) == (gt_log(self@) + gt_log(b@)) % ring::r(),
    {
        proof {
            use_type_invariant(self);
            use_type_invariant(b);
        }
        ark_gt_add(self, b)
    }

    /// `self − b`.
    pub fn sub(&self, b: &Gt) -> (res: Gt)
        ensures
            res@ == gt_at((gt_log(self@) - gt_log(b@)) % ring::r()),
            gt_log(res@) == (gt_log(self@) - gt_log(b@)) % ring::r(),
    {
        proof {
            use_type_invariant(self);
            use_type_invariant(b);
        }
        ark_gt_sub(self, b)
    }

    /// Whether this is the neutral element.
    pub fn is_zero(&self) -> (res: bool)
        ensures
            res == (gt_log(self@) == 0),
    {
        proof {
            use_type_invariant(self);
        }
        ark_gt_is_zero(self)
    }

    /// The coefficients in order, each in 32 little-endian bytes.
    pub fn to_bytes(&self) -> (res: Vec<u8>)
        ensures
            res@ == gt_bytes(self@),
    {
        proof {
            use_type_invariant(self);
        }
        ark_gt_serialize(self)
    }
}

/// Only a call of the generator shows a draw of a point of `G_1`.
proof fn law_draw_is_a_call_g1(before: StdRng, after: StdRng, x: G1)
    requires
        G1::drawn(before, after, x),
    ensures
        exists|g: &mut StdRng| *g == before && #[trigger] call_ensures(ark_g1_rand, (g,), x),
{
}

/// Only a call of the generator shows a draw of a point of `G_2`.
proof fn law_draw_is_a_call_twist(before: StdRng, after: StdRng, x: Twist)
    requires
        Twist::drawn(before, after, x),
    ensures
        exists|g: &mut StdRng| *g == before && #[trigger] call_ensures(ark_twist_rand, (g,), x),
{
}

} // verus!
