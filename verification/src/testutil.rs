//! A synthetic verifier with a matched valid proof, for the tests, and a twist
//! point outside `G_2`.
use crate::curve::{b2, in_g2, pair, twist_from_coords, Twist, G1};
use crate::draws;
use crate::draws::Drawn;
use crate::elems::{Field, Fq2, Fr};
use crate::group;
use crate::group::{rand_nonzero, ProofPoints, Verifier};
use crate::groups;
use crate::nums;
use crate::points;
use crate::points::Pt;
use crate::ring;
use crate::ring::El;
use ark_std::rand::rngs::StdRng;
use vstd::prelude::*;

verus! {

/// A verifier with a matched valid proof and an invalid one.
pub struct Instance {
    /// The normalized verifier.
    pub vk: Verifier,
    /// A proof it accepts.
    pub valid: ProofPoints,
    /// A proof it rejects.
    pub invalid: ProofPoints,
}

impl Instance {
    /// The verifier accepts the one proof and rejects the other.
    pub open spec fn wf(self) -> bool {
        &&& self.vk.wf()
        &&& self.vk.valid(self.valid)
        &&& groups::in_subgroup(self.invalid.b@)
        &&& !self.vk.valid(self.invalid)
    }
}

/// The proof with the given discrete logarithms.
fn proof_at(a: Fr, b: Fr, c: Fr) -> (res: ProofPoints)
    ensures
        res.a@ == groups::g1_at(a@),
        res.b@ == groups::g2_at(b@),
        res.c@ == groups::g1_at(c@),
        groups::in_subgroup(res.b@),
        groups::g1_log(res.a@) == a@,
        groups::g2_log(res.b@) == b@,
        groups::g1_log(res.c@) == c@,
{
    ProofPoints {
        a: G1::generator_times(a),
        b: Twist::generator_times(b),
        c: G1::generator_times(c),
    }
}

/// Choose `D` so that the proof with discrete logarithms `(a, b, c)` verifies; the
/// invalid proof bumps `a`.
pub fn instance_at(a: Fr, b: Fr, c: Fr, eta: Fr) -> (res: Instance)
    requires
        b@ != 0,
    ensures
        res.wf(),
        res.vk.h1@ == groups::g2_at(eta@),
        groups::gt_log(res.vk.d@) == (a@ * b@ + c@ * eta@) % ring::r(),
        res.valid.a@ == groups::g1_at(a@),
        res.valid.b@ == groups::g2_at(b@),
        res.valid.c@ == groups::g1_at(c@),
        res.invalid.a@ == groups::g1_at((a@ + 1) % ring::r()),
        res.invalid.b@ == groups::g2_at(b@),
        res.invalid.c@ == groups::g1_at(c@),
{
    let h1 = Twist::generator_times(eta);
    let valid = proof_at(a, b, c);
    let d = pair(&valid.a, &valid.b).add(&pair(&valid.c, &h1));
    let vk = Verifier { h1, d };
    let invalid = proof_at(a.add(Fr::one()), b, c);
    proof {
        let m = ring::r();
        let (ab, ce) = (a@ * b@, c@ * eta@);
        nums::lemma_mod_ops(ab, ce, m);
        nums::lemma_mod_ops(ab + ce, 0, m);
        nums::lemma_mod_ops(ab + ce, ab + ce, m);
        // the valid verdict
        nums::lemma_mod_ops(ab + ce, (ab + ce) % m, m);
        vstd::arithmetic::div_mod::lemma_small_mod(0, m as nat);
        // the invalid one is b
        let a1 = (a@ + 1) % m;
        nums::lemma_mod_ops(a@ + 1, b@, m);
        assert((a@ + 1) * b@ == ab + b@) by (nonlinear_arith)
            requires
                ab == a@ * b@,
        ;
        nums::lemma_mod_ops(a1 * b@, ce, m);
        nums::lemma_mod_ops(ab + b@, ce, m);
        nums::lemma_mod_ops(a1 * b@ + ce, (ab + ce) % m, m);
        nums::lemma_mod_ops(ab + b@ + ce, ab + ce, m);
        vstd::arithmetic::div_mod::lemma_small_mod(b@ as nat, m as nat);
    }
    Instance { vk, valid, invalid }
}

/// A random instance.
pub fn synthetic(rng: &mut StdRng) -> (res: Instance)
    ensures
        res.wf(),
        exists|a: Fr, b: Fr, c: Fr, eta: Fr, g1: StdRng, g2: StdRng, g3: StdRng|
            {
                &&& #[trigger] Fr::drawn(*old(rng), g1, a)
                &&& #[trigger] group::nonzero_drawn(g1, g2, b)
                &&& #[trigger] Fr::drawn(g2, g3, c)
                &&& #[trigger] Fr::drawn(g3, *final(rng), eta)
                &&& res.vk.h1@ == groups::g2_at(eta@)
                &&& groups::gt_log(res.vk.d@) == (a@ * b@ + c@ * eta@) % ring::r()
                &&& res.valid.a@ == groups::g1_at(a@)
                &&& res.valid.b@ == groups::g2_at(b@)
                &&& res.valid.c@ == groups::g1_at(c@)
                &&& res.invalid.a@ == groups::g1_at((a@ + 1) % ring::r())
                &&& res.invalid.b@ == groups::g2_at(b@)
                &&& res.invalid.c@ == groups::g1_at(c@)
            },
{
    let ghost g0 = *rng;
    let a = Fr::rand(rng);
    let ghost g1 = *rng;
    let b = rand_nonzero(rng);
    let ghost g2 = *rng;
    let c = Fr::rand(rng);
    let ghost g3 = *rng;
    let eta = Fr::rand(rng);
    assert(Fr::drawn(g0, g1, a) && group::nonzero_drawn(g1, g2, b) && Fr::drawn(g2, g3, c)
        && Fr::drawn(g3, *rng, eta));
    instance_at(a, b, c, eta)
}

/// The point with the given coordinates, if they satisfy the equation of the twist
/// and it is not in `G_2`.
pub fn point_off_g2(x: Fq2, y: Fq2) -> (res: Option<Twist>)
    ensures
        res is Some <==> points::on_curve(x@, y@, groups::beta2()) && !groups::in_subgroup(
            Pt::At(x@, y@),
        ),
        res matches Some(t) ==> t@ == Pt::At(x@, y@),
{
    match twist_from_coords(x, y) {
        Some(p) => if in_g2(&p) {
            None
        } else {
            Some(p)
        },
        None => None,
    }
}

/// Whether the twist has a point of the given abscissa that is not in `G_2`.
pub open spec fn has_point_off_g2(x: El) -> bool {
    exists|y: El|
        #![trigger points::on_curve(x, y, groups::beta2())]
        y.reduced() && points::on_curve(x, y, groups::beta2()) && !groups::in_subgroup(
            Pt::At(x, y),
        )
}

/// A point of the given abscissa that is not in `G_2`, if the twist has one.
pub fn point_off_g2_at(x: Fq2) -> (res: Option<Twist>)
    ensures
        res is Some <==> has_point_off_g2(x@),
        res matches Some(t) ==> t@.on(groups::beta2()) && !groups::in_subgroup(t@) && (t@ matches
            Pt::At(u, _) && u == x@),
{
    let rhs = x.mul(x).mul(x).add(b2());
    proof {
        x.lemma_view();
    }
    match rhs.sqrt() {
        Some(y) => {
            proof {
                y.lemma_view();
                assert forall|z: El|
                    #![trigger points::on_curve(x@, z, groups::beta2())]
                    z.reduced() && points::on_curve(x@, z, groups::beta2())
                        && groups::in_subgroup(Pt::At(x@, y@)) implies groups::in_subgroup(
                    Pt::At(x@, z),
                ) by {
                    points::lemma_same_abscissa(x@, y@, z, groups::beta2());
                    points::lemma_reflected_multiple(Pt::At(x@, y@), ring::r() as nat);
                }
            }
            point_off_g2(x, y)
        },
        None => None,
    }
}

/// A random point of the twist that is not in `G_2`: that of the first random
/// abscissa that gives one. (Nothing if `u64::MAX` abscissae in a row give none.)
pub fn twist_off_g2(rng: &mut StdRng) -> (res: Option<Twist>)
    ensures
        res matches Some(t) ==> t@.on(groups::beta2()) && !groups::in_subgroup(t@),
        exists|tried: Seq<Fq2>|
            {
                &&& #[trigger] draws::draws(*old(rng), *final(rng), tried)
                &&& tried.len() > 0
                &&& forall|i: int|
                    0 <= i < tried.len() - 1 ==> !has_point_off_g2((#[trigger] tried[i])@)
                &&& res is Some <==> has_point_off_g2(tried.last()@)
                &&& res matches Some(t) ==> (t@ matches Pt::At(u, _) && u == tried.last()@)
                &&& res is None ==> tried.len() == u64::MAX
            },
{
    let ghost start = *rng;
    let mut tries: u64 = 0;
    let ghost mut tried: Seq<Fq2> = Seq::empty();
    while tries < u64::MAX
        invariant
            start == *old(rng),
            tried.len() == tries,
            draws::draws(start, *rng, tried),
            forall|i: int| 0 <= i < tried.len() ==> !has_point_off_g2((#[trigger] tried[i])@),
        decreases u64::MAX - tries,
    {
        let ghost (before, without) = (*rng, tried);
        let x = Fq2::rand(rng);
        proof {
            draws::lemma_one_more(start, before, *rng, tried, x);
            tried = tried.push(x);
            assert(tried.last() == x);
            assert forall|i: int| 0 <= i < tried.len() - 1 implies !has_point_off_g2(
                (#[trigger] tried[i])@,
            ) by {
                assert(tried[i] == without[i]);
            }
        }
        if let Some(p) = point_off_g2_at(x) {
            assert(draws::draws(start, *rng, tried));
            return Some(p);
        }
        tries = tries + 1;
    }
    None
}

} // verus!
