//! Garbling the Argo encoding `c·V + K` of a point from its affine coordinates
//! (Eagen-Lai's MAC, here for a binary coefficient `c ∈ {0, 1}`).
//!
//! The three output coordinates are degree-two polynomials in `(u, v)`, garbled
//! entry-by-entry by [`crate::itpg`]. The template is the same for `c = 0` and
//! `c = 1`, so neither the label count nor a branch choice reveals the
//! coefficient. For mask `K = (a, b)` on `v² = u³ + β`, mixed Jacobian addition
//! reduced mod the curve equation gives
//!
//! ```text
//!   X = 2β − 2bv + a²u + au²
//!   Y = bv² + 3abu² − 3a²uv − (a³ + 4β)v + 3bβ
//!   Z = u − a
//! ```
//!
//! transmitted scaled by `(μ², μ³, μ)`. This is a uniform Jacobian representative
//! of `c·V + K` on every branch but `V = K`, where the triple is identically
//! zero and so gives away the coefficient outright: privacy is statistical
//! (distance `1/r` per entry), not perfect.
//!
//! Both degenerate cases (`Z = 0`, i.e. `V = ±K`) still decode correctly, at no
//! extra cost: `V = K` gives the all-zero triple, decoded as `2K = 2V`; `V = −K`
//! gives `(4b², 8b³, 0)`, a valid Jacobian identity since `b ≠ 0` there. The
//! `V = K` case is what lets a proof chosen after the masks are known (the
//! garbler's own case) evaluate correctly.
//!
//! Binary-only: with more than two coefficients the all-zero triple would no
//! longer identify which one was applied.
use crate::curve::{b1, b2, g1_coords, g1_from_coords, twist_coords, twist_from_coords, Twist, G1};
use crate::draws;
use crate::elems::{Field, Fq, Fq2};
use crate::groups;
use crate::inverse;
use crate::itpg;
use crate::itpg::{CoordLabels, CoordValues, Cursor, Layout, Monomial, Poly, Shape};
use crate::linear;
use crate::points;
use crate::points::Pt;
use crate::ring;
use crate::ring::El;
use ark_std::rand::rngs::StdRng;
use vstd::prelude::*;

verus! {

/// A curve `v² = u³ + b` over a field, with its point type.
pub trait Curve {
    /// The coordinate field.
    type F: Field;

    /// The point type.
    type Point: View<V = Pt>;

    /// The constant `b`, as a number.
    spec fn beta() -> El;

    proof fn lemma_beta()
        ensures
            Self::beta().reduced(),
    ;

    /// The constant `b`.
    fn b() -> (res: Self::F)
        ensures
            res@ == Self::beta(),
    ;

    /// The point with these coordinates, if on the curve.
    fn from_coords(u: Self::F, v: Self::F) -> (res: Option<Self::Point>)
        ensures
            res is Some <==> points::on_curve(u@, v@, Self::beta()),
            res matches Some(p) ==> p@ == Pt::At(u@, v@),
    ;

    /// Affine coordinates, or `None` for the point at infinity.
    fn coords(p: &Self::Point) -> (res: Option<(Self::F, Self::F)>)
        ensures
            match p@ {
                Pt::Inf => res is None,
                Pt::At(x, y) => res matches Some(c) && c.0@ == x && c.1@ == y,
            },
    ;

    /// The point at infinity.
    fn zero() -> (res: Self::Point)
        ensures
            res@ == Pt::Inf,
    ;

    /// `2·p`.
    fn twice(p: &Self::Point) -> (res: Self::Point)
        ensures
            res@ == p@.plus(p@),
    ;
}

/// `E(F_p)`, the group `G_1`.
pub struct CurveG1;

impl Curve for CurveG1 {
    type F = Fq;

    type Point = G1;

    open spec fn beta() -> El {
        groups::beta1()
    }

    proof fn lemma_beta() {
    }

    fn b() -> (res: Fq) {
        b1()
    }

    fn from_coords(u: Fq, v: Fq) -> (res: Option<G1>) {
        g1_from_coords(u, v)
    }

    fn coords(p: &G1) -> (res: Option<(Fq, Fq)>) {
        g1_coords(p)
    }

    fn zero() -> (res: G1) {
        G1::zero()
    }

    fn twice(p: &G1) -> (res: G1) {
        p.add(p)
    }
}

/// The twist `E'(F_{p^2})`.
pub struct CurveTwist;

impl Curve for CurveTwist {
    type F = Fq2;

    type Point = Twist;

    open spec fn beta() -> El {
        groups::beta2()
    }

    proof fn lemma_beta() {
    }

    fn b() -> (res: Fq2) {
        b2()
    }

    fn from_coords(u: Fq2, v: Fq2) -> (res: Option<Twist>) {
        twist_from_coords(u, v)
    }

    fn coords(p: &Twist) -> (res: Option<(Fq2, Fq2)>) {
        twist_coords(p)
    }

    fn zero() -> (res: Twist) {
        Twist::zero()
    }

    fn twice(p: &Twist) -> (res: Twist) {
        p.add(p)
    }
}

// ------------------------------------------------------------------- shapes

/// The monomials of `X`: `v, u, u²`.
pub open spec fn x_monomials() -> Seq<Monomial> {
    seq![Monomial { du: 0, dv: 1 }, Monomial { du: 1, dv: 0 }, Monomial { du: 2, dv: 0 }]
}

/// The monomials of `Y`: `v², u², uv, v`.
pub open spec fn y_monomials() -> Seq<Monomial> {
    seq![
        Monomial { du: 0, dv: 2 },
        Monomial { du: 2, dv: 0 },
        Monomial { du: 1, dv: 1 },
        Monomial { du: 0, dv: 1 },
    ]
}

/// The monomials of `Z`: `u`.
pub open spec fn z_monomials() -> Seq<Monomial> {
    seq![Monomial { du: 1, dv: 0 }]
}

/// The labels that `X`, `Y` and `Z` cost.
pub proof fn lemma_shape_sums()
    ensures
        itpg::sum_u(x_monomials(), 3) == 3,
        itpg::sum_v(x_monomials(), 3) == 1,
        itpg::sum_u(y_monomials(), 4) == 3,
        itpg::sum_v(y_monomials(), 4) == 4,
        itpg::sum_u(z_monomials(), 1) == 1,
        itpg::sum_v(z_monomials(), 1) == 0,
{
    reveal_with_fuel(itpg::sum_u, 5);
    reveal_with_fuel(itpg::sum_v, 5);
}

/// The public monomial templates of `X`, `Y`, `Z`: `(7, 5)` occurrences, twelve
/// in total.
pub fn shapes() -> (res: [Shape; 3])
    ensures
        res@[0]@ == x_monomials(),
        res@[1]@ == y_monomials(),
        res@[2]@ == z_monomials(),
        res@[0]@ == seq![
            Monomial { du: 0, dv: 1 },
            Monomial { du: 1, dv: 0 },
            Monomial { du: 2, dv: 0 },
        ],
        res@[1]@ == seq![
            Monomial { du: 0, dv: 2 },
            Monomial { du: 2, dv: 0 },
            Monomial { du: 1, dv: 1 },
            Monomial { du: 0, dv: 1 },
        ],
        res@[2]@ == seq![Monomial { du: 1, dv: 0 }],
{
    let x = vec![Monomial::new(0, 1), Monomial::new(1, 0), Monomial::new(2, 0)];
    let y = vec![
        Monomial::new(0, 2),
        Monomial::new(2, 0),
        Monomial::new(1, 1),
        Monomial::new(0, 1),
    ];
    let z = vec![Monomial::new(1, 0)];
    assert(x@ =~= x_monomials());
    assert(y@ =~= y_monomials());
    assert(z@ =~= z_monomials());
    [Shape { monomials: x }, Shape { monomials: y }, Shape { monomials: z }]
}

/// Labels per entry on `u` and on `v`: `(7, 5)`.
pub fn occurrences() -> (res: (usize, usize))
    ensures
        res == (7usize, 5usize),
{
    let shapes = shapes();
    proof {
        lemma_shape_sums();
    }
    let (xu, xv) = shapes[0].occurrences();
    let (yu, yv) = shapes[1].occurrences();
    let (zu, zv) = shapes[2].occurrences();
    (xu + yu + zu, xv + yv + zv)
}

// -------------------------------------------------------------- polynomials

/// Whether a polynomial has the given coefficients and constant.
pub open spec fn poly_is<F: Field>(poly: Poly<F>, coeffs: Seq<El>, constant: El) -> bool {
    &&& poly.coeffs@.len() == coeffs.len()
    &&& forall|i: int| 0 <= i < coeffs.len() ==> (#[trigger] poly.coeffs@[i])@ == coeffs[i]
    &&& poly.constant@ == constant
}

/// `0, …, 0`.
pub open spec fn zeros(n: nat) -> Seq<El> {
    Seq::new(n, |i: int| El::num(0))
}

/// Whether these are the coordinate polynomials of one entry with coefficient
/// `c`, mask `key`, scaling `mu`, on the curve of constant `k`:
/// - for `c = 1` and a finite mask, the reduced addition law;
/// - for `c = 1` and the identity, `(u, v, 1)`;
/// - for `c = 0` and a finite mask, the mask;
/// - for `c = 0` and the identity, `(1, 1, 0)`;
///
/// each scaled by `(μ², μ³, μ)`.
pub open spec fn are_entry_polys<F: Field>(
    px: Poly<F>,
    py: Poly<F>,
    pz: Poly<F>,
    c: bool,
    key: Pt,
    mu: El,
    k: El,
) -> bool {
    let zero = El::num(0);
    let three = El::num(3);
    let mu2 = mu.times(mu);
    let mu3 = mu2.times(mu);
    match (c, key) {
        (true, Pt::At(a, b)) => {
            &&& poly_is(
                px,
                seq![b.plus(b).opp().times(mu2), a.times(a).times(mu2), a.times(mu2)],
                k.plus(k).times(mu2),
            )
            &&& poly_is(
                py,
                seq![
                    b.times(mu3),
                    three.times(a).times(b).times(mu3),
                    three.opp().times(a).times(a).times(mu3),
                    a.times(a).times(a).plus(El::num(4).times(k)).opp().times(mu3),
                ],
                three.times(k).times(b).times(mu3),
            )
            &&& poly_is(pz, seq![mu], a.opp().times(mu))
        },
        (true, Pt::Inf) => {
            &&& poly_is(px, seq![zero, mu2, zero], zero)
            &&& poly_is(py, seq![zero, zero, zero, mu3], zero)
            &&& poly_is(pz, zeros(1), mu)
        },
        (false, Pt::At(a, b)) => {
            &&& poly_is(px, zeros(3), a.times(mu2))
            &&& poly_is(py, zeros(4), b.times(mu3))
            &&& poly_is(pz, zeros(1), mu)
        },
        (false, Pt::Inf) => {
            &&& poly_is(px, zeros(3), mu2)
            &&& poly_is(py, zeros(4), mu3)
            &&& poly_is(pz, zeros(1), zero)
        },
    }
}

/// A mask from its coordinates.
pub open spec fn mask<F: Field>(key: Option<(F, F)>) -> Pt {
    match key {
        Some(k) => Pt::At(k.0@, k.1@),
        None => Pt::Inf,
    }
}

/// The three coordinate polynomials of one entry, already scaled by `(μ², μ³, μ)`.
///
/// `key` is the mask's affine coordinates, or `None` for the identity.
pub fn entry_polys<F: Field>(c: bool, key: Option<(F, F)>, mu: F, b: F) -> (res: [Poly<F>; 3])
    ensures
        are_entry_polys(res@[0], res@[1], res@[2], c, mask(key), mu@, b@),
{
    let mu2 = mu.mul(mu);
    let mu3 = mu.mul(mu).mul(mu);
    let z = F::from_u64(0);
    let three = F::from_u64(3);
    let four = F::from_u64(4);
    match (c, key) {
        // The addition law.
        (true, Some((a, bk))) => [
            Poly {
                coeffs: vec![bk.add(bk).neg().mul(mu2), a.mul(a).mul(mu2), a.mul(mu2)],
                constant: b.add(b).mul(mu2),
            },
            Poly {
                coeffs: vec![
                    bk.mul(mu3),
                    three.mul(a).mul(bk).mul(mu3),
                    three.neg().mul(a).mul(a).mul(mu3),
                    a.mul(a).mul(a).add(four.mul(b)).neg().mul(mu3),
                ],
                constant: three.mul(b).mul(bk).mul(mu3),
            },
            Poly { coeffs: vec![mu], constant: a.neg().mul(mu) },
        ],
        // An identity mask: the output is V itself, as (u, v, 1).
        (true, None) => [
            Poly { coeffs: vec![z, mu2, z], constant: z },
            Poly { coeffs: vec![z, z, z, mu3], constant: z },
            Poly { coeffs: vec![z], constant: mu },
        ],
        // c = 0: a constant representative of the mask.
        (false, Some((a, bk))) => [
            Poly { coeffs: vec![z, z, z], constant: a.mul(mu2) },
            Poly { coeffs: vec![z, z, z, z], constant: bk.mul(mu3) },
            Poly { coeffs: vec![z], constant: mu },
        ],
        // c = 0 on an identity mask: the Jacobian representative (1, 1, 0).
        (false, None) => [
            Poly { coeffs: vec![z, z, z], constant: mu2 },
            Poly { coeffs: vec![z, z, z, z], constant: mu3 },
            Poly { coeffs: vec![z], constant: z },
        ],
    }
}

// ----------------------------------------------------------------- decoding

/// What a reconstructed triple decodes to, for the input point `v`.
pub open spec fn decoded(x: El, y: El, z: El, v: Pt, k: El) -> Option<Pt> {
    let zero = El::num(0);
    if x == zero && y == zero && z == zero {
        Some(v.plus(v))
    } else if z != zero {
        let zi = inverse::inv(z);
        let z2 = zi.times(zi);
        let (px, py) = (x.times(z2), y.times(z2).times(zi));
        if points::on_curve(px, py, k) {
            Some(Pt::At(px, py))
        } else {
            None
        }
    } else if x != zero && y.times(y) == x.times(x).times(x) {
        Some(Pt::Inf)
    } else {
        None
    }
}

/// Decode one reconstructed triple. `v_point` is the evaluator's own input
/// point, which the doubling branch returns twice.
pub fn decode<C: Curve>(triple: [C::F; 3], v_point: &C::Point) -> (res: Option<C::Point>)
    ensures
        match decoded(triple@[0]@, triple@[1]@, triple@[2]@, v_point@, C::beta()) {
            Some(p) => res matches Some(q) && q@ == p,
            None => res is None,
        },
{
    let (x, y, z) = (triple[0], triple[1], triple[2]);
    if x.is_zero() && y.is_zero() && z.is_zero() {
        // V = K, so the answer is 2K = 2V.
        return Some(C::twice(v_point));
    }
    if !z.is_zero() {
        match z.inverse() {
            Some(zi) => {
                proof {
                    z.lemma_view();
                    zi.lemma_view();
                    inverse::lemma_inv_unique(z@, zi@);
                }
                let z2 = zi.mul(zi);
                return C::from_coords(x.mul(z2), y.mul(z2).mul(zi));
            },
            None => {
                return None;
            },
        }
    }
    // Z = 0 represents the identity, provided the triple is a genuine Jacobian
    // representative of it.

    if !x.is_zero() && y.mul(y).equals(&x.mul(x).mul(x)) {
        Some(C::zero())
    } else {
        None
    }
}

// ------------------------------------------------------------------- layout

/// The layout of one entry's three polynomials.
#[derive(Clone, Debug, PartialEq, Eq)]
pub struct EntryLayout {
    /// Layouts of `X`, `Y`, `Z`.
    pub polys: [Layout; 3],
}

impl EntryLayout {
    /// Whether the three polynomials are laid out one after the other, after
    /// `nu` labels on `u` and `nv` on `v`.
    pub open spec fn is_layout(self, nu: nat, nv: nat) -> bool {
        &&& self.polys@[0].is_layout(x_monomials(), nu, nv)
        &&& self.polys@[1].is_layout(y_monomials(), nu + 3, nv + 1)
        &&& self.polys@[2].is_layout(z_monomials(), nu + 6, nv + 5)
    }

    /// Whether each position is one of `nu` on `u` or `nv` on `v`.
    pub open spec fn fits(self, nu: nat, nv: nat) -> bool {
        self.polys@[0].fits(nu, nv) && self.polys@[1].fits(nu, nv) && self.polys@[2].fits(nu, nv)
    }
}

/// Whether the entries are laid out one after the other, after `nu` labels on `u`
/// and `nv` on `v`.
pub open spec fn entries_laid_out(lays: Seq<EntryLayout>, nu: nat, nv: nat) -> bool {
    forall|t: int|
        #![trigger lays[t]]
        0 <= t < lays.len() ==> lays[t].is_layout((nu + 7 * t) as nat, (nv + 5 * t) as nat)
}

/// Lay out `s` entries after the cursor.
pub fn layout_entries(s: usize, cur: &mut Cursor) -> (res: Vec<EntryLayout>)
    requires
        old(cur).u + 7 * s <= usize::MAX,
        old(cur).v + 5 * s <= usize::MAX,
    ensures
        res@.len() == s,
        entries_laid_out(res@, old(cur).u as nat, old(cur).v as nat),
        final(cur).u == old(cur).u + 7 * s,
        final(cur).v == old(cur).v + 5 * s,
{
    let ghost start = *cur;
    let shapes = shapes();
    let mut res: Vec<EntryLayout> = Vec::new();
    proof {
        lemma_shape_sums();
    }
    for t in 0..s
        invariant
            shapes@[0]@ == x_monomials(),
            shapes@[1]@ == y_monomials(),
            shapes@[2]@ == z_monomials(),
            start.u + 7 * s <= usize::MAX,
            start.v + 5 * s <= usize::MAX,
            itpg::sum_u(x_monomials(), 3) == 3,
            itpg::sum_v(x_monomials(), 3) == 1,
            itpg::sum_u(y_monomials(), 4) == 3,
            itpg::sum_v(y_monomials(), 4) == 4,
            itpg::sum_u(z_monomials(), 1) == 1,
            itpg::sum_v(z_monomials(), 1) == 0,
            res@.len() == t,
            cur.u == start.u + 7 * t,
            cur.v == start.v + 5 * t,
            entries_laid_out(res@, start.u as nat, start.v as nat),
    {
        let x = itpg::layout(&shapes[0], cur);
        let y = itpg::layout(&shapes[1], cur);
        let z = itpg::layout(&shapes[2], cur);
        let entry = EntryLayout { polys: [x, y, z] };
        assert(entry.is_layout((start.u + 7 * t) as nat, (start.v + 5 * t) as nat));
        let ghost before = res@;
        res.push(entry);
        assert forall|i: int| #![trigger res@[i]] 0 <= i < res@.len() implies res@[i].is_layout(
            (start.u + 7 * i) as nat,
            (start.v + 5 * i) as nat,
        ) by {
            if i < t {
                assert(res@[i] == before[i]);
            }
        }
    }
    res
}

// ----------------------------------------------------------------- garbling

/// Whether the labels at `lay` garble the entry `c·V + key` with scaling `mu`.
pub open spec fn garbles_entry_with<F: Field>(
    ek: CoordLabels<F>,
    lay: EntryLayout,
    c: bool,
    key: Pt,
    mu: El,
    k: El,
) -> bool {
    exists|px: Poly<F>, py: Poly<F>, pz: Poly<F>|
        #![trigger are_entry_polys(px, py, pz, c, key, mu, k)]
        {
            &&& are_entry_polys(px, py, pz, c, key, mu, k)
            &&& itpg::garbles(ek, lay.polys@[0], px)
            &&& itpg::garbles(ek, lay.polys@[1], py)
            &&& itpg::garbles(ek, lay.polys@[2], pz)
        }
}

/// Whether the labels at `lay` garble the entry `c·V + key`, with some scaling
/// that is not zero.
pub open spec fn garbles_entry<F: Field>(
    ek: CoordLabels<F>,
    lay: EntryLayout,
    c: bool,
    key: Pt,
    k: El,
) -> bool {
    exists|mu: El|
        mu.reduced() && mu != El::num(0) && #[trigger] garbles_entry_with(ek, lay, c, key, mu, k)
}

/// Whether the labels garble the entries `(c_t·V + K_t)_t`.
pub open spec fn garbles_entries<C: Curve>(
    ek: CoordLabels<C::F>,
    lays: Seq<EntryLayout>,
    coeffs: Seq<bool>,
    keys: Seq<C::Point>,
) -> bool {
    forall|t: int|
        #![trigger lays[t]]
        0 <= t < lays.len() ==> garbles_entry(ek, lays[t], coeffs[t], keys[t]@, C::beta())
}

/// No chain of an entry is empty.
proof fn lemma_entry_chains(lay: EntryLayout, nu: nat, nv: nat)
    requires
        lay.is_layout(nu, nv),
    ensures
        forall|i: int, j: int|
            #![trigger lay.polys@[i].chains@[j]]
            0 <= i < 3 && 0 <= j < lay.polys@[i].chains@.len()
                ==> lay.polys@[i].chains@[j]@.len() > 0,
{
    assert forall|i: int, j: int|
        #![trigger lay.polys@[i].chains@[j]]
        0 <= i < 3 && 0 <= j < lay.polys@[i].chains@.len() implies lay.polys@[i].chains@[j]@.len()
        > 0 by {
        let m = if i == 0 {
            x_monomials()
        } else if i == 1 {
            y_monomials()
        } else {
            z_monomials()
        };
        assert(i == 0 || i == 1 || i == 2);
        assert(lay.polys@[i].chains@.len() == m.len());
        assert(lay.polys@[i].chains@[j]@.len() == m[j].deg());
        assert(m[j].deg() > 0);
    }
}

/// Labels that are only added to keep garbling an entry.
pub proof fn lemma_extends_entry<F: Field>(
    old_ek: CoordLabels<F>,
    ek: CoordLabels<F>,
    lay: EntryLayout,
    nu: nat,
    nv: nat,
    c: bool,
    key: Pt,
    k: El,
)
    requires
        ek.extends(old_ek),
        lay.is_layout(nu, nv),
        garbles_entry(old_ek, lay, c, key, k),
    ensures
        garbles_entry(ek, lay, c, key, k),
{
    lemma_entry_chains(lay, nu, nv);
    let mu = choose|mu: El|
        mu.reduced() && mu != El::num(0) && #[trigger] garbles_entry_with(
            old_ek,
            lay,
            c,
            key,
            mu,
            k,
        );
    let (px, py, pz) = choose|px: Poly<F>, py: Poly<F>, pz: Poly<F>|
        #![trigger are_entry_polys(px, py, pz, c, key, mu, k)]
        {
            &&& are_entry_polys(px, py, pz, c, key, mu, k)
            &&& itpg::garbles(old_ek, lay.polys@[0], px)
            &&& itpg::garbles(old_ek, lay.polys@[1], py)
            &&& itpg::garbles(old_ek, lay.polys@[2], pz)
        };
    itpg::lemma_extends_garbles(old_ek, ek, lay.polys@[0], px);
    itpg::lemma_extends_garbles(old_ek, ek, lay.polys@[1], py);
    itpg::lemma_extends_garbles(old_ek, ek, lay.polys@[2], pz);
    assert(garbles_entry_with(ek, lay, c, key, mu, k));
}

/// Whether `x` is the first of the next draws that is not zero, or one after `u64::MAX`
/// zeros in a row.
pub open spec fn nonzero_drawn<F: Field>(before: StdRng, after: StdRng, x: F) -> bool {
    exists|tried: Seq<F>|
        {
            &&& #[trigger] draws::draws(before, after, tried)
            &&& tried.len() > 0
            &&& forall|i: int| 0 <= i < tried.len() - 1 ==> (#[trigger] tried[i])@ == El::num(0)
            &&& if tried.last()@ != El::num(0) {
                x == tried.last()
            } else {
                tried.len() == u64::MAX && x@ == El::num(1)
            }
        }
}

/// A random element that is not zero. (After `u64::MAX` zeros in a row it is one.)
pub fn rand_nonzero_elem<F: Field>(rng: &mut StdRng) -> (res: F)
    ensures
        res@ != El::num(0),
        nonzero_drawn(*old(rng), *final(rng), res),
        exists|tried: Seq<F>|
            {
                &&& #[trigger] draws::draws(*old(rng), *final(rng), tried)
                &&& tried.len() > 0
                &&& forall|i: int|
                    0 <= i < tried.len() - 1 ==> (#[trigger] tried[i])@ == El::num(0)
                &&& tried.last()@ != El::num(0) ==> res == tried.last()
                &&& tried.last()@ == El::num(0) ==> tried.len() == u64::MAX && res@ == El::num(1)
            },
{
    let ghost start = *rng;
    let mut tries: u64 = 0;
    let ghost mut tried: Seq<F> = Seq::empty();
    while tries < u64::MAX
        invariant
            start == *old(rng),
            tried.len() == tries,
            draws::draws(start, *rng, tried),
            forall|i: int| 0 <= i < tried.len() ==> (#[trigger] tried[i])@ == El::num(0),
        decreases u64::MAX - tries,
    {
        let ghost (before, zeros) = (*rng, tried);
        let mu = F::rand(rng);
        proof {
            draws::lemma_one_more(start, before, *rng, tried, mu);
            tried = tried.push(mu);
            assert(tried.last() == mu);
            assert forall|i: int| 0 <= i < tried.len() - 1 implies (#[trigger] tried[i])@
                == El::num(0) by {
                assert(tried[i] == zeros[i]);
            }
        }
        if !mu.is_zero() {
            assert(draws::draws(start, *rng, tried));
            return mu;
        }
        tries = tries + 1;
    }
    F::from_u64(1)
}

/// Whether the labels of an entry are those of the next draws, for a given scaling: its
/// three polynomials one after the other.
pub open spec fn entry_garbled_by<F: Field>(
    before: StdRng,
    after: StdRng,
    ek: CoordLabels<F>,
    lay: EntryLayout,
    c: bool,
    key: Pt,
    mu: El,
    k: El,
) -> bool {
    exists|px: Poly<F>, py: Poly<F>, pz: Poly<F>, one: StdRng, two: StdRng|
        {
            &&& #[trigger] are_entry_polys(px, py, pz, c, key, mu, k)
            &&& #[trigger] itpg::garbled_by(before, one, ek, lay.polys@[0], px, x_monomials())
            &&& #[trigger] itpg::garbled_by(one, two, ek, lay.polys@[1], py, y_monomials())
            &&& itpg::garbled_by(two, after, ek, lay.polys@[2], pz, z_monomials())
        }
}

/// Whether the labels of the first `n` entries are those of the next draws: for each entry
/// its scaling, and then its polynomials.
#[verifier::opaque]
pub open spec fn entries_garbled_by<C: Curve>(
    before: StdRng,
    after: StdRng,
    ek: CoordLabels<C::F>,
    lays: Seq<EntryLayout>,
    coeffs: Seq<bool>,
    keys: Seq<C::Point>,
    n: int,
) -> bool
    decreases n,
{
    if n <= 0 {
        before == after
    } else {
        exists|one: StdRng, two: StdRng, mu: C::F|
            {
                &&& entries_garbled_by::<C>(before, one, ek, lays, coeffs, keys, n - 1)
                &&& #[trigger] nonzero_drawn(one, two, mu)
                &&& entry_garbled_by(
                    two,
                    after,
                    ek,
                    lays[n - 1],
                    coeffs[n - 1],
                    keys[n - 1]@,
                    mu@,
                    C::beta(),
                )
            }
    }
}

/// Labels that are only added keep those of the draws, for an entry.
proof fn lemma_extends_entry_garbled_by<F: Field>(
    old_ek: CoordLabels<F>,
    ek: CoordLabels<F>,
    before: StdRng,
    after: StdRng,
    lay: EntryLayout,
    c: bool,
    key: Pt,
    mu: El,
    k: El,
)
    requires
        ek.extends(old_ek),
        entry_garbled_by(before, after, old_ek, lay, c, key, mu, k),
    ensures
        entry_garbled_by(before, after, ek, lay, c, key, mu, k),
{
    let (px, py, pz, one, two) = choose|
        px: Poly<F>,
        py: Poly<F>,
        pz: Poly<F>,
        one: StdRng,
        two: StdRng,
    |
        {
            &&& #[trigger] are_entry_polys(px, py, pz, c, key, mu, k)
            &&& #[trigger] itpg::garbled_by(before, one, old_ek, lay.polys@[0], px, x_monomials())
            &&& #[trigger] itpg::garbled_by(one, two, old_ek, lay.polys@[1], py, y_monomials())
            &&& itpg::garbled_by(two, after, old_ek, lay.polys@[2], pz, z_monomials())
        };
    itpg::lemma_extends_garbled_by(old_ek, ek, before, one, lay.polys@[0], px, x_monomials());
    itpg::lemma_extends_garbled_by(old_ek, ek, one, two, lay.polys@[1], py, y_monomials());
    itpg::lemma_extends_garbled_by(old_ek, ek, two, after, lay.polys@[2], pz, z_monomials());
}

/// Labels that are only added keep those of the draws, for entries.
pub proof fn lemma_extends_entries_garbled_by<C: Curve>(
    old_ek: CoordLabels<C::F>,
    ek: CoordLabels<C::F>,
    before: StdRng,
    after: StdRng,
    lays: Seq<EntryLayout>,
    coeffs: Seq<bool>,
    keys: Seq<C::Point>,
    n: int,
)
    requires
        ek.extends(old_ek),
        entries_garbled_by::<C>(before, after, old_ek, lays, coeffs, keys, n),
    ensures
        entries_garbled_by::<C>(before, after, ek, lays, coeffs, keys, n),
    decreases n,
{
    reveal(entries_garbled_by);
    if n > 0 {
        let (one, two, mu) = choose|one: StdRng, two: StdRng, mu: C::F|
            {
                &&& entries_garbled_by::<C>(before, one, old_ek, lays, coeffs, keys, n - 1)
                &&& #[trigger] nonzero_drawn(one, two, mu)
                &&& entry_garbled_by(
                    two,
                    after,
                    old_ek,
                    lays[n - 1],
                    coeffs[n - 1],
                    keys[n - 1]@,
                    mu@,
                    C::beta(),
                )
            };
        lemma_extends_entries_garbled_by::<C>(
            old_ek,
            ek,
            before,
            one,
            lays,
            coeffs,
            keys,
            n - 1,
        );
        lemma_extends_entry_garbled_by(
            old_ek,
            ek,
            two,
            after,
            lays[n - 1],
            coeffs[n - 1],
            keys[n - 1]@,
            mu@,
            C::beta(),
        );
    }
}

/// Garble one entry with its scaling given, appending labels to `ek` in layout
/// order.
pub fn garble_entry<C: Curve>(
    rng: &mut StdRng,
    c: bool,
    key: &C::Point,
    mu: C::F,
    lay: &EntryLayout,
    ek: &mut CoordLabels<C::F>,
)
    requires
        lay.is_layout(old(ek).u@.len(), old(ek).v@.len()),
    ensures
        final(ek).extends(*old(ek)),
        final(ek).u@.len() == old(ek).u@.len() + 7,
        final(ek).v@.len() == old(ek).v@.len() + 5,
        garbles_entry_with(*final(ek), *lay, c, key@, mu@, C::beta()),
        entry_garbled_by(*old(rng), *final(rng), *final(ek), *lay, c, key@, mu@, C::beta()),
{
    let ghost start = *ek;
    let shapes = shapes();
    let polys = entry_polys(c, C::coords(key), mu, C::b());
    proof {
        lemma_shape_sums();
        lemma_entry_chains(*lay, start.u@.len(), start.v@.len());
        let (nu, nv) = (start.u@.len(), start.v@.len());
        itpg::lemma_layout_in_order(lay.polys@[0], x_monomials(), nu, nv);
        itpg::lemma_layout_in_order(lay.polys@[1], y_monomials(), nu + 3, nv + 1);
        itpg::lemma_layout_in_order(lay.polys@[2], z_monomials(), nu + 6, nv + 5);
    }
    let ghost (px, py, pz) = (polys@[0], polys@[1], polys@[2]);
    assert(px.coeffs@.len() == 3 && py.coeffs@.len() == 4 && pz.coeffs@.len() == 1);
    let ghost g0 = *rng;
    itpg::garble(rng, &polys[0], &shapes[0], &lay.polys[0], ek);
    let ghost (one, g1) = (*ek, *rng);
    assert(itpg::garbles(one, lay.polys@[0], px));
    itpg::garble(rng, &polys[1], &shapes[1], &lay.polys[1], ek);
    let ghost (two, g2) = (*ek, *rng);
    assert(itpg::garbles(two, lay.polys@[1], py));
    itpg::garble(rng, &polys[2], &shapes[2], &lay.polys[2], ek);
    proof {
        assert(ek.extends(one));
        itpg::lemma_extends_garbles(one, *ek, lay.polys@[0], px);
        itpg::lemma_extends_garbles(two, *ek, lay.polys@[1], py);
        assert(are_entry_polys(px, py, pz, c, key@, mu@, C::beta()));
        itpg::lemma_extends_garbled_by(one, *ek, g0, g1, lay.polys@[0], px, x_monomials());
        itpg::lemma_extends_garbled_by(two, *ek, g1, g2, lay.polys@[1], py, y_monomials());
    }
}

/// Garble the entries `(c_t·V + K_t)_t`, appending labels to `ek` in layout order.
pub fn garble_entries<C: Curve>(
    rng: &mut StdRng,
    coeffs: &[bool],
    keys: &[C::Point],
    lays: &[EntryLayout],
    ek: &mut CoordLabels<C::F>,
)
    requires
        coeffs@.len() == keys@.len(),
        coeffs@.len() == lays@.len(),
        entries_laid_out(lays@, old(ek).u@.len(), old(ek).v@.len()),
    ensures
        final(ek).extends(*old(ek)),
        final(ek).u@.len() == old(ek).u@.len() + 7 * lays@.len(),
        final(ek).v@.len() == old(ek).v@.len() + 5 * lays@.len(),
        garbles_entries::<C>(*final(ek), lays@, coeffs@, keys@),
        entries_garbled_by::<C>(
            *old(rng),
            *final(rng),
            *final(ek),
            lays@,
            coeffs@,
            keys@,
            lays@.len() as int,
        ),
{
    let ghost (start, g0) = (*ek, *rng);
    proof {
        reveal(entries_garbled_by);
    }
    for t in 0..coeffs.len()
        invariant
            coeffs@.len() == keys@.len(),
            coeffs@.len() == lays@.len(),
            entries_laid_out(lays@, start.u@.len(), start.v@.len()),
            ek.extends(start),
            ek.u@.len() == start.u@.len() + 7 * t,
            ek.v@.len() == start.v@.len() + 5 * t,
            entries_garbled_by::<C>(g0, *rng, *ek, lays@, coeffs@, keys@, t as int),
            forall|i: int|
                #![trigger lays@[i]]
                0 <= i < t ==> garbles_entry(*ek, lays@[i], coeffs@[i], keys@[i]@, C::beta()),
    {
        let ghost (before, g1) = (*ek, *rng);
        let mu: C::F = rand_nonzero_elem(rng);
        let ghost g2 = *rng;
        assert(lays@[t as int].is_layout(ek.u@.len(), ek.v@.len()));
        garble_entry::<C>(rng, coeffs[t], &keys[t], mu, &lays[t], ek);
        proof {
            mu.lemma_view();
            assert(ek.extends(start));
            lemma_extends_entries_garbled_by::<C>(
                before,
                *ek,
                g0,
                g1,
                lays@,
                coeffs@,
                keys@,
                t as int,
            );
            reveal(entries_garbled_by);
            assert(nonzero_drawn(g1, g2, mu));
            assert(entries_garbled_by::<C>(g0, *rng, *ek, lays@, coeffs@, keys@, t + 1));
            assert forall|i: int| #![trigger lays@[i]] 0 <= i <= t implies garbles_entry(
                *ek,
                lays@[i],
                coeffs@[i],
                keys@[i]@,
                C::beta(),
            ) by {
                if i < t {
                    lemma_extends_entry(
                        before,
                        *ek,
                        lays@[i],
                        (start.u@.len() + 7 * i) as nat,
                        (start.v@.len() + 5 * i) as nat,
                        coeffs@[i],
                        keys@[i]@,
                        C::beta(),
                    );
                }
            }
        }
    }
}

// --------------------------------------------------------------- evaluation

/// What one entry evaluates to.
pub open spec fn entry_value<F: Field>(
    lay: EntryLayout,
    vals: CoordValues<F>,
    u: El,
    v: El,
    k: El,
) -> Option<Pt> {
    decoded(
        itpg::garbled_value(lay.polys@[0], vals, u, v),
        itpg::garbled_value(lay.polys@[1], vals, u, v),
        itpg::garbled_value(lay.polys@[2], vals, u, v),
        Pt::At(u, v),
        k,
    )
}

/// Whether the coordinates are on the curve and every entry decodes.
pub open spec fn entries_decode<C: Curve>(
    lays: Seq<EntryLayout>,
    vals: CoordValues<C::F>,
    u: El,
    v: El,
) -> bool {
    &&& points::on_curve(u, v, C::beta())
    &&& forall|t: int|
        #![trigger lays[t]]
        0 <= t < lays.len() ==> entry_value(lays[t], vals, u, v, C::beta()) is Some
}

/// Evaluate the entries from the label values and the public coordinates.
pub fn eval_entries<C: Curve>(
    lays: &[EntryLayout],
    vals: &CoordValues<C::F>,
    u: C::F,
    v: C::F,
) -> (res: Option<Vec<C::Point>>)
    requires
        forall|t: int|
            #![trigger lays@[t]]
            0 <= t < lays@.len() ==> lays@[t].fits(vals.u@.len(), vals.v@.len()),
    ensures
        res is Some <==> entries_decode::<C>(lays@, *vals, u@, v@),
        res is Some <==> points::on_curve(u@, v@, C::beta()) && forall|t: int|
            #![trigger lays@[t]]
            0 <= t < lays@.len() ==> decoded(
                itpg::garbled_value(lays@[t].polys@[0], *vals, u@, v@),
                itpg::garbled_value(lays@[t].polys@[1], *vals, u@, v@),
                itpg::garbled_value(lays@[t].polys@[2], *vals, u@, v@),
                Pt::At(u@, v@),
                C::beta(),
            ) is Some,
        res matches Some(pts) ==> pts@.len() == lays@.len() && forall|t: int|
            #![trigger pts@[t]]
            0 <= t < lays@.len() ==> entry_value(lays@[t], *vals, u@, v@, C::beta()) == Some(
                pts@[t]@,
            ),
{
    let v_point = match C::from_coords(u, v) {
        Some(p) => p,
        None => {
            return None;
        },
    };
    let mut pts: Vec<C::Point> = Vec::new();
    for t in 0..lays.len()
        invariant
            points::on_curve(u@, v@, C::beta()),
            v_point@ == Pt::At(u@, v@),
            forall|t: int|
                #![trigger lays@[t]]
                0 <= t < lays@.len() ==> lays@[t].fits(vals.u@.len(), vals.v@.len()),
            pts@.len() == t,
            forall|i: int|
                #![trigger pts@[i]]
                #![trigger lays@[i]]
                0 <= i < t ==> entry_value(lays@[i], *vals, u@, v@, C::beta()) == Some(pts@[i]@),
    {
        let lay = &lays[t];
        assert(lays@[t as int].fits(vals.u@.len(), vals.v@.len()));
        let triple = [
            itpg::eval(&lay.polys[0], vals, u, v),
            itpg::eval(&lay.polys[1], vals, u, v),
            itpg::eval(&lay.polys[2], vals, u, v),
        ];
        match decode::<C>(triple, &v_point) {
            Some(p) => {
                pts.push(p);
            },
            None => {
                assert(entry_value(lays@[t as int], *vals, u@, v@, C::beta()) is None);
                return None;
            },
        }
    }
    Some(pts)
}

// --------------------------------------------------------------------- laws

/// The terms of degree one and two, spelt out.
proof fn lemma_terms(c: El, u: El, v: El)
    requires
        c.reduced(),
        u.reduced(),
        v.reduced(),
    ensures
        itpg::term(c, Monomial { du: 0, dv: 1 }, u, v) == c.times(v),
        itpg::term(c, Monomial { du: 1, dv: 0 }, u, v) == c.times(u),
        itpg::term(c, Monomial { du: 2, dv: 0 }, u, v) == c.times(u).times(u),
        itpg::term(c, Monomial { du: 0, dv: 2 }, u, v) == c.times(v).times(v),
        itpg::term(c, Monomial { du: 1, dv: 1 }, u, v) == c.times(u).times(v),
{
    reveal_with_fuel(El::power, 3);
    ring::lemma_times_one(c);
    ring::lemma_times_one(u);
    ring::lemma_times_one(v);
    ring::lemma_reduced(c, u);
    ring::lemma_reduced(c, u.times(u));
    ring::lemma_times_one(c.times(u));
    ring::lemma_times_one(c.times(u.times(u)));
    ring::lemma_times_assoc(c, u, u);
    ring::lemma_times_assoc(c, v, v);
}

/// The value of a polynomial of the shape of `X`.
proof fn lemma_x_value<F: Field>(
    poly: Poly<F>,
    c1: El,
    c2: El,
    c3: El,
    k: El,
    u: El,
    v: El,
)
    requires
        poly_is(poly, seq![c1, c2, c3], k),
        u.reduced(),
        v.reduced(),
    ensures
        itpg::poly_value(poly, x_monomials(), u, v) == k.plus(c1.times(v)).plus(
            c2.times(u),
        ).plus(c3.times(u).times(u)),
{
    poly.coeffs@[0].lemma_view();
    poly.coeffs@[1].lemma_view();
    poly.coeffs@[2].lemma_view();
    assert(poly.coeffs@[0]@ == c1 && poly.coeffs@[1]@ == c2 && poly.coeffs@[2]@ == c3);
    lemma_terms(c1, u, v);
    lemma_terms(c2, u, v);
    lemma_terms(c3, u, v);
    reveal_with_fuel(itpg::poly_sum, 4);
}

/// The value of a polynomial of the shape of `Y`.
proof fn lemma_y_value<F: Field>(
    poly: Poly<F>,
    c1: El,
    c2: El,
    c3: El,
    c4: El,
    k: El,
    u: El,
    v: El,
)
    requires
        poly_is(poly, seq![c1, c2, c3, c4], k),
        u.reduced(),
        v.reduced(),
    ensures
        itpg::poly_value(poly, y_monomials(), u, v) == k.plus(c1.times(v).times(v)).plus(
            c2.times(u).times(u),
        ).plus(c3.times(u).times(v)).plus(c4.times(v)),
{
    poly.coeffs@[0].lemma_view();
    poly.coeffs@[1].lemma_view();
    poly.coeffs@[2].lemma_view();
    poly.coeffs@[3].lemma_view();
    assert(poly.coeffs@[0]@ == c1 && poly.coeffs@[1]@ == c2 && poly.coeffs@[2]@ == c3
        && poly.coeffs@[3]@ == c4);
    lemma_terms(c1, u, v);
    lemma_terms(c2, u, v);
    lemma_terms(c3, u, v);
    lemma_terms(c4, u, v);
    reveal_with_fuel(itpg::poly_sum, 5);
}

/// The value of a polynomial of the shape of `Z`.
proof fn lemma_z_value<F: Field>(poly: Poly<F>, c1: El, k: El, u: El, v: El)
    requires
        poly_is(poly, seq![c1], k),
        u.reduced(),
        v.reduced(),
    ensures
        itpg::poly_value(poly, z_monomials(), u, v) == k.plus(c1.times(u)),
{
    poly.coeffs@[0].lemma_view();
    assert(poly.coeffs@[0]@ == c1);
    lemma_terms(c1, u, v);
    reveal_with_fuel(itpg::poly_sum, 2);
}

/// Zero coefficients add nothing.
proof fn lemma_constant(k: El, u: El, v: El)
    requires
        k.reduced(),
        u.reduced(),
        v.reduced(),
    ensures
        ({
            let zero = El::num(0);
            &&& zero.times(u) == zero
            &&& zero.times(v) == zero
            &&& k.plus(zero) == k
        }),
{
    ring::lemma_times_zero(u);
    ring::lemma_times_zero(v);
    ring::lemma_plus_zero(k);
}

/// The addition branch of `X`: `μ²·X`.
proof fn lemma_scaled_x(u: El, v: El, a: El, b: El, k: El, m: El)
    requires
        u.reduced(),
        v.reduced(),
        a.reduced(),
        b.reduced(),
        k.reduced(),
        m.reduced(),
    ensures
        k.plus(k).times(m).plus(b.plus(b).opp().times(m).times(v)).plus(
            a.times(a).times(m).times(u),
        ).plus(a.times(m).times(u).times(u)) == m.times(points::sum_x(u, v, a, b, k)),
{
    let bb = b.plus(b);
    // the products, regrouped
    ring::lemma_times_comm(k.plus(k), m);
    ring::lemma_times_opp(m, bb);
    ring::lemma_times_comm(m, bb);
    ring::lemma_times_opp(v, m.times(bb));
    ring::lemma_times_comm(v, m.times(bb));
    ring::lemma_times_assoc(m, bb, v);
    ring::lemma_times_comm(a.times(a), m);
    ring::lemma_times_assoc(m, a.times(a), u);
    ring::lemma_times_comm(a, m);
    ring::lemma_times_assoc(m, a, u);
    ring::lemma_times_assoc(m, a.times(u), u);
    let (t1, t2, t3, t4) = (k.plus(k), bb.times(v), a.times(a).times(u), a.times(u).times(u));
    ring::lemma_minus_opp(m.times(t1), m.times(t2));
    ring::lemma_times_minus(m, t1, t2);
    ring::lemma_times_plus(m, t1.minus(t2), t3);
    ring::lemma_times_plus(m, t1.minus(t2).plus(t3), t4);
}

/// The addition branch of `Y`: `μ³·Y`.
proof fn lemma_scaled_y(u: El, v: El, a: El, b: El, k: El, m: El)
    requires
        u.reduced(),
        v.reduced(),
        a.reduced(),
        b.reduced(),
        k.reduced(),
        m.reduced(),
    ensures
        ({
            let three = El::num(3);
            let w = a.times(a).times(a).plus(El::num(4).times(k));
            three.times(k).times(b).times(m).plus(b.times(m).times(v).times(v)).plus(
                three.times(a).times(b).times(m).times(u).times(u),
            ).plus(three.opp().times(a).times(a).times(m).times(u).times(v)).plus(
                w.opp().times(m).times(v),
            ) == m.times(points::sum_y(u, v, a, b, k))
        }),
{
    let three = El::num(3);
    let w = a.times(a).times(a).plus(El::num(4).times(k));
    let (y1, y2, y3, y4, y5) = (
        b.times(v).times(v),
        three.times(a).times(b).times(u).times(u),
        three.times(a).times(a).times(u).times(v),
        w.times(v),
        three.times(b).times(k),
    );
    let (m1, m2, m3, m4, m5) = (
        m.times(y1),
        m.times(y2),
        m.times(y3),
        m.times(y4),
        m.times(y5),
    );
    ring::lemma_reduced(a.times(a).times(a), El::num(4).times(k));
    let env = seq![three, a, b, u, v, m, k, w];
    let (f0, f1, f2, f3, f4, f5, f6, f7) = (
        linear::f(0),
        linear::f(1),
        linear::f(2),
        linear::f(3),
        linear::f(4),
        linear::f(5),
        linear::f(6),
        linear::f(7),
    );
    assert(b.times(m).times(v).times(v) == m1) by {
        reveal_with_fuel(linear::Prod::val, 6);
        reveal_with_fuel(linear::Prod::count, 6);
        reveal_with_fuel(linear::Prod::within, 6);
        reveal_with_fuel(linear::same_powers, 9);
        linear::lemma_prods(f2.m(f5).m(f4).m(f4), f5.m(f2.m(f4).m(f4)), env);
    }
    assert(three.times(a).times(b).times(m).times(u).times(u) == m2) by {
        reveal_with_fuel(linear::Prod::val, 7);
        reveal_with_fuel(linear::Prod::count, 7);
        reveal_with_fuel(linear::Prod::within, 7);
        reveal_with_fuel(linear::same_powers, 9);
        linear::lemma_prods(
            f0.m(f1).m(f2).m(f5).m(f3).m(f3),
            f5.m(f0.m(f1).m(f2).m(f3).m(f3)),
            env,
        );
    }
    assert(three.opp().times(a).times(a).times(m).times(u).times(v) == m3.opp()) by {
        ring::lemma_times_opp(a, three);
        ring::lemma_times_comm(a, three);
        ring::lemma_times_opp(a, three.times(a));
        ring::lemma_times_comm(a, three.times(a));
        ring::lemma_times_opp(m, three.times(a).times(a));
        ring::lemma_times_comm(m, three.times(a).times(a));
        let t = three.times(a).times(a).times(m);
        ring::lemma_times_opp(u, t);
        ring::lemma_times_comm(u, t);
        ring::lemma_times_opp(v, t.times(u));
        ring::lemma_times_comm(v, t.times(u));
        reveal_with_fuel(linear::Prod::val, 7);
        reveal_with_fuel(linear::Prod::count, 7);
        reveal_with_fuel(linear::Prod::within, 7);
        reveal_with_fuel(linear::same_powers, 9);
        linear::lemma_prods(
            f0.m(f1).m(f1).m(f5).m(f3).m(f4),
            f5.m(f0.m(f1).m(f1).m(f3).m(f4)),
            env,
        );
    }
    assert(w.opp().times(m).times(v) == m4.opp()) by {
        ring::lemma_times_opp(m, w);
        ring::lemma_times_opp(v, m.times(w));
        ring::lemma_times_comm(v, m.times(w));
        ring::lemma_times_assoc(m, w, v);
    }
    assert(three.times(k).times(b).times(m) == m5) by {
        reveal_with_fuel(linear::Prod::val, 6);
        reveal_with_fuel(linear::Prod::count, 6);
        reveal_with_fuel(linear::Prod::within, 6);
        reveal_with_fuel(linear::same_powers, 9);
        linear::lemma_prods(f0.m(f6).m(f2).m(f5), f5.m(f0.m(f2).m(f6)), env);
    }
    ring::lemma_times_plus(m, y1.plus(y2).minus(y3).minus(y4), y5);
    ring::lemma_times_minus(m, y1.plus(y2).minus(y3), y4);
    ring::lemma_times_minus(m, y1.plus(y2), y3);
    ring::lemma_times_plus(m, y1, y2);
    ring::lemma_minus_opp(m5.plus(m1).plus(m2), m3);
    ring::lemma_minus_opp(m5.plus(m1).plus(m2).minus(m3), m4);
    ring::lemma_reduced(m, y1);
    ring::lemma_reduced(m, y2);
    ring::lemma_reduced(m, y3);
    ring::lemma_reduced(m, y4);
    ring::lemma_reduced(m, y5);
    let sums = seq![m1, m2, m3, m4, m5];
    let (e0, e1, e2, e3, e4) = (
        linear::e(0),
        linear::e(1),
        linear::e(2),
        linear::e(3),
        linear::e(4),
    );
    assert(m5.plus(m1).plus(m2).minus(m3).minus(m4) == m1.plus(m2).minus(m3).minus(m4).plus(m5))
        by {
        reveal_with_fuel(linear::Sum::val, 6);
        reveal_with_fuel(linear::Sum::count, 6);
        reveal_with_fuel(linear::Sum::within, 6);
        reveal_with_fuel(linear::same_counts, 6);
        linear::lemma_sums(
            e4.a(e0).a(e1).s(e2).s(e3),
            e0.a(e1).s(e2).s(e3).a(e4),
            sums,
        );
    }
}

/// The addition branch of `Z`: `μ·Z`.
proof fn lemma_scaled_z(u: El, a: El, m: El)
    ensures
        a.opp().times(m).plus(m.times(u)) == m.times(u.minus(a)),
{
    ring::lemma_times_opp(m, a);
    ring::lemma_plus_comm(m.times(a).opp(), m.times(u));
    ring::lemma_minus_opp(m.times(u), m.times(a));
    ring::lemma_times_minus(m, u, a);
}

/// A triple `(μ²·X, μ³·Y, μ·Z)` with an inverse `q` of `Z` decodes to
/// `(X·q², Y·q³)`, if that is on the curve.
proof fn lemma_decode_scaled(x: El, y: El, z: El, mu: El, q: El, v: Pt, k: El)
    requires
        x.reduced(),
        y.reduced(),
        z.reduced(),
        mu.reduced(),
        mu != El::num(0),
        inverse::is_inverse(z, q),
        points::on_curve(x.times(q.times(q)), y.times(q.times(q).times(q)), k),
    ensures
        decoded(
            mu.times(mu).times(x),
            mu.times(mu).times(mu).times(y),
            mu.times(z),
            v,
            k,
        ) == Some(Pt::At(x.times(q.times(q)), y.times(q.times(q).times(q)))),
{
    let zero = El::num(0);
    let zs = mu.times(z);
    ring::lemma_reduced(mu, z);
    inverse::lemma_inv_unique(z, q);
    inverse::lemma_no_zero_divisors(mu, z);
    inverse::lemma_inv(zs);
    inverse::lemma_inv(mu);
    let w = inverse::inv(zs);
    // q = μ·w
    ring::lemma_times_assoc(z, mu, w);
    ring::lemma_times_comm(z, mu);
    ring::lemma_reduced(mu, w);
    assert(inverse::is_inverse(z, mu.times(w)));
    inverse::lemma_inv_unique(z, mu.times(w));
    assert(q == mu.times(w));
    let env = seq![mu, w, x, y];
    let (f0, f1, f2, f3) = (linear::f(0), linear::f(1), linear::f(2), linear::f(3));
    let fq = f0.m(f1);
    assert(mu.times(mu).times(x).times(w.times(w)) == x.times(q.times(q))) by {
        reveal_with_fuel(linear::Prod::val, 6);
        reveal_with_fuel(linear::Prod::count, 6);
        reveal_with_fuel(linear::Prod::within, 6);
        reveal_with_fuel(linear::same_powers, 5);
        linear::lemma_prods(f0.m(f0).m(f2).m(f1.m(f1)), f2.m(fq.m(fq)), env);
    }
    assert(mu.times(mu).times(mu).times(y).times(w.times(w)).times(w) == y.times(
        q.times(q).times(q),
    )) by {
        reveal_with_fuel(linear::Prod::val, 7);
        reveal_with_fuel(linear::Prod::count, 7);
        reveal_with_fuel(linear::Prod::within, 7);
        reveal_with_fuel(linear::same_powers, 5);
        linear::lemma_prods(
            f0.m(f0).m(f0).m(f3).m(f1.m(f1)).m(f1),
            f3.m(fq.m(fq).m(fq)),
            env,
        );
    }
}

/// A triple `(μ²·x, μ³·y, μ)` decodes to the curve point `(x, y)`.
proof fn lemma_decode_affine(x: El, y: El, mu: El, v: Pt, k: El)
    requires
        x.reduced(),
        y.reduced(),
        mu.reduced(),
        mu != El::num(0),
        points::on_curve(x, y, k),
    ensures
        decoded(x.times(mu.times(mu)), y.times(mu.times(mu).times(mu)), mu, v, k) == Some(
            Pt::At(x, y),
        ),
{
    let one = El::num(1);
    assert(one.reduced());
    ring::lemma_times_one(one);
    ring::lemma_times_one(x);
    ring::lemma_times_one(y);
    ring::lemma_times_one(mu);
    ring::lemma_times_comm(x, mu.times(mu));
    ring::lemma_times_comm(y, mu.times(mu).times(mu));
    assert(inverse::is_inverse(one, one));
    lemma_decode_scaled(x, y, one, mu, one, v, k);
}

/// The opposite branch: `(μ²·4b², μ³·8b³, 0)` decodes to the point at infinity.
proof fn lemma_decode_opposite(b: El, mu: El, v: Pt, k: El)
    requires
        b.reduced(),
        mu.reduced(),
        b != El::num(0),
        mu != El::num(0),
    ensures
        decoded(
            mu.times(mu).times(El::num(4).times(b.times(b))),
            mu.times(mu).times(mu).times(El::num(8).times(b.times(b.times(b)))),
            El::num(0),
            v,
            k,
        ) == Some(Pt::Inf),
{
    let (four, eight) = (El::num(4), El::num(8));
    let bb = b.times(b);
    let x = mu.times(mu).times(four.times(bb));
    let y = mu.times(mu).times(mu).times(eight.times(b.times(bb)));
    assert(four.reduced() && eight.reduced() && four != El::num(0));
    ring::lemma_reduced(b, b);
    ring::lemma_reduced(mu, mu);
    ring::lemma_reduced(four, bb);
    inverse::lemma_no_zero_divisors(b, b);
    inverse::lemma_no_zero_divisors(mu, mu);
    inverse::lemma_no_zero_divisors(four, bb);
    inverse::lemma_no_zero_divisors(mu.times(mu), four.times(bb));
    let env = seq![mu, b, four, eight];
    let (f0, f1, f2, f3) = (linear::f(0), linear::f(1), linear::f(2), linear::f(3));
    let fx = f0.m(f0).m(f2.m(f1.m(f1)));
    let fy = f0.m(f0).m(f0).m(f3.m(f1.m(f1.m(f1))));
    let rest = f0.m(f0).m(f0).m(f0).m(f0).m(f0).m(f1).m(f1).m(f1).m(f1).m(f1).m(f1);
    let w = rest.val(env);
    assert(y.times(y) == eight.times(eight).times(w)) by {
        reveal_with_fuel(linear::Prod::count, 14);
        reveal_with_fuel(linear::Prod::within, 14);
        reveal_with_fuel(linear::same_powers, 5);
        linear::lemma_prods(fy.m(fy), f3.m(f3).m(rest), env);
        reveal_with_fuel(linear::Prod::val, 7);
    }
    assert(x.times(x).times(x) == four.times(four).times(four).times(w)) by {
        reveal_with_fuel(linear::Prod::count, 14);
        reveal_with_fuel(linear::Prod::within, 14);
        reveal_with_fuel(linear::same_powers, 5);
        linear::lemma_prods(fx.m(fx).m(fx), f2.m(f2).m(f2).m(rest), env);
        reveal_with_fuel(linear::Prod::val, 7);
    }
    ring::lemma_num_ops(8, 8);
    ring::lemma_num_ops(4, 4);
    ring::lemma_num_ops(16, 4);
}

/// The addition branch decodes to `V + K` on every mask.
proof fn lemma_decode_sum(u: El, v: El, a: El, b: El, k: El, mu: El)
    requires
        u.reduced(),
        v.reduced(),
        a.reduced(),
        b.reduced(),
        k.reduced(),
        mu.reduced(),
        mu != El::num(0),
        points::on_curve(u, v, k),
        points::on_curve(a, b, k),
    ensures
        decoded(
            mu.times(mu).times(points::sum_x(u, v, a, b, k)),
            mu.times(mu).times(mu).times(points::sum_y(u, v, a, b, k)),
            mu.times(u.minus(a)),
            Pt::At(u, v),
            k,
        ) == Some(Pt::At(u, v).plus(Pt::At(a, b))),
{
    let zero = El::num(0);
    let (x, y) = (points::sum_x(u, v, a, b, k), points::sum_y(u, v, a, b, k));
    let z = u.minus(a);
    ring::lemma_reduced(u, a);
    ring::lemma_minus_zero(u, a);
    ring::lemma_times_zero(mu.times(mu));
    ring::lemma_times_zero(mu.times(mu).times(mu));
    ring::lemma_times_zero(mu);
    if u != a {
        inverse::lemma_inv(z);
        let q = inverse::inv(z);
        points::lemma_chord_sum(u, v, a, b, k, q);
        points::lemma_chord_on_curve(u, v, a, b, k);
        points::lemma_sums_reduced(u, v, a, b, k);
        lemma_decode_scaled(x, y, z, mu, q, Pt::At(u, v), k);
    } else if v == b {
        points::lemma_triple_of_equal(a, b, k);
    } else {
        // v² = b² and v ≠ b, so v = −b
        ring::lemma_difference_of_squares(v, b);
        ring::lemma_reduced(v, b);
        ring::lemma_reduced(v, v);
        ring::lemma_reduced(b, b);
        ring::lemma_minus_zero(v, b);
        ring::lemma_minus_zero(v.times(v), b.times(b));
        inverse::lemma_no_zero_divisors(v.minus(b), v.plus(b));
        ring::lemma_opposite(v, b);
        assert(v == b.opp());
        if b == zero {
            ring::lemma_opposite(zero, zero);
            ring::lemma_plus_zero(zero);
        }
        points::lemma_triple_of_opposite(a, b, k);
        lemma_decode_opposite(b, mu, Pt::At(u, v), k);
    }
}

/// `c·V`, for a binary coefficient.
pub open spec fn coefficient_times(c: bool, v: Pt) -> Pt {
    if c {
        v
    } else {
        Pt::Inf
    }
}

/// The three polynomials of an entry evaluate to a triple that decodes to
/// `c·V + K`.
proof fn lemma_polys_decode<F: Field>(
    px: Poly<F>,
    py: Poly<F>,
    pz: Poly<F>,
    c: bool,
    key: Pt,
    mu: El,
    k: El,
    u: El,
    v: El,
)
    requires
        are_entry_polys(px, py, pz, c, key, mu, k),
        u.reduced(),
        v.reduced(),
        k.reduced(),
        mu.reduced(),
        mu != El::num(0),
        points::on_curve(u, v, k),
        key.on(k),
    ensures
        decoded(
            itpg::poly_value(px, x_monomials(), u, v),
            itpg::poly_value(py, y_monomials(), u, v),
            itpg::poly_value(pz, z_monomials(), u, v),
            Pt::At(u, v),
            k,
        ) == Some(coefficient_times(c, Pt::At(u, v)).plus(key)),
{
    let zero = El::num(0);
    let three = El::num(3);
    let mu2 = mu.times(mu);
    let mu3 = mu2.times(mu);
    ring::lemma_reduced(mu, mu);
    ring::lemma_reduced(mu2, mu);
    match (c, key) {
        (true, Pt::At(a, b)) => {
            lemma_x_value(
                px,
                b.plus(b).opp().times(mu2),
                a.times(a).times(mu2),
                a.times(mu2),
                k.plus(k).times(mu2),
                u,
                v,
            );
            lemma_y_value(
                py,
                b.times(mu3),
                three.times(a).times(b).times(mu3),
                three.opp().times(a).times(a).times(mu3),
                a.times(a).times(a).plus(El::num(4).times(k)).opp().times(mu3),
                three.times(k).times(b).times(mu3),
                u,
                v,
            );
            lemma_z_value(pz, mu, a.opp().times(mu), u, v);
            lemma_scaled_x(u, v, a, b, k, mu2);
            lemma_scaled_y(u, v, a, b, k, mu3);
            lemma_scaled_z(u, a, mu);
            lemma_decode_sum(u, v, a, b, k, mu);
        },
        (true, Pt::Inf) => {
            lemma_x_value(px, zero, mu2, zero, zero, u, v);
            lemma_y_value(py, zero, zero, zero, mu3, zero, u, v);
            assert(zeros(1) =~= seq![zero]);
            lemma_z_value(pz, zero, mu, u, v);
            lemma_constant(zero, u, v);
            lemma_constant(mu, u, v);
            ring::lemma_reduced(mu2, u);
            ring::lemma_reduced(mu3, v);
            ring::lemma_plus_zero(mu2.times(u));
            ring::lemma_plus_zero(mu3.times(v));
            ring::lemma_times_comm(mu2, u);
            ring::lemma_times_comm(mu3, v);
            lemma_decode_affine(u, v, mu, Pt::At(u, v), k);
        },
        (false, Pt::At(a, b)) => {
            assert(zeros(3) =~= seq![zero, zero, zero]);
            assert(zeros(4) =~= seq![zero, zero, zero, zero]);
            assert(zeros(1) =~= seq![zero]);
            ring::lemma_reduced(a, mu2);
            ring::lemma_reduced(b, mu3);
            lemma_x_value(px, zero, zero, zero, a.times(mu2), u, v);
            lemma_y_value(py, zero, zero, zero, zero, b.times(mu3), u, v);
            lemma_z_value(pz, zero, mu, u, v);
            lemma_constant(a.times(mu2), u, v);
            lemma_constant(b.times(mu3), u, v);
            lemma_constant(mu, u, v);
            lemma_decode_affine(a, b, mu, Pt::At(u, v), k);
        },
        (false, Pt::Inf) => {
            assert(zeros(3) =~= seq![zero, zero, zero]);
            assert(zeros(4) =~= seq![zero, zero, zero, zero]);
            assert(zeros(1) =~= seq![zero]);
            lemma_x_value(px, zero, zero, zero, mu2, u, v);
            lemma_y_value(py, zero, zero, zero, zero, mu3, u, v);
            lemma_z_value(pz, zero, zero, u, v);
            lemma_constant(mu2, u, v);
            lemma_constant(mu3, u, v);
            lemma_constant(zero, u, v);
            inverse::lemma_no_zero_divisors(mu, mu);
            let env = seq![mu];
            let f0 = linear::f(0);
            let (x, y) = (f0.m(f0), f0.m(f0).m(f0));
            assert(mu3.times(mu3) == mu2.times(mu2).times(mu2)) by {
                reveal_with_fuel(linear::Prod::val, 6);
                reveal_with_fuel(linear::Prod::count, 6);
                reveal_with_fuel(linear::Prod::within, 6);
                reveal_with_fuel(linear::same_powers, 2);
                linear::lemma_prods(y.m(y), x.m(x).m(x), env);
            }
        },
    }
}

/// Exactly correct on every mask: the encoding of a curve point `V = (u, v)` under
/// a garbled entry decodes to `c·V + K`, whatever the mask `K`, in particular for
/// `K = V`, `K = −V` and the identity.
#[verifier::spinoff_prover]
pub proof fn law_entry_is_correct<F: Field>(
    ek: CoordLabels<F>,
    lay: EntryLayout,
    vals: CoordValues<F>,
    nu: nat,
    nv: nat,
    c: bool,
    key: Pt,
    k: El,
    u: El,
    v: El,
)
    requires
        lay.is_layout(nu, nv),
        garbles_entry(ek, lay, c, key, k),
        ek.encodes(vals, u, v),
        u.reduced(),
        v.reduced(),
        k.reduced(),
        points::on_curve(u, v, k),
        key.on(k),
    ensures
        entry_value(lay, vals, u, v, k) == Some(coefficient_times(c, Pt::At(u, v)).plus(key)),
{
    let mu = choose|mu: El|
        mu.reduced() && mu != El::num(0) && #[trigger] garbles_entry_with(ek, lay, c, key, mu, k);
    let (px, py, pz) = choose|px: Poly<F>, py: Poly<F>, pz: Poly<F>|
        #![trigger are_entry_polys(px, py, pz, c, key, mu, k)]
        {
            &&& are_entry_polys(px, py, pz, c, key, mu, k)
            &&& itpg::garbles(ek, lay.polys@[0], px)
            &&& itpg::garbles(ek, lay.polys@[1], py)
            &&& itpg::garbles(ek, lay.polys@[2], pz)
        };
    itpg::law_garbling_is_correct(ek, lay.polys@[0], vals, px, x_monomials(), nu, nv, u, v);
    itpg::law_garbling_is_correct(
        ek,
        lay.polys@[1],
        vals,
        py,
        y_monomials(),
        nu + 3,
        nv + 1,
        u,
        v,
    );
    itpg::law_garbling_is_correct(
        ek,
        lay.polys@[2],
        vals,
        pz,
        z_monomials(),
        nu + 6,
        nv + 5,
        u,
        v,
    );
    lemma_polys_decode(px, py, pz, c, key, mu, k, u, v);
}

/// Whether the coordinates are on the curve and every entry decodes to `c_t·V + K_t`.
pub open spec fn entries_decode_to<C: Curve>(
    lays: Seq<EntryLayout>,
    vals: CoordValues<C::F>,
    u: El,
    v: El,
    coeffs: Seq<bool>,
    keys: Seq<C::Point>,
) -> bool {
    &&& entries_decode::<C>(lays, vals, u, v)
    &&& forall|t: int|
        #![trigger lays[t]]
        0 <= t < lays.len() ==> entry_value(lays[t], vals, u, v, C::beta()) == Some(
            coefficient_times(coeffs[t], Pt::At(u, v)).plus(keys[t]@),
        )
}

/// Exactly correct on every mask, for all entries of a point: the encoding of a curve
/// point `V = (u, v)` under garbled entries evaluates to `(c_t·V + K_t)_t`.
pub proof fn law_entries_are_correct<C: Curve>(
    ek: CoordLabels<C::F>,
    lays: Seq<EntryLayout>,
    vals: CoordValues<C::F>,
    nu: nat,
    nv: nat,
    coeffs: Seq<bool>,
    keys: Seq<C::Point>,
    u: El,
    v: El,
)
    requires
        entries_laid_out(lays, nu, nv),
        garbles_entries::<C>(ek, lays, coeffs, keys),
        keys.len() == lays.len(),
        forall|t: int| 0 <= t < keys.len() ==> (#[trigger] keys[t])@.on(C::beta()),
        ek.encodes(vals, u, v),
        u.reduced(),
        v.reduced(),
        points::on_curve(u, v, C::beta()),
    ensures
        entries_decode_to::<C>(lays, vals, u, v, coeffs, keys),
{
    C::lemma_beta();
    assert forall|t: int|
        #![trigger lays[t]]
        0 <= t < lays.len() implies entry_value(lays[t], vals, u, v, C::beta()) == Some(
        coefficient_times(coeffs[t], Pt::At(u, v)).plus(keys[t]@),
    ) by {
        assert(keys[t]@.on(C::beta()));
        law_entry_is_correct(
            ek,
            lays[t],
            vals,
            (nu + 7 * t) as nat,
            (nv + 5 * t) as nat,
            coeffs[t],
            keys[t]@,
            C::beta(),
            u,
            v,
        );
    }
}

/// Two entries with the same sum decode to the same point: `c = 1` under a mask
/// and `c = 0` under the input plus that mask.
pub proof fn law_scaling_hides_the_representative<F: Field>(
    ek1: CoordLabels<F>,
    ek2: CoordLabels<F>,
    lay: EntryLayout,
    vals1: CoordValues<F>,
    vals2: CoordValues<F>,
    nu: nat,
    nv: nat,
    key: Pt,
    k: El,
    u: El,
    v: El,
)
    requires
        lay.is_layout(nu, nv),
        garbles_entry(ek1, lay, true, key, k),
        garbles_entry(ek2, lay, false, Pt::At(u, v).plus(key), k),
        ek1.encodes(vals1, u, v),
        ek2.encodes(vals2, u, v),
        u.reduced(),
        v.reduced(),
        k.reduced(),
        points::on_curve(u, v, k),
        key.on(k),
        Pt::At(u, v).plus(key).on(k),
    ensures
        entry_value(lay, vals1, u, v, k) == entry_value(lay, vals2, u, v, k),
{
    law_entry_is_correct(ek1, lay, vals1, nu, nv, true, key, k, u, v);
    law_entry_is_correct(
        ek2,
        lay,
        vals2,
        nu,
        nv,
        false,
        Pt::At(u, v).plus(key),
        k,
        u,
        v,
    );
}

/// Whether two entry layouts hold the same positions.
pub open spec fn same_entry(one: EntryLayout, two: EntryLayout) -> bool {
    &&& itpg::same_chains(one.polys@[0], two.polys@[0])
    &&& itpg::same_chains(one.polys@[1], two.polys@[1])
    &&& itpg::same_chains(one.polys@[2], two.polys@[2])
}

/// Two layouts of an entry after the same labels hold the same positions.
pub proof fn lemma_same_entry(one: EntryLayout, two: EntryLayout, nu: nat, nv: nat)
    requires
        one.is_layout(nu, nv),
        two.is_layout(nu, nv),
    ensures
        same_entry(one, two),
{
    itpg::law_shape_determines_layout(one.polys@[0], two.polys@[0], x_monomials(), nu, nv);
    itpg::law_shape_determines_layout(two.polys@[0], one.polys@[0], x_monomials(), nu, nv);
    itpg::law_shape_determines_layout(one.polys@[1], two.polys@[1], y_monomials(), nu + 3, nv + 1);
    itpg::law_shape_determines_layout(two.polys@[1], one.polys@[1], y_monomials(), nu + 3, nv + 1);
    itpg::law_shape_determines_layout(one.polys@[2], two.polys@[2], z_monomials(), nu + 6, nv + 5);
    itpg::law_shape_determines_layout(two.polys@[2], one.polys@[2], z_monomials(), nu + 6, nv + 5);
}

/// An entry evaluates alike at layouts of the same positions.
pub proof fn lemma_same_entry_value<F: Field>(
    one: EntryLayout,
    two: EntryLayout,
    vals: CoordValues<F>,
    u: El,
    v: El,
    k: El,
)
    requires
        same_entry(one, two),
    ensures
        entry_value(one, vals, u, v, k) == entry_value(two, vals, u, v, k),
{
    itpg::lemma_same_chains_value(
        one.polys@[0],
        two.polys@[0],
        vals,
        u,
        v,
        one.polys@[0].chains@.len() as int,
    );
    itpg::lemma_same_chains_value(
        one.polys@[1],
        two.polys@[1],
        vals,
        u,
        v,
        one.polys@[1].chains@.len() as int,
    );
    itpg::lemma_same_chains_value(
        one.polys@[2],
        two.polys@[2],
        vals,
        u,
        v,
        one.polys@[2].chains@.len() as int,
    );
}

/// An entry garbled at one layout is garbled at every layout of the same
/// positions.
pub proof fn lemma_same_entry_garbles<F: Field>(
    one: EntryLayout,
    two: EntryLayout,
    ek: CoordLabels<F>,
    c: bool,
    key: Pt,
    k: El,
)
    requires
        same_entry(one, two),
        garbles_entry(ek, one, c, key, k),
    ensures
        garbles_entry(ek, two, c, key, k),
{
    let mu = choose|mu: El|
        mu.reduced() && mu != El::num(0) && #[trigger] garbles_entry_with(ek, one, c, key, mu, k);
    let (px, py, pz) = choose|px: Poly<F>, py: Poly<F>, pz: Poly<F>|
        #![trigger are_entry_polys(px, py, pz, c, key, mu, k)]
        {
            &&& are_entry_polys(px, py, pz, c, key, mu, k)
            &&& itpg::garbles(ek, one.polys@[0], px)
            &&& itpg::garbles(ek, one.polys@[1], py)
            &&& itpg::garbles(ek, one.polys@[2], pz)
        };
    itpg::lemma_same_chains_garble(ek, one.polys@[0], two.polys@[0], px);
    itpg::lemma_same_chains_garble(ek, one.polys@[1], two.polys@[1], py);
    itpg::lemma_same_chains_garble(ek, one.polys@[2], two.polys@[2], pz);
    assert(garbles_entry_with(ek, two, c, key, mu, k));
}

/// A laid out entry fits the labels up to its end.
pub proof fn lemma_entry_fits(lay: EntryLayout, nu: nat, nv: nat, end_u: nat, end_v: nat)
    requires
        lay.is_layout(nu, nv),
        nu + 7 <= end_u,
        nv + 5 <= end_v,
    ensures
        lay.fits(end_u, end_v),
{
    lemma_shape_sums();
    itpg::lemma_layout_fits(lay.polys@[0], x_monomials(), nu, nv, end_u, end_v);
    itpg::lemma_layout_fits(lay.polys@[1], y_monomials(), nu + 3, nv + 1, end_u, end_v);
    itpg::lemma_layout_fits(lay.polys@[2], z_monomials(), nu + 6, nv + 5, end_u, end_v);
}

/// What an entry's polynomials are worth on `(u, v)`: with the coefficient set, `(μ²·X, μ³·Y,
/// μ·(u − a))` for the numerators `X`, `Y` of the sum of `(u, v)` and the mask `(a, b)`, and
/// `(μ²·u, μ³·v, μ)` under the identity; with the coefficient not set, `(μ²·a, μ³·b, μ)`, and
/// `(μ², μ³, 0)` under the identity. So the scaling is on all three, on every mask.
pub proof fn law_entry_triple_is_scaled<F: Field>(
    px: Poly<F>,
    py: Poly<F>,
    pz: Poly<F>,
    c: bool,
    key: Pt,
    mu: El,
    k: El,
    u: El,
    v: El,
)
    requires
        are_entry_polys(px, py, pz, c, key, mu, k),
        u.reduced(),
        v.reduced(),
        k.reduced(),
        mu.reduced(),
        key.reduced(),
    ensures
        ({
            let x = itpg::poly_value(px, x_monomials(), u, v);
            let y = itpg::poly_value(py, y_monomials(), u, v);
            let z = itpg::poly_value(pz, z_monomials(), u, v);
            match key {
                Pt::At(a, b) => {
                    &&& c ==> x == mu.times(mu).times(
                        k.plus(k).minus(b.plus(b).times(v)).plus(a.times(a).times(u)).plus(
                            a.times(u).times(u),
                        ),
                    )
                    &&& c ==> y == mu.times(mu).times(mu).times(
                        b.times(v).times(v).plus(
                            El::num(3).times(a).times(b).times(u).times(u),
                        ).minus(El::num(3).times(a).times(a).times(u).times(v)).minus(
                            a.times(a).times(a).plus(El::num(4).times(k)).times(v),
                        ).plus(El::num(3).times(b).times(k)),
                    )
                    &&& c ==> z == mu.times(u.minus(a))
                    &&& !c ==> x == a.times(mu.times(mu))
                    &&& !c ==> y == b.times(mu.times(mu).times(mu))
                    &&& !c ==> z == mu
                },
                Pt::Inf => {
                    &&& c ==> x == u.times(mu.times(mu))
                    &&& c ==> y == v.times(mu.times(mu).times(mu))
                    &&& c ==> z == mu
                    &&& !c ==> x == mu.times(mu)
                    &&& !c ==> y == mu.times(mu).times(mu)
                    &&& !c ==> z == El::num(0)
                },
            }
        }),
{
    let zero = El::num(0);
    let three = El::num(3);
    let mu2 = mu.times(mu);
    let mu3 = mu2.times(mu);
    ring::lemma_reduced(mu, mu);
    ring::lemma_reduced(mu2, mu);
    match (c, key) {
        (true, Pt::At(a, b)) => {
            lemma_x_value(
                px,
                b.plus(b).opp().times(mu2),
                a.times(a).times(mu2),
                a.times(mu2),
                k.plus(k).times(mu2),
                u,
                v,
            );
            lemma_y_value(
                py,
                b.times(mu3),
                three.times(a).times(b).times(mu3),
                three.opp().times(a).times(a).times(mu3),
                a.times(a).times(a).plus(El::num(4).times(k)).opp().times(mu3),
                three.times(k).times(b).times(mu3),
                u,
                v,
            );
            lemma_z_value(pz, mu, a.opp().times(mu), u, v);
            lemma_scaled_x(u, v, a, b, k, mu2);
            lemma_scaled_y(u, v, a, b, k, mu3);
            lemma_scaled_z(u, a, mu);
        },
        (true, Pt::Inf) => {
            lemma_x_value(px, zero, mu2, zero, zero, u, v);
            lemma_y_value(py, zero, zero, zero, mu3, zero, u, v);
            assert(zeros(1) =~= seq![zero]);
            lemma_z_value(pz, zero, mu, u, v);
            lemma_constant(zero, u, v);
            lemma_constant(mu, u, v);
            ring::lemma_reduced(mu2, u);
            ring::lemma_reduced(mu3, v);
            ring::lemma_plus_zero(mu2.times(u));
            ring::lemma_plus_zero(mu3.times(v));
            ring::lemma_times_comm(mu2, u);
            ring::lemma_times_comm(mu3, v);
        },
        (false, Pt::At(a, b)) => {
            assert(zeros(3) =~= seq![zero, zero, zero]);
            assert(zeros(4) =~= seq![zero, zero, zero, zero]);
            assert(zeros(1) =~= seq![zero]);
            ring::lemma_reduced(a, mu2);
            ring::lemma_reduced(b, mu3);
            lemma_x_value(px, zero, zero, zero, a.times(mu2), u, v);
            lemma_y_value(py, zero, zero, zero, zero, b.times(mu3), u, v);
            lemma_z_value(pz, zero, mu, u, v);
            lemma_constant(a.times(mu2), u, v);
            lemma_constant(b.times(mu3), u, v);
            lemma_constant(mu, u, v);
        },
        (false, Pt::Inf) => {
            assert(zeros(3) =~= seq![zero, zero, zero]);
            assert(zeros(4) =~= seq![zero, zero, zero, zero]);
            assert(zeros(1) =~= seq![zero]);
            lemma_x_value(px, zero, zero, zero, mu2, u, v);
            lemma_y_value(py, zero, zero, zero, zero, mu3, u, v);
            lemma_z_value(pz, zero, zero, u, v);
            lemma_constant(mu2, u, v);
            lemma_constant(mu3, u, v);
            lemma_constant(zero, u, v);
        },
    }
}

/// A factor and its inverse cancel.
pub proof fn lemma_factor_cancels(a: El, z: El, zi: El)
    requires
        a.reduced(),
        z.times(zi) == El::num(1),
    ensures
        a.times(z).times(zi) == a,
        a.times(zi).times(z) == a,
{
    ring::lemma_times_assoc(a, z, zi);
    ring::lemma_times_assoc(a, zi, z);
    ring::lemma_times_comm(z, zi);
    ring::lemma_times_one(a);
}

/// What a triple stands for: the zero triple for twice the input; one with `Z` not zero for
/// the point `(p, q)` of the curve with `p·Z² = X` and `q·Z³ = Y`, if there is one, and for
/// nothing else; and any other for the identity if `Y² = X³` and `X` is not zero, and for
/// nothing if not.
pub proof fn law_triple_stands_for_its_point(x: El, y: El, z: El, v: Pt, k: El, p: El, q: El)
    requires
        x.reduced(),
        y.reduced(),
        z.reduced(),
        p.reduced(),
        q.reduced(),
    ensures
        x == El::num(0) && y == El::num(0) && z == El::num(0) ==> decoded(x, y, z, v, k) == Some(
            v.plus(v),
        ),
        z != El::num(0) ==> (decoded(x, y, z, v, k) == Some(Pt::At(p, q)) <==> p.times(z).times(z)
            == x && q.times(z).times(z).times(z) == y && q.times(q) == p.times(p).times(p).plus(k)),
        z != El::num(0) ==> decoded(x, y, z, v, k) != Some(Pt::Inf),
        z == El::num(0) && !(x == El::num(0) && y == El::num(0)) ==> decoded(x, y, z, v, k) == (
        if x != El::num(0) && y.times(y) == x.times(x).times(x) {
            Some(Pt::Inf)
        } else {
            None
        }),
{
    if z != El::num(0) {
        inverse::lemma_inv(z);
        let zi = inverse::inv(z);
        let z2 = zi.times(zi);
        // the affine coordinates, one factor at a time
        ring::lemma_times_assoc(x, zi, zi);
        ring::lemma_times_assoc(y, zi, zi);
        ring::lemma_reduced(x, zi);
        ring::lemma_reduced(y, zi);
        ring::lemma_reduced(y.times(zi), zi);
        ring::lemma_reduced(p, z);
        ring::lemma_reduced(q, z);
        ring::lemma_reduced(q.times(z), z);
        // from the point to the triple
        lemma_factor_cancels(x, z, zi);
        lemma_factor_cancels(x.times(zi), z, zi);
        lemma_factor_cancels(y, z, zi);
        lemma_factor_cancels(y.times(zi), z, zi);
        lemma_factor_cancels(y.times(zi).times(zi), z, zi);
        // and back
        lemma_factor_cancels(p, z, zi);
        lemma_factor_cancels(p.times(z), z, zi);
        lemma_factor_cancels(q, z, zi);
        lemma_factor_cancels(q.times(z), z, zi);
        lemma_factor_cancels(q.times(z).times(z), z, zi);
    }
}

/// The scaling of every entry is drawn for it: it is the first draw after the entries before
/// it that is not zero, and the entry's polynomials, scaled by it, are garbled by the draws
/// that follow.
pub proof fn law_scaling_is_drawn<C: Curve>(
    before: StdRng,
    after: StdRng,
    ek: CoordLabels<C::F>,
    lays: Seq<EntryLayout>,
    coeffs: Seq<bool>,
    keys: Seq<C::Point>,
    n: int,
)
    requires
        entries_garbled_by::<C>(before, after, ek, lays, coeffs, keys, n),
    ensures
        n <= 0 ==> before == after,
        n > 0 ==> exists|
            g1: StdRng,
            g2: StdRng,
            g3: StdRng,
            g4: StdRng,
            mu: C::F,
            px: Poly<C::F>,
            py: Poly<C::F>,
            pz: Poly<C::F>,
        |
            {
                &&& entries_garbled_by::<C>(before, g1, ek, lays, coeffs, keys, n - 1)
                &&& #[trigger] nonzero_drawn(g1, g2, mu)
                &&& #[trigger] are_entry_polys(
                    px,
                    py,
                    pz,
                    coeffs[n - 1],
                    keys[n - 1]@,
                    mu@,
                    C::beta(),
                )
                &&& #[trigger] itpg::garbled_by(
                    g2,
                    g3,
                    ek,
                    lays[n - 1].polys@[0],
                    px,
                    x_monomials(),
                )
                &&& #[trigger] itpg::garbled_by(
                    g3,
                    g4,
                    ek,
                    lays[n - 1].polys@[1],
                    py,
                    y_monomials(),
                )
                &&& itpg::garbled_by(g4, after, ek, lays[n - 1].polys@[2], pz, z_monomials())
            },
{
    reveal(entries_garbled_by);
    if n > 0 {
        let (g1, g2, mu) = choose|g1: StdRng, g2: StdRng, mu: C::F|
            {
                &&& entries_garbled_by::<C>(before, g1, ek, lays, coeffs, keys, n - 1)
                &&& #[trigger] nonzero_drawn(g1, g2, mu)
                &&& entry_garbled_by(
                    g2,
                    after,
                    ek,
                    lays[n - 1],
                    coeffs[n - 1],
                    keys[n - 1]@,
                    mu@,
                    C::beta(),
                )
            };
        let lay = lays[n - 1];
        let (px, py, pz, g3, g4) = choose|
            px: Poly<C::F>,
            py: Poly<C::F>,
            pz: Poly<C::F>,
            g3: StdRng,
            g4: StdRng,
        |
            {
                &&& #[trigger] are_entry_polys(
                    px,
                    py,
                    pz,
                    coeffs[n - 1],
                    keys[n - 1]@,
                    mu@,
                    C::beta(),
                )
                &&& #[trigger] itpg::garbled_by(g2, g3, ek, lay.polys@[0], px, x_monomials())
                &&& #[trigger] itpg::garbled_by(g3, g4, ek, lay.polys@[1], py, y_monomials())
                &&& itpg::garbled_by(g4, after, ek, lay.polys@[2], pz, z_monomials())
            };
        assert(nonzero_drawn(g1, g2, mu) && are_entry_polys(
            px,
            py,
            pz,
            coeffs[n - 1],
            keys[n - 1]@,
            mu@,
            C::beta(),
        ));
    }
}

/// Where the labels of an entry are: entries follow on one another with seven labels on `u`
/// and five on `v` each, and in an entry the labels of `X`, then those of `Y`, then that of
/// `Z`.
pub proof fn law_entries_follow_on(lays: Seq<EntryLayout>, nu: nat, nv: nat, t: int)
    requires
        entries_laid_out(lays, nu, nv),
        0 <= t < lays.len(),
    ensures
        lays[t].polys@[0].is_layout(
            seq![
                Monomial { du: 0, dv: 1 },
                Monomial { du: 1, dv: 0 },
                Monomial { du: 2, dv: 0 },
            ],
            (nu + 7 * t) as nat,
            (nv + 5 * t) as nat,
        ),
        lays[t].polys@[1].is_layout(
            seq![
                Monomial { du: 0, dv: 2 },
                Monomial { du: 2, dv: 0 },
                Monomial { du: 1, dv: 1 },
                Monomial { du: 0, dv: 1 },
            ],
            (nu + 7 * t + 3) as nat,
            (nv + 5 * t + 1) as nat,
        ),
        lays[t].polys@[2].is_layout(
            seq![Monomial { du: 1, dv: 0 }],
            (nu + 7 * t + 6) as nat,
            (nv + 5 * t + 5) as nat,
        ),
{
    let lay = lays[t];
}

} // verus!
