//! `Π_F`: the scheme over fields.
//!
//! The evaluator's input is the proof as six coordinates. On-curve, this is
//! `Π_G ∘_{ι_F} Π_1`, where `Π_1` garbles the three Argo encodings from
//! coordinates ([`crate::pointenc`]). Off-curve, three garbled polynomials
//! `s·g_V(u, v)` (one per proof point) release `s` instead: they vanish on the
//! curves, hiding `s` statistically there, and off-curve the evaluator divides
//! by the public `g_V(u, v)`. Branching is on the public curve equations, not
//! the garbled values, so the output is `s` off-curve even when `s = 0`. The
//! garbled program is `f~_G` itself.
//!
//! Label positions are a fixed public [`FieldLayout`], determined by `n` and
//! `κ` alone.
use crate::curve;
use crate::curve::{
    fq_to_secret, g1_coords, g1_eq, g1_from_coords, g2_eq, secret_to_fq, twist_coords,
    twist_from_coords, Secret, Twist, G1,
};
use crate::elems::{Field, Fq, Fq2};
use crate::group;
use crate::group::{
    GroupEncoding, GroupEncodingInfo, GroupProgram, GroupScheme, ProofPoints, Verifier,
};
use crate::groups;
use crate::inverse;
use crate::itpg;
use crate::itpg::{CoordLabels, CoordValues, Cursor, Layout, Monomial, Poly, Shape};
use crate::nums;
use crate::pgs::Pgs;
use crate::pointenc;
use crate::pointenc::{Curve, CurveG1, CurveTwist, EntryLayout};
use crate::points;
use crate::points::Pt;
use crate::ring;
use crate::ring::El;
use ark_std::rand::rngs::StdRng;
use vstd::prelude::*;

verus! {

/// A proof as field elements: the evaluator's input at this layer.
#[derive(Clone, Copy, Debug, PartialEq, Eq)]
pub struct ProofCoords {
    /// `(A_u, A_v) ∈ F_p²`.
    pub a: (Fq, Fq),
    /// `(B_u, B_v) ∈ F_{p^2}²`.
    pub b: (Fq2, Fq2),
    /// `(C_u, C_v) ∈ F_p²`.
    pub c: (Fq, Fq),
}

impl ProofCoords {
    /// Whether the points have these coordinates.
    pub open spec fn are_coords_of(self, x: ProofPoints) -> bool {
        &&& x.a@ == Pt::At(self.a.0@, self.a.1@)
        &&& x.b@ == Pt::At(self.b.0@, self.b.1@)
        &&& x.c@ == Pt::At(self.c.0@, self.c.1@)
    }

    /// Whether `A` is on `E`.
    pub open spec fn a_on_curve(self) -> bool {
        points::on_curve(self.a.0@, self.a.1@, groups::beta1())
    }

    /// Whether `B` is on the twist.
    pub open spec fn b_on_curve(self) -> bool {
        points::on_curve(self.b.0@, self.b.1@, groups::beta2())
    }

    /// Whether `C` is on `E`.
    pub open spec fn c_on_curve(self) -> bool {
        points::on_curve(self.c.0@, self.c.1@, groups::beta1())
    }

    /// Whether every pair is on its curve.
    pub open spec fn on_curves(self) -> bool {
        self.a_on_curve() && self.b_on_curve() && self.c_on_curve()
    }

    /// The map `ι_F`: the points with these coordinates, or `None` if some pair
    /// is off its curve.
    pub fn to_points(&self) -> (res: Option<ProofPoints>)
        ensures
            res is Some <==> self.on_curves(),
            res is Some <==> points::on_curve(self.a.0@, self.a.1@, groups::beta1())
                && points::on_curve(self.b.0@, self.b.1@, groups::beta2()) && points::on_curve(
                self.c.0@,
                self.c.1@,
                groups::beta1(),
            ),
            res matches Some(x) ==> self.are_coords_of(x) && x.are_points(),
            res matches Some(x) ==> x.a@ == Pt::At(self.a.0@, self.a.1@) && x.b@ == Pt::At(
                self.b.0@,
                self.b.1@,
            ) && x.c@ == Pt::At(self.c.0@, self.c.1@),
    {
        match (
            g1_from_coords(self.a.0, self.a.1),
            twist_from_coords(self.b.0, self.b.1),
            g1_from_coords(self.c.0, self.c.1),
        ) {
            (Some(a), Some(b), Some(c)) => Some(ProofPoints { a, b, c }),
            _ => None,
        }
    }

    /// The coordinates of a proof, or `None` if a point is at infinity.
    pub fn from_points(x: &ProofPoints) -> (res: Option<Self>)
        ensures
            res is None <==> x.a@ == Pt::Inf || x.b@ == Pt::Inf || x.c@ == Pt::Inf,
            res matches Some(c) ==> c.are_coords_of(*x),
            res matches Some(c) ==> x.a@ == Pt::At(c.a.0@, c.a.1@) && x.b@ == Pt::At(
                c.b.0@,
                c.b.1@,
            ) && x.c@ == Pt::At(c.c.0@, c.c.1@),
    {
        match (g1_coords(&x.a), twist_coords(&x.b), g1_coords(&x.c)) {
            (Some(a), Some(b), Some(c)) => Some(ProofCoords { a, b, c }),
            _ => None,
        }
    }
}

// ------------------------------------------------------------- curve checks

/// The monomials of a curve check: `v²` and `u³`.
pub open spec fn check_monomials() -> Seq<Monomial> {
    seq![Monomial { du: 0, dv: 2 }, Monomial { du: 3, dv: 0 }]
}

proof fn lemma_check_sums()
    ensures
        itpg::sum_u(check_monomials(), 2) == 3,
        itpg::sum_v(check_monomials(), 2) == 2,
{
    reveal_with_fuel(itpg::sum_u, 3);
    reveal_with_fuel(itpg::sum_v, 3);
}

/// The shape of a curve check `s·(v² − u³ − b)`: monomials `v²` and `u³`, five labels.
pub fn check_shape() -> (res: Shape)
    ensures
        res@ == check_monomials(),
        res@ == seq![Monomial { du: 0, dv: 2 }, Monomial { du: 3, dv: 0 }],
{
    let monomials = vec![Monomial::new(0, 2), Monomial::new(3, 0)];
    assert(monomials@ =~= check_monomials());
    Shape { monomials }
}

/// Whether a polynomial is `s·v² − s·u³ − s·b`.
pub open spec fn is_check_poly<F: Field>(poly: Poly<F>, s: El, b: El) -> bool {
    pointenc::poly_is(poly, seq![s, s.opp()], s.opp().times(b))
}

/// The polynomial `s·g(u, v) = s·v² − s·u³ − s·b`.
pub fn check_poly<F: Field>(s: F, b: F) -> (res: Poly<F>)
    ensures
        is_check_poly(res, s@, b@),
{
    Poly { coeffs: vec![s, s.neg()], constant: s.neg().mul(b) }
}

// ------------------------------------------------------------------- layout

/// The layout of one point's labels: its Argo-encoding entries, then its curve check.
#[derive(Clone, Debug, PartialEq, Eq)]
pub struct PointLayout {
    /// Entry layouts.
    pub entries: Vec<EntryLayout>,
    /// Layout of the curve check.
    pub check: Layout,
    /// Total labels on `u` and on `v`.
    pub total: Cursor,
}

impl PointLayout {
    /// Whether this is the layout of `n` entries and a check, without gaps.
    pub open spec fn wf(self, n: nat) -> bool {
        &&& self.entries@.len() == n
        &&& pointenc::entries_laid_out(self.entries@, 0, 0)
        &&& self.check.is_layout(check_monomials(), 7 * n, 5 * n)
        &&& self.total.u == 7 * n + 3
        &&& self.total.v == 5 * n + 2
    }

    /// The layout of the given number of entries and a check.
    pub fn new(entries: usize) -> (res: Self)
        requires
            7 * entries + 3 <= usize::MAX,
        ensures
            res.wf(entries as nat),
    {
        let mut cur = Cursor::default();
        let n = entries;
        let entries = pointenc::layout_entries(n, &mut cur);
        proof {
            lemma_check_sums();
        }
        let check = itpg::layout(&check_shape(), &mut cur);
        Self { entries, check, total: cur }
    }
}

/// The public layout of the field-layer encoding.
#[derive(Clone, Debug, PartialEq, Eq)]
pub struct FieldLayout {
    /// Labels on `A`: `n` entries and one check.
    pub a: PointLayout,
    /// Labels on `B`: `κ` entries and one check, over `F_{p^2}`.
    pub b: PointLayout,
    /// Labels on `C`: `κ` entries and one check.
    pub c: PointLayout,
}

impl FieldLayout {
    /// Whether this is the layout for the scheme's parameters.
    pub open spec fn wf(self) -> bool {
        &&& self.a.wf(group::N as nat)
        &&& self.b.wf(group::KAPPA as nat)
        &&& self.c.wf(group::KAPPA as nat)
    }

    /// The layout for the scheme's fixed parameters, `n = 254` and `κ = 128`.
    pub fn new() -> (res: Self)
        ensures
            res.wf(),
    {
        Self {
            a: PointLayout::new(group::N),
            b: PointLayout::new(group::KAPPA),
            c: PointLayout::new(group::KAPPA),
        }
    }

    /// Entries over the two coordinates of each point: `(S_A, S_B, S_C)`.
    pub fn entry_counts(&self) -> (res: (usize, usize, usize))
        requires
            self.a.total.u + self.a.total.v <= usize::MAX,
            self.b.total.u + self.b.total.v <= usize::MAX,
            self.c.total.u + self.c.total.v <= usize::MAX,
        ensures
            res.0 == self.a.total.u + self.a.total.v,
            res.1 == self.b.total.u + self.b.total.v,
            res.2 == self.c.total.u + self.c.total.v,
            self.wf() ==> res == (3053usize, 1541usize, 1541usize),
    {
        (
            self.a.total.u + self.a.total.v,
            self.b.total.u + self.b.total.v,
            self.c.total.u + self.c.total.v,
        )
    }

    /// `N_base = S_A + 4·S_B + S_C`, the base-field entries after splitting the
    /// extension-field labels of `B`.
    pub fn base_field_entries(&self) -> (res: usize)
        requires
            self.a.total.u + self.a.total.v + 4 * (self.b.total.u + self.b.total.v)
                + self.c.total.u + self.c.total.v <= usize::MAX,
        ensures
            res == self.a.total.u + self.a.total.v + 4 * (self.b.total.u + self.b.total.v)
                + self.c.total.u + self.c.total.v,
            self.wf() ==> res == 10_758,
    {
        let (sa, sb, sc) = self.entry_counts();
        sa + 4 * sb + sc
    }
}

impl Default for FieldLayout {
    fn default() -> (res: Self)
        ensures
            res.wf(),
    {
        Self::new()
    }
}

/// The layout, as a value.
pub open spec fn the_layout() -> FieldLayout {
    choose|l: FieldLayout| l.wf()
}

/// Two layouts of a point for one number of entries hold the same positions.
proof fn lemma_same_point_layout(one: PointLayout, two: PointLayout, n: nat)
    requires
        one.wf(n),
        two.wf(n),
    ensures
        itpg::same_chains(one.check, two.check),
        forall|t: int|
            #![trigger one.entries@[t]]
            #![trigger two.entries@[t]]
            0 <= t < n ==> pointenc::same_entry(one.entries@[t], two.entries@[t]),
{
    itpg::law_shape_determines_layout(one.check, two.check, check_monomials(), 7 * n, 5 * n);
    itpg::law_shape_determines_layout(two.check, one.check, check_monomials(), 7 * n, 5 * n);
    assert forall|t: int|
        #![trigger one.entries@[t]]
        #![trigger two.entries@[t]]
        0 <= t < n implies pointenc::same_entry(one.entries@[t], two.entries@[t]) by {
        pointenc::lemma_same_entry(
            one.entries@[t],
            two.entries@[t],
            (7 * t) as nat,
            (5 * t) as nat,
        );
    }
}

/// A point's layout fits its labels.
proof fn lemma_point_layout_fits(lay: PointLayout, n: nat)
    requires
        lay.wf(n),
    ensures
        lay.check.fits(lay.total.u as nat, lay.total.v as nat),
        forall|t: int|
            #![trigger lay.entries@[t]]
            0 <= t < n ==> lay.entries@[t].fits(lay.total.u as nat, lay.total.v as nat),
{
    lemma_check_sums();
    itpg::lemma_layout_fits(
        lay.check,
        check_monomials(),
        7 * n,
        5 * n,
        lay.total.u as nat,
        lay.total.v as nat,
    );
    assert forall|t: int| #![trigger lay.entries@[t]] 0 <= t < n implies lay.entries@[t].fits(
        lay.total.u as nat,
        lay.total.v as nat,
    ) by {
        pointenc::lemma_entry_fits(
            lay.entries@[t],
            (7 * t) as nat,
            (5 * t) as nat,
            lay.total.u as nat,
            lay.total.v as nat,
        );
    }
}

// ------------------------------------------------------------------- scheme

/// The encoding information `ek_F`: affine labels on each coordinate.
#[derive(Clone, Debug)]
pub struct FieldEncodingInfo {
    /// Labels on `A_u, A_v`.
    pub a: CoordLabels<Fq>,
    /// Labels on `B_u, B_v`, affine over `F_{p^2}`.
    pub b: CoordLabels<Fq2>,
    /// Labels on `C_u, C_v`.
    pub c: CoordLabels<Fq>,
}

/// The encoding `x~_F`: the label values.
///
/// `Default` gives the empty (wrong-length) encoding used to signal a
/// malformed inner program at the bit layer: [`Pgs::eval`] there cannot return
/// `None` directly (its `Output` is `FieldEncoding`, not `Option<_>`), so it
/// degrades to this value, which this scheme's own length guard then rejects.
#[derive(Clone, Debug)]
pub struct FieldEncoding {
    /// Values on `A`.
    pub a: CoordValues<Fq>,
    /// Values on `B`.
    pub b: CoordValues<Fq2>,
    /// Values on `C`.
    pub c: CoordValues<Fq>,
}

impl Default for FieldEncoding {
    fn default() -> (res: Self)
        ensures
            res.a.u@.len() == 0 && res.a.v@.len() == 0,
            res.b.u@.len() == 0 && res.b.v@.len() == 0,
            res.c.u@.len() == 0 && res.c.v@.len() == 0,
    {
        FieldEncoding {
            a: CoordValues::default(),
            b: CoordValues::default(),
            c: CoordValues::default(),
        }
    }
}

/// The scheme over fields.
#[derive(Clone, Debug)]
pub struct FieldScheme {
    /// The scheme over groups it is built on.
    pub group: GroupScheme,
}

/// The secret as an element.
pub open spec fn secret_el(s: Secret) -> El {
    El { c0: nums::bytes_val(s@), c1: 0 }
}

/// Whether the labels of one point garble its `n` entries `c_t·V + K_t` and its
/// check `s·g`.
pub open spec fn garbles_point<C: Curve>(
    ek: CoordLabels<C::F>,
    lay: PointLayout,
    n: nat,
    coeffs: Seq<bool>,
    keys: Seq<C::Point>,
    s: El,
) -> bool {
    &&& ek.u@.len() == 7 * n + 3
    &&& ek.v@.len() == 5 * n + 2
    &&& pointenc::garbles_entries::<C>(ek, lay.entries@, coeffs, keys)
    &&& garbles_check(ek, lay.check, s, C::beta())
}

/// Whether the labels at `lay` garble the check `s·(v² − u³ − b)`.
pub open spec fn garbles_check<F: Field>(ek: CoordLabels<F>, lay: Layout, s: El, b: El) -> bool {
    exists|poly: Poly<F>| #[trigger] is_check_poly(poly, s, b) && itpg::garbles(ek, lay, poly)
}

/// Whether the labels at `lay` are those of the next draws for the check `s·(v² − u³ − b)`.
#[verifier::opaque]
pub open spec fn check_garbled_by<F: Field>(
    before: StdRng,
    after: StdRng,
    ek: CoordLabels<F>,
    lay: Layout,
    s: El,
    b: El,
) -> bool {
    exists|poly: Poly<F>| #[trigger]
        is_check_poly(poly, s, b) && itpg::garbled_by(
            before,
            after,
            ek,
            lay,
            poly,
            check_monomials(),
        )
}

/// Append the labels of a point's check.
fn garble_check<C: Curve>(rng: &mut StdRng, s: C::F, lay: &PointLayout, n: usize, ek: &mut CoordLabels<
    C::F,
>)
    requires
        lay.wf(n as nat),
        old(ek).u@.len() == 7 * n,
        old(ek).v@.len() == 5 * n,
    ensures
        final(ek).extends(*old(ek)),
        final(ek).u@.len() == 7 * n + 3,
        final(ek).v@.len() == 5 * n + 2,
        garbles_check(*final(ek), lay.check, s@, C::beta()),
        check_garbled_by(*old(rng), *final(rng), *final(ek), lay.check, s@, C::beta()),
{
    let shape = check_shape();
    let poly = check_poly(s, C::b());
    proof {
        lemma_check_sums();
        itpg::lemma_layout_in_order(lay.check, check_monomials(), 7 * n as nat, 5 * n as nat);
    }
    itpg::garble(rng, &poly, &shape, &lay.check, ek);
    proof {
        reveal(check_garbled_by);
        assert(is_check_poly(poly, s@, C::beta()));
    }
}

/// The labels of a point keep garbling its entries when the check is added, and
/// garble at every layout.
proof fn lemma_garbles_point<C: Curve>(
    old_ek: CoordLabels<C::F>,
    ek: CoordLabels<C::F>,
    lay: PointLayout,
    any: PointLayout,
    n: nat,
    coeffs: Seq<bool>,
    keys: Seq<C::Point>,
    s: El,
)
    requires
        lay.wf(n),
        any.wf(n),
        ek.extends(old_ek),
        ek.u@.len() == 7 * n + 3,
        ek.v@.len() == 5 * n + 2,
        pointenc::garbles_entries::<C>(old_ek, lay.entries@, coeffs, keys),
        garbles_check(ek, lay.check, s, C::beta()),
    ensures
        garbles_point::<C>(ek, any, n, coeffs, keys, s),
{
    lemma_same_point_layout(lay, any, n);
    let poly = choose|poly: Poly<C::F>| #[trigger]
        is_check_poly(poly, s, C::beta()) && itpg::garbles(ek, lay.check, poly);
    itpg::lemma_same_chains_garble(ek, lay.check, any.check, poly);
    assert forall|t: int|
        #![trigger any.entries@[t]]
        0 <= t < any.entries@.len() implies pointenc::garbles_entry(
        ek,
        any.entries@[t],
        coeffs[t],
        keys[t]@,
        C::beta(),
    ) by {
        let (one, two) = (lay.entries@[t], any.entries@[t]);
        assert(pointenc::garbles_entry(old_ek, lay.entries@[t], coeffs[t], keys[t]@, C::beta()));
        pointenc::lemma_extends_entry(
            old_ek,
            ek,
            one,
            (7 * t) as nat,
            (5 * t) as nat,
            coeffs[t],
            keys[t]@,
            C::beta(),
        );
        pointenc::lemma_same_entry_garbles(one, two, ek, coeffs[t], keys[t]@, C::beta());
    }
}

impl FieldScheme {
    /// The scheme for a verifier and session identifier.
    pub fn new(vk: Verifier, sid: Vec<u8>) -> (res: Self)
        ensures
            res.group.vk == vk,
            res.group.sid == sid,
    {
        Self { group: GroupScheme::new(vk, sid) }
    }

    /// Whether a program, field encoding information and group encoding
    /// information are the parts of one garbling of `s`.
    pub open spec fn parts_garbled(
        self,
        s: Secret,
        program: GroupProgram,
        ek: FieldEncodingInfo,
        ek_g: GroupEncodingInfo,
    ) -> bool {
        let l = the_layout();
        &&& l.wf()
        &&& self.group.garbled(s, program, ek_g)
        &&& garbles_point::<CurveG1>(
            ek.a,
            l.a,
            group::N as nat,
            ek_g.a_coeffs@,
            ek_g.a_keys@,
            secret_el(s),
        )
        &&& garbles_point::<CurveTwist>(
            ek.b,
            l.b,
            group::KAPPA as nat,
            ek_g.coeffs@,
            ek_g.b_keys@,
            secret_el(s),
        )
        &&& garbles_point::<CurveG1>(
            ek.c,
            l.c,
            group::KAPPA as nat,
            ek_g.coeffs@,
            ek_g.c_keys@,
            secret_el(s),
        )
    }

    /// Whether the parts are those of the draws between the given states: those of the
    /// scheme over groups, of the entries of `A`, `B` and `C`, and of their checks.
    pub open spec fn parts_garbled_through(
        self,
        g: Seq<StdRng>,
        lay: FieldLayout,
        s: Secret,
        program: GroupProgram,
        ek: FieldEncodingInfo,
        ek_g: GroupEncodingInfo,
    ) -> bool {
        &&& g.len() == 8
        &&& lay.wf()
        &&& self.group.garbled_by(g[0], g[1], s, program, ek_g)
        &&& pointenc::entries_garbled_by::<CurveG1>(
            g[1],
            g[2],
            ek.a,
            lay.a.entries@,
            ek_g.a_coeffs@,
            ek_g.a_keys@,
            group::N as int,
        )
        &&& pointenc::entries_garbled_by::<CurveTwist>(
            g[2],
            g[3],
            ek.b,
            lay.b.entries@,
            ek_g.coeffs@,
            ek_g.b_keys@,
            group::KAPPA as int,
        )
        &&& pointenc::entries_garbled_by::<CurveG1>(
            g[3],
            g[4],
            ek.c,
            lay.c.entries@,
            ek_g.coeffs@,
            ek_g.c_keys@,
            group::KAPPA as int,
        )
        &&& check_garbled_by(g[4], g[5], ek.a, lay.a.check, secret_el(s), groups::beta1())
        &&& check_garbled_by(g[5], g[6], ek.b, lay.b.check, secret_el(s), groups::beta2())
        &&& check_garbled_by(g[6], g[7], ek.c, lay.c.check, secret_el(s), groups::beta1())
    }

    /// Whether the parts are those of the next draws, from one state of the generator to
    /// the other.
    pub open spec fn parts_garbled_by(
        self,
        before: StdRng,
        after: StdRng,
        s: Secret,
        program: GroupProgram,
        ek: FieldEncodingInfo,
        ek_g: GroupEncodingInfo,
    ) -> bool {
        exists|g: Seq<StdRng>, lay: FieldLayout| #[trigger]
            self.parts_garbled_through(g, lay, s, program, ek, ek_g) && g[0] == before && g[7]
                == after
    }

    /// The checks are added after the entries.
    proof fn lemma_parts_garbled_through(
        self,
        g: Seq<StdRng>,
        lay: FieldLayout,
        s: Secret,
        program: GroupProgram,
        a0: CoordLabels<Fq>,
        b0: CoordLabels<Fq2>,
        c0: CoordLabels<Fq>,
        ek: FieldEncodingInfo,
        ek_g: GroupEncodingInfo,
    )
        requires
            g.len() == 8,
            lay.wf(),
            self.group.garbled_by(g[0], g[1], s, program, ek_g),
            pointenc::entries_garbled_by::<CurveG1>(
                g[1],
                g[2],
                a0,
                lay.a.entries@,
                ek_g.a_coeffs@,
                ek_g.a_keys@,
                group::N as int,
            ),
            pointenc::entries_garbled_by::<CurveTwist>(
                g[2],
                g[3],
                b0,
                lay.b.entries@,
                ek_g.coeffs@,
                ek_g.b_keys@,
                group::KAPPA as int,
            ),
            pointenc::entries_garbled_by::<CurveG1>(
                g[3],
                g[4],
                c0,
                lay.c.entries@,
                ek_g.coeffs@,
                ek_g.c_keys@,
                group::KAPPA as int,
            ),
            ek.a.extends(a0),
            ek.b.extends(b0),
            ek.c.extends(c0),
            check_garbled_by(g[4], g[5], ek.a, lay.a.check, secret_el(s), groups::beta1()),
            check_garbled_by(g[5], g[6], ek.b, lay.b.check, secret_el(s), groups::beta2()),
            check_garbled_by(g[6], g[7], ek.c, lay.c.check, secret_el(s), groups::beta1()),
        ensures
            self.parts_garbled_through(g, lay, s, program, ek, ek_g),
    {
        pointenc::lemma_extends_entries_garbled_by::<CurveG1>(
            a0,
            ek.a,
            g[1],
            g[2],
            lay.a.entries@,
            ek_g.a_coeffs@,
            ek_g.a_keys@,
            group::N as int,
        );
        pointenc::lemma_extends_entries_garbled_by::<CurveTwist>(
            b0,
            ek.b,
            g[2],
            g[3],
            lay.b.entries@,
            ek_g.coeffs@,
            ek_g.b_keys@,
            group::KAPPA as int,
        );
        pointenc::lemma_extends_entries_garbled_by::<CurveG1>(
            c0,
            ek.c,
            g[3],
            g[4],
            lay.c.entries@,
            ek_g.coeffs@,
            ek_g.c_keys@,
            group::KAPPA as int,
        );
    }

    /// `Garb_F`, also returning the group encoding information that `Π_1`
    /// garbles. The trait method drops it. It holds the masks and coefficients
    /// of the inner scheme, which a test that supplies an input chosen after the
    /// masks needs.
    pub fn garble_parts(&self, rng: &mut StdRng, s: &Secret) -> (res: (
        GroupProgram,
        FieldEncodingInfo,
        GroupEncodingInfo,
    ))
        requires
            self.group.vk.wf(),
        ensures
            self.parts_garbled(*s, res.0, res.1, res.2),
            self.parts_garbled_by(*old(rng), *final(rng), *s, res.0, res.1, res.2),
    {
        let ghost g0 = *rng;
        let (program, ek_g) = self.group.garble(rng, s);
        let ghost g1 = *rng;
        let ghost k = choose|k: int| #[trigger] self.group.garbled_with(*s, program, ek_g, k);
        assert(self.group.garbled_with(*s, program, ek_g, k));
        let layout = FieldLayout::new();
        let s_fq = secret_to_fq(s);
        let s_fq2 = Fq2::new(s_fq, Fq::zero());
        // Π_1: the three Argo encodings from coordinates, with ek_G as garbler input.
        let mut a: CoordLabels<Fq> = CoordLabels::default();
        pointenc::garble_entries::<CurveG1>(
            rng,
            ek_g.a_coeffs.as_slice(),
            ek_g.a_keys.as_slice(),
            layout.a.entries.as_slice(),
            &mut a,
        );
        let ghost g2 = *rng;
        let mut b: CoordLabels<Fq2> = CoordLabels::default();
        pointenc::garble_entries::<CurveTwist>(
            rng,
            ek_g.coeffs.as_slice(),
            ek_g.b_keys.as_slice(),
            layout.b.entries.as_slice(),
            &mut b,
        );
        let ghost g3 = *rng;
        let mut c: CoordLabels<Fq> = CoordLabels::default();
        pointenc::garble_entries::<CurveG1>(
            rng,
            ek_g.coeffs.as_slice(),
            ek_g.c_keys.as_slice(),
            layout.c.entries.as_slice(),
            &mut c,
        );
        let ghost g4 = *rng;
        let ghost (a0, b0, c0) = (a, b, c);
        // Π_γ: the curve checks s·g_V, with s as garbler input.
        garble_check::<CurveG1>(rng, s_fq, &layout.a, group::N, &mut a);
        let ghost g5 = *rng;
        garble_check::<CurveTwist>(rng, s_fq2, &layout.b, group::KAPPA, &mut b);
        let ghost g6 = *rng;
        garble_check::<CurveG1>(rng, s_fq, &layout.c, group::KAPPA, &mut c);
        let ek = FieldEncodingInfo { a, b, c };
        proof {
            let l = the_layout();
            assert(layout.wf() && l.wf());
            lemma_garbles_point::<CurveG1>(
                a0,
                a,
                layout.a,
                l.a,
                group::N as nat,
                ek_g.a_coeffs@,
                ek_g.a_keys@,
                secret_el(*s),
            );
            lemma_garbles_point::<CurveTwist>(
                b0,
                b,
                layout.b,
                l.b,
                group::KAPPA as nat,
                ek_g.coeffs@,
                ek_g.b_keys@,
                secret_el(*s),
            );
            lemma_garbles_point::<CurveG1>(
                c0,
                c,
                layout.c,
                l.c,
                group::KAPPA as nat,
                ek_g.coeffs@,
                ek_g.c_keys@,
                secret_el(*s),
            );
            let g = seq![g0, g1, g2, g3, g4, g5, g6, *rng];
            self.lemma_parts_garbled_through(g, layout, *s, program, a0, b0, c0, ek, ek_g);
        }
        (program, ek, ek_g)
    }
}

// --------------------------------------------------------------- evaluation

/// The secret that a check value `z` and a nonzero `g` open to, if their quotient
/// fits a secret.
pub open spec fn check_opened(z: El, g: El) -> Option<Seq<u8>> {
    let q = z.times(inverse::inv(g));
    if q.c1 == 0 && q.c0 < 0x1_0000_0000_0000_0000_0000_0000_0000_0000int {
        Some(nums::le_bytes(q.c0, 16))
    } else {
        None
    }
}

/// Whether an output is the given one.
pub open spec fn output_is(out: Option<Secret>, expected: Option<Seq<u8>>) -> bool {
    match expected {
        Some(s) => out matches Some(t) && t@ == s,
        None => out is None,
    }
}

/// `z/g`, for `g` not zero.
fn quotient<F: Field>(z: F, g: F) -> (res: Option<F>)
    ensures
        res is None <==> g@ == El::num(0),
        res matches Some(q) ==> q@ == z@.times(inverse::inv(g@)),
{
    match g.inverse() {
        Some(gi) => {
            proof {
                g.lemma_view();
                gi.lemma_view();
                inverse::lemma_inv_unique(g@, gi@);
            }
            Some(z.mul(gi))
        },
        None => None,
    }
}

/// A secret with the value of a number is its bytes.
proof fn lemma_secret_bytes(s: Secret, n: int)
    requires
        nums::bytes_val(s@) == n,
    ensures
        s@ == nums::le_bytes(n, 16),
{
    nums::lemma_bytes_bound(s@);
    nums::lemma_le_bytes(n, 16);
    nums::lemma_bytes_unique(s@, nums::le_bytes(n, 16));
}

/// A check opens to exactly the secret whose multiple of `g` it is.
proof fn lemma_check_opens(z: El, g: El, s: Secret)
    requires
        z.reduced(),
        g.reduced(),
        g != El::num(0),
    ensures
        (check_opened(z, g) == Some(s@)) == (z == (El { c0: nums::bytes_val(s@), c1: 0 }).times(g)),
{
    let se = El { c0: nums::bytes_val(s@), c1: 0 };
    let gi = inverse::inv(g);
    let q = z.times(gi);
    nums::lemma_bytes_bound(s@);
    nums::lemma_pow256();
    inverse::lemma_inv(g);
    ring::lemma_reduced(z, gi);
    pointenc::lemma_factor_cancels(z, g, gi);
    pointenc::lemma_factor_cancels(se, g, gi);
    lemma_secret_bytes(s, nums::bytes_val(s@));
    if check_opened(z, g) == Some(s@) {
        nums::lemma_le_bytes(q.c0, 16);
    }
}

/// Recover `s` from the check value `z = s·g` and the public nonzero `g`, over `F_p`.
pub fn open_check(z: Fq, g: Fq) -> (res: Option<Secret>)
    requires
        g@ != El::num(0),
    ensures
        output_is(res, check_opened(z@, g@)),
        forall|s: Secret|
            (res matches Some(o) && o@ == s@) == (z@ == (El {
                c0: #[trigger] nums::bytes_val(s@),
                c1: 0,
            }).times(g@)),
{
    proof {
        z.lemma_view();
        g.lemma_view();
        assert forall|s: Secret|
            (check_opened(z@, g@) == Some(s@)) == (z@ == (El {
                c0: #[trigger] nums::bytes_val(s@),
                c1: 0,
            }).times(g@)) by {
            lemma_check_opens(z@, g@, s);
        }
    }

    match quotient(z, g) {
        Some(s) => {
            let out = fq_to_secret(s);
            proof {
                if let Some(t) = out {
                    lemma_secret_bytes(t, s@.c0);
                }
            }
            out
        },
        None => None,
    }
}

/// Recover `s` from the check value `z = s·g` and the public nonzero `g`, over
/// `F_{p^2}`: the quotient has to lie in `F_p`.
pub fn open_check_fq2(z: Fq2, g: Fq2) -> (res: Option<Secret>)
    requires
        g@ != El::num(0),
    ensures
        output_is(res, check_opened(z@, g@)),
        forall|s: Secret|
            (res matches Some(o) && o@ == s@) == (z@ == (El {
                c0: #[trigger] nums::bytes_val(s@),
                c1: 0,
            }).times(g@)),
{
    proof {
        z.lemma_view();
        g.lemma_view();
        assert forall|s: Secret|
            (check_opened(z@, g@) == Some(s@)) == (z@ == (El {
                c0: #[trigger] nums::bytes_val(s@),
                c1: 0,
            }).times(g@)) by {
            lemma_check_opens(z@, g@, s);
        }
    }

    match quotient(z, g) {
        Some(s) => {
            if s.c1.is_zero() {
                let out = fq_to_secret(s.c0);
                proof {
                    if let Some(t) = out {
                        lemma_secret_bytes(t, s@.c0);
                    }
                }
                out
            } else {
                None
            }
        },
        None => None,
    }
}

/// Whether an encoding has the lengths of the layout.
pub open spec fn field_lengths_fit(enc: FieldEncoding) -> bool {
    &&& enc.a.u@.len() == 7 * group::N + 3 && enc.a.v@.len() == 5 * group::N + 2
    &&& enc.b.u@.len() == 7 * group::KAPPA + 3 && enc.b.v@.len() == 5 * group::KAPPA + 2
    &&& enc.c.u@.len() == 7 * group::KAPPA + 3 && enc.c.v@.len() == 5 * group::KAPPA + 2
}

/// What the check of a point opens to.
pub open spec fn check_outcome<F: Field>(
    lay: PointLayout,
    vals: CoordValues<F>,
    u: El,
    v: El,
    b: El,
) -> Option<Seq<u8>> {
    check_opened(itpg::garbled_value(lay.check, vals, u, v), curve::equation(u, v, b))
}

/// Whether every entry of every point decodes.
pub open spec fn all_entries_decode(enc: FieldEncoding, x: ProofCoords) -> bool {
    let l = the_layout();
    &&& pointenc::entries_decode::<CurveG1>(l.a.entries@, enc.a, x.a.0@, x.a.1@)
    &&& pointenc::entries_decode::<CurveTwist>(l.b.entries@, enc.b, x.b.0@, x.b.1@)
    &&& pointenc::entries_decode::<CurveG1>(l.c.entries@, enc.c, x.c.0@, x.c.1@)
}

/// Whether these points are the values of the entries.
pub open spec fn entries_are<C: Curve>(
    lays: Seq<EntryLayout>,
    vals: CoordValues<C::F>,
    u: El,
    v: El,
    pts: Seq<C::Point>,
) -> bool {
    &&& pts.len() == lays.len()
    &&& forall|t: int|
        #![trigger pts[t]]
        0 <= t < lays.len() ==> pointenc::entry_value(lays[t], vals, u, v, C::beta()) == Some(
            pts[t]@,
        )
}

/// Whether `genc` is the group encoding that the entries decode to.
pub open spec fn decodes_to(enc: FieldEncoding, x: ProofCoords, genc: GroupEncoding) -> bool {
    let l = the_layout();
    &&& entries_are::<CurveG1>(l.a.entries@, enc.a, x.a.0@, x.a.1@, genc.a@)
    &&& entries_are::<CurveTwist>(l.b.entries@, enc.b, x.b.0@, x.b.1@, genc.b@)
    &&& entries_are::<CurveG1>(l.c.entries@, enc.c, x.c.0@, x.c.1@, genc.c@)
}

/// Evaluate one point's entries at the fixed layout.
fn eval_point<C: Curve>(
    lay: &PointLayout,
    Ghost(n): Ghost<nat>,
    vals: &CoordValues<C::F>,
    u: C::F,
    v: C::F,
    Ghost(any): Ghost<PointLayout>,
) -> (res: Option<Vec<C::Point>>)
    requires
        lay.wf(n),
        any.wf(n),
        vals.u@.len() == 7 * n + 3,
        vals.v@.len() == 5 * n + 2,
    ensures
        res is Some <==> pointenc::entries_decode::<C>(any.entries@, *vals, u@, v@),
        res matches Some(pts) ==> entries_are::<C>(any.entries@, *vals, u@, v@, pts@),
{
    proof {
        lemma_point_layout_fits(*lay, n);
        lemma_same_point_layout(*lay, any, n);
        assert forall|t: int|
            #![trigger lay.entries@[t]]
            #![trigger any.entries@[t]]
            0 <= t < n implies pointenc::entry_value(lay.entries@[t], *vals, u@, v@, C::beta())
            == pointenc::entry_value(any.entries@[t], *vals, u@, v@, C::beta()) by {
            pointenc::lemma_same_entry_value(
                lay.entries@[t],
                any.entries@[t],
                *vals,
                u@,
                v@,
                C::beta(),
            );
        }
    }
    let res = pointenc::eval_entries::<C>(lay.entries.as_slice(), vals, u, v);
    proof {
        if res is Some {
            assert forall|t: int| #![trigger any.entries@[t]] 0 <= t < n implies pointenc::entry_value(
                any.entries@[t],
                *vals,
                u@,
                v@,
                C::beta(),
            ) is Some by {
                assert(lay.entries@[t] == lay.entries@[t]);
            }
        } else if pointenc::entries_decode::<C>(any.entries@, *vals, u@, v@) {
            assert forall|t: int| #![trigger lay.entries@[t]] 0 <= t < n implies pointenc::entry_value(
                lay.entries@[t],
                *vals,
                u@,
                v@,
                C::beta(),
            ) is Some by {
                assert(any.entries@[t] == any.entries@[t]);
            }
        }
    }
    res
}

/// Evaluate one point's check at the fixed layout.
fn eval_check<F: Field>(
    lay: &PointLayout,
    Ghost(n): Ghost<nat>,
    vals: &CoordValues<F>,
    u: F,
    v: F,
    Ghost(any): Ghost<PointLayout>,
) -> (res: F)
    requires
        lay.wf(n),
        any.wf(n),
        vals.u@.len() == 7 * n + 3,
        vals.v@.len() == 5 * n + 2,
    ensures
        res@ == itpg::garbled_value(any.check, *vals, u@, v@),
{
    proof {
        lemma_point_layout_fits(*lay, n);
        lemma_same_point_layout(*lay, any, n);
        itpg::lemma_same_chains_value(
            lay.check,
            any.check,
            *vals,
            u@,
            v@,
            lay.check.chains@.len() as int,
        );
    }
    itpg::eval(&lay.check, vals, u, v)
}

impl Pgs for FieldScheme {
    type GarblerInput = Secret;

    type Input = ProofCoords;

    type Program = GroupProgram;

    type EncodingInfo = FieldEncodingInfo;

    type Encoding = FieldEncoding;

    type Output = Option<Secret>;

    open spec fn can_garble(&self, y: Secret) -> bool {
        self.group.vk.wf()
    }

    open spec fn garbled(&self, y: Secret, program: GroupProgram, ek: FieldEncodingInfo) -> bool {
        exists|ek_g: GroupEncodingInfo| #[trigger] self.parts_garbled(y, program, ek, ek_g)
    }

    open spec fn garbled_by(
        &self,
        before: StdRng,
        after: StdRng,
        y: Secret,
        program: GroupProgram,
        ek: FieldEncodingInfo,
    ) -> bool {
        exists|ek_g: GroupEncodingInfo| #[trigger]
            self.parts_garbled_by(before, after, y, program, ek, ek_g) && self.parts_garbled(
                y,
                program,
                ek,
                ek_g,
            )
    }

    open spec fn can_encode(&self, ek: FieldEncodingInfo, x: ProofCoords) -> bool {
        true
    }

    open spec fn encoded(
        &self,
        ek: FieldEncodingInfo,
        x: ProofCoords,
        enc: FieldEncoding,
    ) -> bool {
        &&& ek.a.encodes(enc.a, x.a.0@, x.a.1@)
        &&& ek.b.encodes(enc.b, x.b.0@, x.b.1@)
        &&& ek.c.encodes(enc.c, x.c.0@, x.c.1@)
    }

    open spec fn can_eval(
        &self,
        program: GroupProgram,
        enc: FieldEncoding,
        x: ProofCoords,
    ) -> bool {
        field_lengths_fit(enc) && x.on_curves() ==> self.group.vk.wf()
    }

    open spec fn evaluated(
        &self,
        program: GroupProgram,
        enc: FieldEncoding,
        x: ProofCoords,
        out: Option<Secret>,
    ) -> bool {
        let l = the_layout();
        if !field_lengths_fit(enc) {
            out is None
        } else if !x.a_on_curve() {
            output_is(out, check_outcome(l.a, enc.a, x.a.0@, x.a.1@, groups::beta1()))
        } else if !x.b_on_curve() {
            output_is(out, check_outcome(l.b, enc.b, x.b.0@, x.b.1@, groups::beta2()))
        } else if !x.c_on_curve() {
            output_is(out, check_outcome(l.c, enc.c, x.c.0@, x.c.1@, groups::beta1()))
        } else if all_entries_decode(enc, x) {
            exists|genc: GroupEncoding, pts: ProofPoints|
                #![trigger self.group.evaluated(program, genc, pts, out)]
                {
                    &&& x.are_coords_of(pts)
                    &&& pts.are_points()
                    &&& decodes_to(enc, x, genc)
                    &&& self.group.evaluated(program, genc, pts, out)
                }
        } else {
            out is None
        }
    }

    fn garble(&self, rng: &mut StdRng, s: &Secret) -> (res: (GroupProgram, FieldEncodingInfo)) {
        let ghost start = *rng;
        let (program, ek_f, ek_g) = self.garble_parts(rng, s);
        assert(self.parts_garbled_by(start, *rng, *s, program, ek_f, ek_g));
        assert(self.parts_garbled(*s, program, ek_f, ek_g));
        (program, ek_f)
    }

    fn encode(&self, ek: &FieldEncodingInfo, x: &ProofCoords) -> (res: FieldEncoding) {
        FieldEncoding {
            a: itpg::encode(&ek.a, x.a.0, x.a.1),
            b: itpg::encode(&ek.b, x.b.0, x.b.1),
            c: itpg::encode(&ek.c, x.c.0, x.c.1),
        }
    }

    fn eval(&self, program: &GroupProgram, enc: &FieldEncoding, x: &ProofCoords) -> (res: Option<
        Secret,
    >) {
        let layout = FieldLayout::new();
        let ghost l = the_layout();
        assert(l.wf());
        // The party that publishes the program is the one that wants disclosure
        // not to happen, so malformed garbled material must return bottom rather
        // than abort the challenger. The group layer guards its lengths the same
        // way.
        if enc.a.u.len() != layout.a.total.u || enc.a.v.len() != layout.a.total.v || enc.b.u.len()
            != layout.b.total.u || enc.b.v.len() != layout.b.total.v || enc.c.u.len()
            != layout.c.total.u || enc.c.v.len() != layout.c.total.v {
            return None;
        }
        let ghost (n, kappa) = (group::N as nat, group::KAPPA as nat);
        // The curve checks. Off a curve, the garbled value z_V = s·g_V(x) divided by
        // the public g_V(x) is s.
        let g_a = g1_eq(x.a.0, x.a.1);
        if !g_a.is_zero() {
            let z = eval_check(&layout.a, Ghost(n), &enc.a, x.a.0, x.a.1, Ghost(l.a));
            return open_check(z, g_a);
        }
        let g_b = g2_eq(x.b.0, x.b.1);
        if !g_b.is_zero() {
            let z = eval_check(&layout.b, Ghost(kappa), &enc.b, x.b.0, x.b.1, Ghost(l.b));
            return open_check_fq2(z, g_b);
        }
        let g_c = g1_eq(x.c.0, x.c.1);
        if !g_c.is_zero() {
            let z = eval_check(&layout.c, Ghost(kappa), &enc.c, x.c.0, x.c.1, Ghost(l.c));
            return open_check(z, g_c);
        }
        // On the curves: Π_G ∘ Π_1. The points exist since the equations vanish.

        let points = match x.to_points() {
            Some(p) => p,
            None => {
                return None;
            },
        };
        let a = match eval_point::<CurveG1>(
            &layout.a,
            Ghost(n),
            &enc.a,
            x.a.0,
            x.a.1,
            Ghost(l.a),
        ) {
            Some(pts) => pts,
            None => {
                return None;
            },
        };
        let b = match eval_point::<CurveTwist>(
            &layout.b,
            Ghost(kappa),
            &enc.b,
            x.b.0,
            x.b.1,
            Ghost(l.b),
        ) {
            Some(pts) => pts,
            None => {
                return None;
            },
        };
        let c = match eval_point::<CurveG1>(
            &layout.c,
            Ghost(kappa),
            &enc.c,
            x.c.0,
            x.c.1,
            Ghost(l.c),
        ) {
            Some(pts) => pts,
            None => {
                return None;
            },
        };
        let group_encoding = GroupEncoding { a, b, c };
        let out = self.group.eval(program, &group_encoding, &points);
        assert(self.group.evaluated(*program, group_encoding, points, out));
        out
    }
}

// --------------------------------------------------------------------- laws

/// The check polynomial takes the value `s·g(u, v)`.
proof fn lemma_check_value<F: Field>(poly: Poly<F>, s: El, b: El, u: El, v: El)
    requires
        is_check_poly(poly, s, b),
        s.reduced(),
        b.reduced(),
        u.reduced(),
        v.reduced(),
    ensures
        itpg::poly_value(poly, check_monomials(), u, v) == s.times(curve::equation(u, v, b)),
{
    let n = s.opp();
    let (vv, uuu) = (v.times(v), u.times(u).times(u));
    assert(poly.coeffs@[0]@ == s && poly.coeffs@[1]@ == n);
    ring::lemma_reduced(s, v);
    // the two terms
    assert(itpg::term(s, Monomial { du: 0, dv: 2 }, u, v) == s.times(vv)) by {
        reveal_with_fuel(El::power, 3);
        ring::lemma_times_one(s);
        ring::lemma_times_one(v);
    }
    assert(itpg::term(n, Monomial { du: 3, dv: 0 }, u, v) == s.times(uuu).opp()) by {
        reveal_with_fuel(El::power, 4);
        ring::lemma_times_one(u);
        ring::lemma_times_opp(uuu, s);
        ring::lemma_times_comm(uuu, s);
        ring::lemma_reduced(n, uuu);
        ring::lemma_times_one(n.times(uuu));
    }
    assert(itpg::poly_value(poly, check_monomials(), u, v) == n.times(b).plus(s.times(vv)).plus(
        s.times(uuu).opp(),
    )) by {
        reveal_with_fuel(itpg::poly_sum, 3);
    }
    // −s·b + s·v² − s·u³ = s·(v² − u³ − b)
    ring::lemma_times_opp(b, s);
    ring::lemma_times_comm(b, s);
    let (sv, su, sb) = (s.times(vv), s.times(uuu), s.times(b));
    ring::lemma_times_minus(s, vv.minus(uuu), b);
    ring::lemma_times_minus(s, vv, uuu);
    ring::lemma_minus_opp(sv, su);
    ring::lemma_minus_opp(sv.minus(su), sb);
    ring::lemma_plus_assoc(sb.opp(), sv, su.opp());
    ring::lemma_plus_comm(sb.opp(), sv.plus(su.opp()));
}

/// Off a curve, the check of an honest encoding opens to the secret.
proof fn lemma_check_discloses<C: Curve>(
    ek: CoordLabels<C::F>,
    lay: PointLayout,
    n: nat,
    coeffs: Seq<bool>,
    keys: Seq<C::Point>,
    s: Secret,
    vals: CoordValues<C::F>,
    u: El,
    v: El,
)
    requires
        lay.wf(n),
        garbles_point::<C>(ek, lay, n, coeffs, keys, secret_el(s)),
        ek.encodes(vals, u, v),
        u.reduced(),
        v.reduced(),
        !points::on_curve(u, v, C::beta()),
    ensures
        check_outcome(lay, vals, u, v, C::beta()) == Some(s@),
{
    let b = C::beta();
    let se = secret_el(s);
    let g = curve::equation(u, v, b);
    C::lemma_beta();
    nums::lemma_bytes_bound(s@);
    nums::lemma_pow256();
    assert(se.reduced());
    let poly = choose|poly: Poly<C::F>| #[trigger]
        is_check_poly(poly, se, b) && itpg::garbles(ek, lay.check, poly);
    assert(check_monomials()[0].deg() > 0 && check_monomials()[1].deg() > 0);
    itpg::law_garbling_is_correct(
        ek,
        lay.check,
        vals,
        poly,
        check_monomials(),
        7 * n,
        5 * n,
        u,
        v,
    );
    lemma_check_value(poly, se, b, u, v);
    curve::law_equation_vanishes_on_curve(u, v, b);
    ring::lemma_reduced(v.times(v).minus(u.times(u).times(u)), b);
    inverse::lemma_inv(g);
    ring::lemma_times_assoc(se, g, inverse::inv(g));
    ring::lemma_times_one(se);
    lemma_secret_bytes(s, nums::bytes_val(s@));
}

impl FieldScheme {
    /// An input off any of the curves discloses: evaluating an honest encoding
    /// gives the secret, also where the secret is zero.
    pub proof fn law_off_curve_discloses(
        self,
        s: Secret,
        program: GroupProgram,
        ek: FieldEncodingInfo,
        x: ProofCoords,
        enc: FieldEncoding,
        out: Option<Secret>,
    )
        requires
            self.garbled(s, program, ek),
            self.encoded(ek, x, enc),
            self.evaluated(program, enc, x, out),
            !x.on_curves(),
        ensures
            out matches Some(t) && t@ == s@,
    {
        let ek_g = choose|ek_g: GroupEncodingInfo| #[trigger]
            self.parts_garbled(s, program, ek, ek_g);
        let l = the_layout();
        x.a.0.lemma_view();
        x.a.1.lemma_view();
        x.b.0.lemma_view();
        x.b.1.lemma_view();
        x.c.0.lemma_view();
        x.c.1.lemma_view();
        if !x.a_on_curve() {
            lemma_check_discloses::<CurveG1>(
                ek.a,
                l.a,
                group::N as nat,
                ek_g.a_coeffs@,
                ek_g.a_keys@,
                s,
                enc.a,
                x.a.0@,
                x.a.1@,
            );
        } else if !x.b_on_curve() {
            lemma_check_discloses::<CurveTwist>(
                ek.b,
                l.b,
                group::KAPPA as nat,
                ek_g.coeffs@,
                ek_g.b_keys@,
                s,
                enc.b,
                x.b.0@,
                x.b.1@,
            );
        } else {
            lemma_check_discloses::<CurveG1>(
                ek.c,
                l.c,
                group::KAPPA as nat,
                ek_g.coeffs@,
                ek_g.c_keys@,
                s,
                enc.c,
                x.c.0@,
                x.c.1@,
            );
        }
    }

    /// Whether these are the coordinates of a valid proof.
    pub open spec fn valid_coords(self, x: ProofCoords) -> bool {
        x.on_curves() && self.group.vk.valid_at(
            Pt::At(x.a.0@, x.a.1@),
            Pt::At(x.b.0@, x.b.1@),
            Pt::At(x.c.0@, x.c.1@),
        )
    }

    /// Whether no hash collides on the values that evaluation compares.
    pub open spec fn no_collision(
        self,
        program: GroupProgram,
        enc: FieldEncoding,
        x: ProofCoords,
    ) -> bool {
        forall|genc: GroupEncoding, pts: ProofPoints|
            #![trigger decodes_to(enc, x, genc), x.are_coords_of(pts)]
            decodes_to(enc, x, genc) && x.are_coords_of(pts) && groups::in_subgroup(pts.b@)
                ==> self.group.candidates_differ(program, genc, pts)
    }

    /// On the curves, every entry of an honest encoding decodes to `c·V + K`.
    proof fn lemma_honest_entries(
        self,
        s: Secret,
        program: GroupProgram,
        ek: FieldEncodingInfo,
        ek_g: GroupEncodingInfo,
        x: ProofCoords,
        enc: FieldEncoding,
    )
        requires
            self.parts_garbled(s, program, ek, ek_g),
            self.encoded(ek, x, enc),
            x.on_curves(),
        ensures
            field_lengths_fit(enc),
            all_entries_decode(enc, x),
            ({
                let l = the_layout();
                &&& pointenc::entries_decode_to::<CurveG1>(
                    l.a.entries@,
                    enc.a,
                    x.a.0@,
                    x.a.1@,
                    ek_g.a_coeffs@,
                    ek_g.a_keys@,
                )
                &&& pointenc::entries_decode_to::<CurveTwist>(
                    l.b.entries@,
                    enc.b,
                    x.b.0@,
                    x.b.1@,
                    ek_g.coeffs@,
                    ek_g.b_keys@,
                )
                &&& pointenc::entries_decode_to::<CurveG1>(
                    l.c.entries@,
                    enc.c,
                    x.c.0@,
                    x.c.1@,
                    ek_g.coeffs@,
                    ek_g.c_keys@,
                )
            }),
    {
        let l = the_layout();
        let k = choose|k: int| #[trigger] self.group.garbled_with(s, program, ek_g, k);
        assert(self.group.garbled_with(s, program, ek_g, k));
        x.a.0.lemma_view();
        x.a.1.lemma_view();
        x.b.0.lemma_view();
        x.b.1.lemma_view();
        x.c.0.lemma_view();
        x.c.1.lemma_view();
        pointenc::law_entries_are_correct::<CurveG1>(
            ek.a,
            l.a.entries@,
            enc.a,
            0,
            0,
            ek_g.a_coeffs@,
            ek_g.a_keys@,
            x.a.0@,
            x.a.1@,
        );
        pointenc::law_entries_are_correct::<CurveTwist>(
            ek.b,
            l.b.entries@,
            enc.b,
            0,
            0,
            ek_g.coeffs@,
            ek_g.b_keys@,
            x.b.0@,
            x.b.1@,
        );
        pointenc::law_entries_are_correct::<CurveG1>(
            ek.c,
            l.c.entries@,
            enc.c,
            0,
            0,
            ek_g.coeffs@,
            ek_g.c_keys@,
            x.c.0@,
            x.c.1@,
        );
    }

    /// What an honest encoding decodes to is the group encoding of the points.
    proof fn lemma_decoded_is_encoded(
        self,
        s: Secret,
        program: GroupProgram,
        ek: FieldEncodingInfo,
        ek_g: GroupEncodingInfo,
        x: ProofCoords,
        enc: FieldEncoding,
        pts: ProofPoints,
        genc: GroupEncoding,
    )
        requires
            self.parts_garbled(s, program, ek, ek_g),
            self.encoded(ek, x, enc),
            x.on_curves(),
            x.are_coords_of(pts),
            pts.are_points(),
            decodes_to(enc, x, genc),
        ensures
            self.group.encoded(ek_g, pts, genc),
    {
        let l = the_layout();
        let k = choose|k: int| #[trigger] self.group.garbled_with(s, program, ek_g, k);
        assert(self.group.garbled_with(s, program, ek_g, k));
        self.lemma_honest_entries(s, program, ek, ek_g, x, enc);
        assert forall|i: int| 0 <= i < genc.a@.len() implies groups::is_g1(ek_g.a_keys@[i]@)
            && (#[trigger] genc.a@[i])@ == pointenc::coefficient_times(
            ek_g.a_coeffs@[i],
            pts.a@,
        ).plus(ek_g.a_keys@[i]@) by {
            assert(l.a.entries@[i] == l.a.entries@[i]);
        }
        assert forall|t: int| 0 <= t < genc.b@.len() implies groups::is_twist(ek_g.b_keys@[t]@)
            && (#[trigger] genc.b@[t])@ == pointenc::coefficient_times(
            ek_g.coeffs@[t],
            pts.b@,
        ).plus(ek_g.b_keys@[t]@) by {
            assert(l.b.entries@[t] == l.b.entries@[t]);
        }
        assert forall|t: int| 0 <= t < genc.c@.len() implies groups::is_g1(ek_g.c_keys@[t]@)
            && (#[trigger] genc.c@[t])@ == pointenc::coefficient_times(
            ek_g.coeffs@[t],
            pts.c@,
        ).plus(ek_g.c_keys@[t]@) by {
            assert(l.c.entries@[t] == l.c.entries@[t]);
        }
        group::lemma_encoded_by_points(ek_g, pts, genc);
    }

    /// On the curves the scheme is the scheme over groups: evaluating an honest
    /// encoding of the coordinates gives what the group scheme gives on its own
    /// encoding of the points, also for points chosen to meet the masks.
    pub proof fn law_on_curve_is_the_group_scheme(
        self,
        s: Secret,
        program: GroupProgram,
        ek: FieldEncodingInfo,
        ek_g: GroupEncodingInfo,
        x: ProofCoords,
        enc: FieldEncoding,
        out: Option<Secret>,
        pts: ProofPoints,
        genc: GroupEncoding,
    )
        requires
            self.parts_garbled(s, program, ek, ek_g),
            self.encoded(ek, x, enc),
            self.evaluated(program, enc, x, out),
            x.on_curves(),
            x.are_coords_of(pts),
            self.group.encoded(ek_g, pts, genc),
        ensures
            self.group.evaluated(program, genc, pts, out),
    {
        let k = choose|k: int| #[trigger] self.group.garbled_with(s, program, ek_g, k);
        assert(self.group.garbled_with(s, program, ek_g, k));
        self.lemma_honest_entries(s, program, ek, ek_g, x, enc);
        let (genc1, pts1) = choose|genc1: GroupEncoding, pts1: ProofPoints|
            #![trigger self.group.evaluated(program, genc1, pts1, out)]
            {
                &&& x.are_coords_of(pts1)
                &&& pts1.are_points()
                &&& decodes_to(enc, x, genc1)
                &&& self.group.evaluated(program, genc1, pts1, out)
            };
        self.lemma_decoded_is_encoded(s, program, ek, ek_g, x, enc, pts1, genc1);
        assert forall|i: int| 0 <= i < genc1.a@.len() implies (#[trigger] genc1.a@[i])@
            == genc.a@[i]@ by {
            assert(group::g1_encoded(
                ek_g.a_coeffs@[i],
                pts.a@,
                ek_g.a_keys@[i]@,
                genc.a@[i]@,
            ));
        }
        assert forall|t: int| 0 <= t < genc1.b@.len() implies (#[trigger] genc1.b@[t])@
            == genc.b@[t]@ by {
            assert(group::twist_encoded(ek_g.coeffs@[t], pts.b@, ek_g.b_keys@[t]@, genc.b@[t]@));
        }
        assert forall|t: int| 0 <= t < genc1.c@.len() implies (#[trigger] genc1.c@[t])@
            == genc.c@[t]@ by {
            assert(group::g1_encoded(ek_g.coeffs@[t], pts.c@, ek_g.c_keys@[t]@, genc.c@[t]@));
        }
        self.group.law_outcome_by_points(program, genc1, pts1, genc, pts);
    }

    /// A valid proof seals: evaluation gives nothing, whatever the program and the
    /// encoding are.
    pub proof fn law_valid_proof_seals(
        self,
        program: GroupProgram,
        x: ProofCoords,
        enc: FieldEncoding,
        out: Option<Secret>,
    )
        requires
            self.evaluated(program, enc, x, out),
            self.valid_coords(x),
        ensures
            out is None,
    {
        if field_lengths_fit(enc) && all_entries_decode(enc, x) {
            let (genc, pts) = choose|genc: GroupEncoding, pts: ProofPoints|
                #![trigger self.group.evaluated(program, genc, pts, out)]
                {
                    &&& x.are_coords_of(pts)
                    &&& pts.are_points()
                    &&& decodes_to(enc, x, genc)
                    &&& self.group.evaluated(program, genc, pts, out)
                };
            self.group.law_valid_proof_seals(program, genc, pts);
        }
    }

    /// An invalid proof on the curves discloses: evaluating an honest encoding gives
    /// the secret, also for coordinates chosen after the masks are known, as long as
    /// no hash collides on the values compared.
    pub proof fn law_invalid_proof_discloses(
        self,
        s: Secret,
        program: GroupProgram,
        ek: FieldEncodingInfo,
        x: ProofCoords,
        enc: FieldEncoding,
        out: Option<Secret>,
    )
        requires
            self.group.vk.wf(),
            self.garbled(s, program, ek),
            self.encoded(ek, x, enc),
            self.evaluated(program, enc, x, out),
            x.on_curves(),
            !self.valid_coords(x),
            self.no_collision(program, enc, x),
        ensures
            out matches Some(t) && t@ == s@,
    {
        let ek_g = choose|ek_g: GroupEncodingInfo| #[trigger]
            self.parts_garbled(s, program, ek, ek_g);
        self.lemma_honest_entries(s, program, ek, ek_g, x, enc);
        let (genc, pts) = choose|genc: GroupEncoding, pts: ProofPoints|
            #![trigger self.group.evaluated(program, genc, pts, out)]
            {
                &&& x.are_coords_of(pts)
                &&& pts.are_points()
                &&& decodes_to(enc, x, genc)
                &&& self.group.evaluated(program, genc, pts, out)
            };
        self.lemma_decoded_is_encoded(s, program, ek, ek_g, x, enc, pts, genc);
        if groups::in_subgroup(pts.b@) {
            assert(self.group.candidates_differ(program, genc, pts));
            self.group.law_invalid_proof_discloses(s, program, ek_g, pts, genc);
        } else {
            self.group.law_off_subgroup_discloses(s, program, ek_g, pts, genc);
        }
    }

    /// What evaluating an honest encoding gives, for any six coordinates, on or off the
    /// curves: nothing exactly for a valid proof, and else the secret, as long as no
    /// hash collides on the values compared.
    pub proof fn law_honest_outcome(
        self,
        s: Secret,
        program: GroupProgram,
        ek: FieldEncodingInfo,
        x: ProofCoords,
        enc: FieldEncoding,
        out: Option<Secret>,
    )
        requires
            self.group.vk.wf(),
            self.garbled(s, program, ek),
            self.encoded(ek, x, enc),
            self.evaluated(program, enc, x, out),
            self.no_collision(program, enc, x),
        ensures
            out is None <==> self.valid_coords(x),
            !self.valid_coords(x) ==> (out matches Some(t) && t@ == s@),
    {
        if self.valid_coords(x) {
            self.law_valid_proof_seals(program, x, enc, out);
        } else if x.on_curves() {
            self.law_invalid_proof_discloses(s, program, ek, x, enc, out);
        } else {
            self.law_off_curve_discloses(s, program, ek, x, enc, out);
        }
    }

    /// Malformed material gives nothing: an encoding of any other lengths evaluates
    /// to `None`, in particular the empty one.
    pub proof fn law_wrong_lengths_give_nothing(
        self,
        program: GroupProgram,
        x: ProofCoords,
        enc: FieldEncoding,
        out: Option<Secret>,
    )
        requires
            self.evaluated(program, enc, x, out),
            !(enc.a.u@.len() == 7 * 254 + 3 && enc.a.v@.len() == 5 * 254 + 2 && enc.b.u@.len() == 7
                * 128 + 3 && enc.b.v@.len() == 5 * 128 + 2 && enc.c.u@.len() == 7 * 128 + 3
                && enc.c.v@.len() == 5 * 128 + 2),
        ensures
            out is None,
    {
    }
}

impl FieldScheme {
    /// Whether SHA-256 does not collide on the different messages that evaluation compares.
    pub open spec fn digests_told_apart(
        self,
        program: GroupProgram,
        enc: FieldEncoding,
        x: ProofCoords,
    ) -> bool {
        forall|genc: GroupEncoding, pts: ProofPoints|
            #![trigger decodes_to(enc, x, genc), x.are_coords_of(pts)]
            decodes_to(enc, x, genc) && x.are_coords_of(pts) && groups::in_subgroup(pts.b@)
                ==> self.group.digests_told_apart(program, genc, pts)
    }

    /// Six coordinates seal exactly where each pair is on its curve, `B` lies in `G_2` and
    /// `log A · log B + log C · log H_1 − log D` is zero modulo `r`: evaluating an honest
    /// encoding gives nothing there, and everywhere else the secret, as long as SHA-256 tells
    /// the different messages apart that evaluation compares.
    pub proof fn law_seals_exactly_at_zero(
        self,
        s: Secret,
        program: GroupProgram,
        ek: FieldEncodingInfo,
        x: ProofCoords,
        enc: FieldEncoding,
        out: Option<Secret>,
    )
        requires
            self.group.vk.wf(),
            self.garbled(s, program, ek),
            self.encoded(ek, x, enc),
            self.evaluated(program, enc, x, out),
            self.digests_told_apart(program, enc, x),
        ensures
            out is None <==> (points::on_curve(x.a.0@, x.a.1@, groups::beta1()) && points::on_curve(
                x.b.0@,
                x.b.1@,
                groups::beta2(),
            ) && points::on_curve(x.c.0@, x.c.1@, groups::beta1()) && groups::in_subgroup(
                Pt::At(x.b.0@, x.b.1@),
            ) && (groups::g1_log(Pt::At(x.a.0@, x.a.1@)) * groups::g2_log(Pt::At(x.b.0@, x.b.1@))
                + groups::g1_log(Pt::At(x.c.0@, x.c.1@)) * groups::g2_log(self.group.vk.h1@)
                - groups::gt_log(self.group.vk.d@)) % ring::r() == 0),
            !(points::on_curve(x.a.0@, x.a.1@, groups::beta1()) && points::on_curve(
                x.b.0@,
                x.b.1@,
                groups::beta2(),
            ) && points::on_curve(x.c.0@, x.c.1@, groups::beta1()) && groups::in_subgroup(
                Pt::At(x.b.0@, x.b.1@),
            ) && (groups::g1_log(Pt::At(x.a.0@, x.a.1@)) * groups::g2_log(Pt::At(x.b.0@, x.b.1@))
                + groups::g1_log(Pt::At(x.c.0@, x.c.1@)) * groups::g2_log(self.group.vk.h1@)
                - groups::gt_log(self.group.vk.d@)) % ring::r() == 0) ==> (out matches Some(o) && o@ == s@),
    {
        if x.on_curves() {
            let ek_g = choose|ek_g: GroupEncodingInfo| #[trigger]
                self.parts_garbled(s, program, ek, ek_g);
            self.lemma_honest_entries(s, program, ek, ek_g, x, enc);
            let (genc, pts) = choose|genc: GroupEncoding, pts: ProofPoints|
                #![trigger self.group.evaluated(program, genc, pts, out)]
                {
                    &&& x.are_coords_of(pts)
                    &&& pts.are_points()
                    &&& decodes_to(enc, x, genc)
                    &&& self.group.evaluated(program, genc, pts, out)
                };
            self.lemma_decoded_is_encoded(s, program, ek, ek_g, x, enc, pts, genc);
            if groups::in_subgroup(pts.b@) {
                self.group.law_seals_exactly_at_zero(s, program, ek_g, pts, genc, out);
            } else {
                self.group.law_off_subgroup_gives_the_secret(s, program, ek_g, pts, genc, out);
            }
        } else {
            self.law_off_curve_discloses(s, program, ek, x, enc, out);
        }
    }

    /// Whoever made the program and the encoding, coordinates of points with `B` in `G_2`
    /// and `log A · log B + log C · log H_1 − log D` zero modulo `r` give nothing.
    pub proof fn law_zero_gives_nothing(
        self,
        program: GroupProgram,
        x: ProofCoords,
        enc: FieldEncoding,
        out: Option<Secret>,
    )
        requires
            self.evaluated(program, enc, x, out),
            points::on_curve(x.a.0@, x.a.1@, groups::beta1()),
            points::on_curve(x.b.0@, x.b.1@, groups::beta2()),
            points::on_curve(x.c.0@, x.c.1@, groups::beta1()),
            groups::in_subgroup(Pt::At(x.b.0@, x.b.1@)),
            (groups::g1_log(Pt::At(x.a.0@, x.a.1@)) * groups::g2_log(Pt::At(x.b.0@, x.b.1@))
                + groups::g1_log(Pt::At(x.c.0@, x.c.1@)) * groups::g2_log(self.group.vk.h1@)
                - groups::gt_log(self.group.vk.d@)) % ring::r() == 0,
        ensures
            out is None,
    {
        self.law_valid_proof_seals(program, x, enc, out);
    }
}

impl FieldScheme {
    /// Where `A` is off its curve, whoever made the labels, evaluation gives
    /// exactly the secret whose multiple of `v² − u³ − b` the check of `A` comes out at, and
    /// nothing if there is none.
    pub proof fn law_check_of_a_opens(
        self,
        program: GroupProgram,
        x: ProofCoords,
        enc: FieldEncoding,
        out: Option<Secret>,
        s: Secret,
    )
        requires
            self.evaluated(program, enc, x, out),
            enc.a.u@.len() == 7 * 254 + 3 && enc.a.v@.len() == 5 * 254 + 2 && enc.b.u@.len() == 7
                * 128 + 3 && enc.b.v@.len() == 5 * 128 + 2 && enc.c.u@.len() == 7 * 128 + 3
                && enc.c.v@.len() == 5 * 128 + 2,
            !points::on_curve(x.a.0@, x.a.1@, groups::beta1()),
        ensures
            (out matches Some(o) && o@ == s@) == (itpg::garbled_value(
                the_layout().a.check,
                enc.a,
                x.a.0@,
                x.a.1@,
            ) == (El { c0: nums::bytes_val(s@), c1: 0 }).times(
                x.a.1@.times(x.a.1@).minus(x.a.0@.times(x.a.0@).times(x.a.0@)).minus(
                    groups::beta1(),
                ),
            )),
    {
        let (lay, vals, u, v, b) = (
            the_layout().a.check,
            enc.a,
            x.a.0@,
            x.a.1@,
            groups::beta1(),
        );
        <CurveG1 as Curve>::lemma_beta();
        x.a.0.lemma_view();
        x.a.1.lemma_view();
        curve::law_equation_vanishes_on_curve(u, v, b);
        ring::lemma_reduced(v.times(v).minus(u.times(u).times(u)), b);
        itpg::lemma_value_reduced(lay, vals, u, v, lay.chains@.len() as int);
        lemma_check_opens(itpg::garbled_value(lay, vals, u, v), curve::equation(u, v, b), s);
    }

    /// Where `B` is the first point off its curve, whoever made the labels, evaluation gives
    /// exactly the secret whose multiple of `v² − u³ − b` the check of `B` comes out at, and
    /// nothing if there is none.
    pub proof fn law_check_of_b_opens(
        self,
        program: GroupProgram,
        x: ProofCoords,
        enc: FieldEncoding,
        out: Option<Secret>,
        s: Secret,
    )
        requires
            self.evaluated(program, enc, x, out),
            enc.a.u@.len() == 7 * 254 + 3 && enc.a.v@.len() == 5 * 254 + 2 && enc.b.u@.len() == 7
                * 128 + 3 && enc.b.v@.len() == 5 * 128 + 2 && enc.c.u@.len() == 7 * 128 + 3
                && enc.c.v@.len() == 5 * 128 + 2,
            points::on_curve(x.a.0@, x.a.1@, groups::beta1()),
            !points::on_curve(x.b.0@, x.b.1@, groups::beta2()),
        ensures
            (out matches Some(o) && o@ == s@) == (itpg::garbled_value(
                the_layout().b.check,
                enc.b,
                x.b.0@,
                x.b.1@,
            ) == (El { c0: nums::bytes_val(s@), c1: 0 }).times(
                x.b.1@.times(x.b.1@).minus(x.b.0@.times(x.b.0@).times(x.b.0@)).minus(
                    groups::beta2(),
                ),
            )),
    {
        let (lay, vals, u, v, b) = (
            the_layout().b.check,
            enc.b,
            x.b.0@,
            x.b.1@,
            groups::beta2(),
        );
        <CurveTwist as Curve>::lemma_beta();
        x.b.0.lemma_view();
        x.b.1.lemma_view();
        curve::law_equation_vanishes_on_curve(u, v, b);
        ring::lemma_reduced(v.times(v).minus(u.times(u).times(u)), b);
        itpg::lemma_value_reduced(lay, vals, u, v, lay.chains@.len() as int);
        lemma_check_opens(itpg::garbled_value(lay, vals, u, v), curve::equation(u, v, b), s);
    }

    /// Where `C` is the first point off its curve, whoever made the labels, evaluation gives
    /// exactly the secret whose multiple of `v² − u³ − b` the check of `C` comes out at, and
    /// nothing if there is none.
    pub proof fn law_check_of_c_opens(
        self,
        program: GroupProgram,
        x: ProofCoords,
        enc: FieldEncoding,
        out: Option<Secret>,
        s: Secret,
    )
        requires
            self.evaluated(program, enc, x, out),
            enc.a.u@.len() == 7 * 254 + 3 && enc.a.v@.len() == 5 * 254 + 2 && enc.b.u@.len() == 7
                * 128 + 3 && enc.b.v@.len() == 5 * 128 + 2 && enc.c.u@.len() == 7 * 128 + 3
                && enc.c.v@.len() == 5 * 128 + 2,
            points::on_curve(x.a.0@, x.a.1@, groups::beta1()),
            points::on_curve(x.b.0@, x.b.1@, groups::beta2()),
            !points::on_curve(x.c.0@, x.c.1@, groups::beta1()),
        ensures
            (out matches Some(o) && o@ == s@) == (itpg::garbled_value(
                the_layout().c.check,
                enc.c,
                x.c.0@,
                x.c.1@,
            ) == (El { c0: nums::bytes_val(s@), c1: 0 }).times(
                x.c.1@.times(x.c.1@).minus(x.c.0@.times(x.c.0@).times(x.c.0@)).minus(
                    groups::beta1(),
                ),
            )),
    {
        let (lay, vals, u, v, b) = (
            the_layout().c.check,
            enc.c,
            x.c.0@,
            x.c.1@,
            groups::beta1(),
        );
        <CurveG1 as Curve>::lemma_beta();
        x.c.0.lemma_view();
        x.c.1.lemma_view();
        curve::law_equation_vanishes_on_curve(u, v, b);
        ring::lemma_reduced(v.times(v).minus(u.times(u).times(u)), b);
        itpg::lemma_value_reduced(lay, vals, u, v, lay.chains@.len() as int);
        lemma_check_opens(itpg::garbled_value(lay, vals, u, v), curve::equation(u, v, b), s);
    }

    /// On the curves one entry that stands for no point is enough: nothing comes out, whoever
    /// made the labels and whichever entry it is.
    pub proof fn law_one_bad_entry_gives_nothing(
        self,
        program: GroupProgram,
        x: ProofCoords,
        enc: FieldEncoding,
        out: Option<Secret>,
        layout: FieldLayout,
        t: int,
    )
        requires
            layout.wf(),
            self.evaluated(program, enc, x, out),
            points::on_curve(x.a.0@, x.a.1@, groups::beta1()),
            points::on_curve(x.b.0@, x.b.1@, groups::beta2()),
            points::on_curve(x.c.0@, x.c.1@, groups::beta1()),
            ({
                &&& 0 <= t < 254
                &&& !(pointenc::decoded(
                    itpg::garbled_value(the_layout().a.entries@[t].polys@[0], enc.a, x.a.0@, x.a.1@),
                    itpg::garbled_value(the_layout().a.entries@[t].polys@[1], enc.a, x.a.0@, x.a.1@),
                    itpg::garbled_value(the_layout().a.entries@[t].polys@[2], enc.a, x.a.0@, x.a.1@),
                    Pt::At(x.a.0@, x.a.1@),
                    groups::beta1(),
                ) is Some)
            }) || ({
                &&& 0 <= t < 128
                &&& !(pointenc::decoded(
                    itpg::garbled_value(the_layout().b.entries@[t].polys@[0], enc.b, x.b.0@, x.b.1@),
                    itpg::garbled_value(the_layout().b.entries@[t].polys@[1], enc.b, x.b.0@, x.b.1@),
                    itpg::garbled_value(the_layout().b.entries@[t].polys@[2], enc.b, x.b.0@, x.b.1@),
                    Pt::At(x.b.0@, x.b.1@),
                    groups::beta2(),
                ) is Some)
            }) || ({
                &&& 0 <= t < 128
                &&& !(pointenc::decoded(
                    itpg::garbled_value(the_layout().c.entries@[t].polys@[0], enc.c, x.c.0@, x.c.1@),
                    itpg::garbled_value(the_layout().c.entries@[t].polys@[1], enc.c, x.c.0@, x.c.1@),
                    itpg::garbled_value(the_layout().c.entries@[t].polys@[2], enc.c, x.c.0@, x.c.1@),
                    Pt::At(x.c.0@, x.c.1@),
                    groups::beta1(),
                ) is Some)
            }),
        ensures
            out is None,
    {
        if field_lengths_fit(enc) {
            let l = the_layout();
            assert(layout.wf() && l.wf());
            assert(l.a.entries@[t] == l.a.entries@[t] && l.b.entries@[t] == l.b.entries@[t]
                && l.c.entries@[t] == l.c.entries@[t]);
        }
    }
}

/// The check of a point takes the value `s·(v² − u³ − b)` on all coordinates, so that it is
/// zero on the curve and a multiple of the secret that is not off it.
pub proof fn law_check_takes_the_multiple<F: Field>(poly: Poly<F>, s: El, b: El, u: El, v: El)
    requires
        is_check_poly(poly, s, b),
        s.reduced(),
        b.reduced(),
        u.reduced(),
        v.reduced(),
    ensures
        itpg::poly_value(
            poly,
            seq![Monomial { du: 0, dv: 2 }, Monomial { du: 3, dv: 0 }],
            u,
            v,
        ) == s.times(v.times(v).minus(u.times(u).times(u)).minus(b)),
        points::on_curve(u, v, b) ==> itpg::poly_value(
            poly,
            seq![Monomial { du: 0, dv: 2 }, Monomial { du: 3, dv: 0 }],
            u,
            v,
        ) == El::num(0),
        !points::on_curve(u, v, b) && s != El::num(0) ==> itpg::poly_value(
            poly,
            seq![Monomial { du: 0, dv: 2 }, Monomial { du: 3, dv: 0 }],
            u,
            v,
        ) != El::num(0),
{
    lemma_check_value(poly, s, b, u, v);
    curve::law_equation_vanishes_on_curve(u, v, b);
    ring::lemma_times_zero(s);
    ring::lemma_reduced(v.times(v).minus(u.times(u).times(u)), b);
    inverse::lemma_no_zero_divisors(s, curve::equation(u, v, b));
}

} // verus!
