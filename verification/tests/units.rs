//! The building blocks one by one: polynomial garbling, the coordinate encoder,
//! layouts, and the arithmetic of the bit layer.

use ark_ec::short_weierstrass::SWCurveConfig;
use ark_ff::{BigInteger, PrimeField};
use ark_std::rand::rngs::StdRng;
use ark_std::rand::SeedableRng;
use sha2::Digest;
use grover::bits::{
    join, maps_fq, mod_small, pow2, sample_mus, size_report, smudging_fits, smudging_fits_at,
    split_fq2, split_fq2_with, BinToField, BitEncoder, Block, ProofBits, SizeReport,
    FIRST_82_PRIMES, MU_BITS, N_BASE, NUM_BLOCKS, RHO, W,
};
use grover::curve::{
    b1, b2, block_to_fq, fq_limbs, fq_to_block, fq_to_secret, g1_coords, g1_eq, g1_from_coords,
    g2_eq, h_com, h_key, in_g2, multi_pair, p_limbs, pair, r_times, secret_to_fq, twist_coords,
    twist_from_coords, xor, Secret, Twist, G1, LAMBDA,
};
use grover::elems::{Field, Fq, Fq2, Fr};
use grover::field::{check_poly, check_shape, open_check, open_check_fq2, FieldLayout, PointLayout, ProofCoords};
use grover::group::{coeffs_to_bytes, digits_of_neg, weighted_sum, GroupProgram, ProofPoints, KAPPA, N};
use grover::itpg::{
    self, Affine, CoordLabels, CoordValues, Cursor, Layout, Monomial, Poly, Shape, Var,
};
use grover::pgs::PublicMap;
use grover::pointenc::{
    decode, entry_polys, eval_entries, garble_entries, layout_entries, occurrences, shapes, Curve,
    CurveG1, CurveTwist,
};
use grover::testutil::{instance_at, point_off_g2, point_off_g2_at, synthetic, twist_off_g2};

fn rng() -> StdRng {
    StdRng::seed_from_u64(0x6772_6f76_6572)
}

fn fq(n: u64) -> Fq {
    Fq::from_u64(n)
}

fn limbs_of(x: ark_bn254::Fq) -> Fq {
    Fq::from_limbs(x.into_bigint().0)
}

// -------------------------------------------------------------------- itpg

fn check<F: Field>(rng: &mut StdRng) {
    let shape = Shape {
        monomials: vec![
            Monomial::new(0, 1),
            Monomial::new(1, 0),
            Monomial::new(2, 0),
            Monomial::new(0, 2),
            Monomial::new(1, 1),
            Monomial::new(3, 0),
        ],
    };
    let poly = Poly {
        coeffs: (0..6).map(|_| F::rand(rng)).collect(),
        constant: F::rand(rng),
    };
    let mut cur = Cursor::default();
    let lay = itpg::layout(&shape, &mut cur);
    let (nu, nv) = shape.occurrences();
    assert_eq!((cur.u, cur.v), (nu, nv));
    assert_eq!((nu, nv), (1 + 2 + 1 + 3, 1 + 2 + 1));

    let mut ek = CoordLabels::default();
    itpg::garble(rng, &poly, &shape, &lay, &mut ek);
    assert_eq!(ek.u.len(), nu);
    assert_eq!(ek.v.len(), nv);

    for _ in 0..8 {
        let (u, v) = (F::rand(rng), F::rand(rng));
        let vals = itpg::encode(&ek, u, v);
        assert!(itpg::eval(&lay, &vals, u, v).equals(&poly.eval_clear(&shape, u, v)));
    }
}

#[test]
fn garbled_polynomial_evaluates_correctly() {
    let mut rng = rng();
    check::<Fq>(&mut rng);
    check::<Fq2>(&mut rng);
}

/// Two polynomials of the same shape produce label vectors of the same
/// length and layout, whatever their coefficients (including zero).
#[test]
fn shape_determines_layout() {
    let mut rng = rng();
    let shape = Shape {
        monomials: vec![Monomial::new(0, 1), Monomial::new(2, 0)],
    };
    let mut c1 = Cursor::default();
    let mut c2 = Cursor::default();
    let l1 = itpg::layout(&shape, &mut c1);
    let l2 = itpg::layout(&shape, &mut c2);
    assert_eq!(l1, l2);
    let zero = Poly {
        coeffs: vec![fq(0), fq(0)],
        constant: Fq::rand(&mut rng),
    };
    let mut ek = CoordLabels::default();
    itpg::garble(&mut rng, &zero, &shape, &l1, &mut ek);
    assert_eq!((ek.u.len(), ek.v.len()), (2, 1));
}

#[test]
fn a_layout_gives_each_occurrence_the_next_position() {
    let shape = Shape {
        monomials: vec![Monomial::new(2, 1), Monomial::new(0, 1), Monomial::new(1, 0)],
    };
    let mut cur = Cursor { u: 10, v: 20 };
    let lay = itpg::layout(&shape, &mut cur);
    assert_eq!(
        lay,
        Layout {
            chains: vec![
                vec![(Var::U, 10), (Var::U, 11), (Var::V, 20)],
                vec![(Var::V, 21)],
                vec![(Var::U, 12)],
            ]
        }
    );
    assert_eq!(cur, Cursor { u: 13, v: 22 });
    assert_eq!(cur.next(Var::V), 22);
    assert_eq!(cur, Cursor { u: 13, v: 23 });
    assert_eq!(shape.monomials[0].vars(), vec![Var::U, Var::U, Var::V]);
    assert_eq!(shape.monomials[0].degree(), 3);
    assert_eq!(shape.occurrences(), (3, 2));
}

/// With the random elements given, the labels of `5u²v + 7v + 11` are the ones the
/// chains spell out.
#[test]
fn garbling_with_given_randomness_is_exact() {
    let shape = Shape {
        monomials: vec![Monomial::new(2, 1), Monomial::new(0, 1)],
    };
    let poly = Poly {
        coeffs: vec![fq(5), fq(7)],
        constant: fq(11),
    };
    let mut cur = Cursor::default();
    let lay = itpg::layout(&shape, &mut cur);
    let mut ek = CoordLabels::default();
    itpg::garble_with(&poly, &shape, &lay, &vec![fq(100)], &vec![fq(1000), fq(2000)], &mut ek);
    let label = |a: Fq, b: Fq| Affine { a, b };
    assert_eq!(
        ek.u,
        vec![label(fq(5), fq(1000)), label(fq(1000).neg(), fq(2000))]
    );
    assert_eq!(
        ek.v,
        vec![label(fq(2000).neg(), fq(100)), label(fq(7), fq(11).sub(fq(100)))]
    );
    let vals = itpg::encode(&ek, fq(3), fq(4));
    assert_eq!(vals.u[0], fq(1015));
    // 5·9·4 + 7·4 + 11
    assert_eq!(itpg::eval(&lay, &vals, fq(3), fq(4)), fq(219));
    assert_eq!(poly.eval_clear(&shape, fq(3), fq(4)), fq(219));
    assert_eq!(vals.get(Var::U, 0), fq(1015));
    assert_eq!(ek.u[0].at(fq(3)), fq(1015));
}

/// A chain may take `v` before `u`, as long as its positions are in order.
#[test]
fn chains_may_take_the_variables_in_any_order() {
    let mut rng = rng();
    let shape = Shape {
        monomials: vec![Monomial::new(1, 1), Monomial::new(2, 1)],
    };
    let poly = Poly {
        coeffs: vec![fq(5), fq(7)],
        constant: fq(11),
    };
    let lay = Layout {
        chains: vec![
            vec![(Var::V, 0), (Var::U, 0)],
            vec![(Var::U, 1), (Var::V, 1), (Var::U, 2)],
        ],
    };
    let mut ek = CoordLabels::default();
    itpg::garble(&mut rng, &poly, &shape, &lay, &mut ek);
    assert_eq!((ek.u.len(), ek.v.len()), (3, 2));
    // the heads carry the coefficients, and each label cancels the offset before it
    assert_eq!((ek.v[0].a, ek.u[1].a), (fq(5), fq(7)));
    assert_eq!(ek.u[0].a, ek.v[0].b.neg());
    assert_eq!(ek.v[1].a, ek.u[1].b.neg());
    assert_eq!(ek.u[2].a, ek.v[1].b.neg());
    // the last offsets share the constant
    assert_eq!(ek.u[0].b.add(ek.u[2].b), fq(11));
    let vals = itpg::encode(&ek, fq(3), fq(4));
    // 5·3·4 + 7·9·4 + 11
    assert_eq!(itpg::eval(&lay, &vals, fq(3), fq(4)), fq(323));
}

#[test]
fn terms_without_a_partner_do_not_count() {
    let shape = Shape {
        monomials: vec![Monomial::new(1, 0)],
    };
    let poly = Poly {
        coeffs: vec![fq(2), fq(1000)],
        constant: fq(1),
    };
    assert_eq!(poly.eval_clear(&shape, fq(10), fq(0)), fq(21));
    let short: Poly<Fq> = Poly {
        coeffs: vec![],
        constant: fq(1),
    };
    assert_eq!(short.eval_clear(&shape, fq(10), fq(0)), fq(1));
    assert_eq!(itpg::field_pow(fq(3), 5), fq(243));
    assert_eq!(itpg::field_pow(fq(3), 0), fq(1));
}

// ---------------------------------------------------------------- pointenc

/// The entry cost: seven on `u`, five on `v`, twelve in total.
#[test]
fn entry_costs() {
    assert_eq!(occurrences(), (7, 5));
}

/// One entry, garbled and evaluated, for a given coefficient, mask and input.
fn roundtrip<C: Curve>(rng: &mut StdRng, c: bool, key: &C::Point, v: &C::Point) -> Option<C::Point>
where
    C::Point: Copy,
{
    let mut cur = Cursor::default();
    let lays = layout_entries(1, &mut cur);
    let mut ek = CoordLabels::default();
    garble_entries::<C>(rng, &[c], core::slice::from_ref(key), &lays, &mut ek);
    let (u, w) = C::coords(v).expect("the input point is finite");
    let vals = itpg::encode(&ek, u, w);
    eval_entries::<C>(&lays, &vals, u, w).map(|pts| pts[0])
}

/// Exactly correct on every mask, including the two cases where the
/// incomplete addition law degenerates: `K = V` (the all-zero triple) and
/// `K = -V`.
#[test]
fn exact_correctness_on_every_mask_g1() {
    let mut rng = rng();
    for _ in 0..8 {
        let v = G1::rand(&mut rng);
        let cases = vec![G1::rand(&mut rng), G1::zero(), v, v.neg()];
        for key in cases {
            for c in [false, true] {
                let want = if c { v.add(&key) } else { key };
                let got = roundtrip::<CurveG1>(&mut rng, c, &key, &v);
                assert_eq!(got, Some(want), "c = {c}, key = {key:?}");
            }
        }
    }
}

#[test]
fn exact_correctness_on_every_mask_twist() {
    let mut rng = rng();
    for _ in 0..8 {
        let v = Twist::rand(&mut rng);
        let cases = vec![Twist::rand(&mut rng), Twist::zero(), v, v.neg()];
        for key in cases {
            for c in [false, true] {
                let want = if c { v.add(&key) } else { key };
                let got = roundtrip::<CurveTwist>(&mut rng, c, &key, &v);
                assert_eq!(got, Some(want), "c = {c}, key = {key:?}");
            }
        }
    }
}

/// The two degenerate triples have the shapes the decoder relies on:
/// all-zero for `V = K`, and `(4b², 8b³, 0)` for `V = −K`.
#[test]
fn degenerate_triples() {
    let mut rng = rng();
    let v = G1::rand(&mut rng);
    let (u, w) = CurveG1::coords(&v).unwrap();

    let [px, py, pz] = entry_polys(true, Some((u, w)), fq(1), b1());
    let shapes = shapes();
    let at = |p: &Poly<Fq>, s: &Shape| p.eval_clear(s, u, w);
    assert_eq!(
        (at(&px, &shapes[0]), at(&py, &shapes[1]), at(&pz, &shapes[2])),
        (fq(0), fq(0), fq(0)),
        "V = K gives the all-zero triple"
    );

    let bk = w.neg();
    let [px, py, pz] = entry_polys(true, Some((u, bk)), fq(1), b1());
    let (x, y, z) = (at(&px, &shapes[0]), at(&py, &shapes[1]), at(&pz, &shapes[2]));
    assert_eq!(x, fq(4).mul(bk).mul(bk));
    assert_eq!(y, fq(8).mul(bk).mul(bk).mul(bk));
    assert!(z.is_zero() && y.mul(y) == x.mul(x).mul(x) && !x.is_zero());
}

/// A uniformly scaled representative carries no more than its point: two
/// different (coefficient, mask) pairs with the same output are equal in law.
#[test]
fn scaling_hides_the_representative() {
    let mut rng = rng();
    let v = G1::rand(&mut rng);
    let target = G1::rand(&mut rng);
    // c = 1 with mask target − V, and c = 0 with mask target, both encode target.
    let got_one = roundtrip::<CurveG1>(&mut rng, true, &target.add(&v.neg()), &v);
    let got_zero = roundtrip::<CurveG1>(&mut rng, false, &target, &v);
    assert_eq!(got_one, Some(target));
    assert_eq!(got_zero, Some(target));
}

#[test]
fn decoding_rejects_what_is_no_point() {
    let v = G1::generator_times(Fr::from_u64(5));
    // (3, 1, 1) is not on the curve; (1, 2, 1) is the generator.
    assert_eq!(decode::<CurveG1>([fq(3), fq(1), fq(1)], &v), None);
    assert_eq!(
        decode::<CurveG1>([fq(1), fq(2), fq(1)], &v),
        Some(G1::generator_times(Fr::one()))
    );
    // scaled by 3: (9, 54, 3)
    assert_eq!(
        decode::<CurveG1>([fq(9), fq(54), fq(3)], &v),
        Some(G1::generator_times(Fr::one()))
    );
    // z = 0: the identity needs y² = x³ and x ≠ 0
    assert_eq!(decode::<CurveG1>([fq(4), fq(8), fq(0)], &v), Some(G1::zero()));
    assert_eq!(decode::<CurveG1>([fq(4), fq(9), fq(0)], &v), None);
    assert_eq!(decode::<CurveG1>([fq(0), fq(9), fq(0)], &v), None);
    // all zero: twice the input
    assert_eq!(
        decode::<CurveG1>([fq(0), fq(0), fq(0)], &v),
        Some(G1::generator_times(Fr::from_u64(10)))
    );
}

#[test]
fn entries_of_an_off_curve_input_do_not_evaluate() {
    let mut rng = rng();
    let mut cur = Cursor::default();
    let lays = layout_entries(1, &mut cur);
    assert_eq!(cur, Cursor { u: 7, v: 5 });
    let mut ek = CoordLabels::default();
    let key = G1::rand(&mut rng);
    garble_entries::<CurveG1>(&mut rng, &[true], &[key], &lays, &mut ek);
    let vals = itpg::encode(&ek, fq(1), fq(3));
    assert!(eval_entries::<CurveG1>(&lays, &vals, fq(1), fq(3)).is_none());
}

// ------------------------------------------------------------------- field

/// The main-body entry count: 10,758 base-field entries.
#[test]
fn entry_counts_are_10758() {
    let layout = FieldLayout::new();
    let (sa, sb, sc) = layout.entry_counts();
    assert_eq!((sa, sb, sc), (12 * 254 + 5, 12 * 128 + 5, 12 * 128 + 5));
    assert_eq!((sa, sb, sc), (3053, 1541, 1541));
    assert_eq!(layout.base_field_entries(), 10_758);
    assert_eq!(
        (layout.a.total.u, layout.a.total.v),
        (7 * 254 + 3, 5 * 254 + 2)
    );
    assert_eq!(layout, FieldLayout::default());
    assert_eq!(PointLayout::new(0).total, Cursor { u: 3, v: 2 });
}

/// `bits::N_BASE`, derived from `group::N` and `group::KAPPA`, and
/// `FieldLayout::base_field_entries()`, derived independently from the
/// per-point coordinate layout, must agree
#[test]
fn n_base_matches_field_layout() {
    assert_eq!(N_BASE, FieldLayout::new().base_field_entries());
    assert_eq!(N_BASE, 10_758);
    assert_eq!((N, KAPPA, LAMBDA), (254, 128, 128));
}

#[test]
fn a_check_opens_to_its_secret_only_if_it_fits() {
    // s = 77, g = 5
    let mut s: Secret = [0u8; 16];
    s[0] = 77;
    assert_eq!(open_check(fq(77 * 5), fq(5)), Some(s));
    // 1/3 does not fit in 128 bits
    assert_eq!(open_check(fq(1), fq(3)), None);
    let real = |n: u64| Fq2::new(fq(n), fq(0));
    assert_eq!(open_check_fq2(real(77 * 5), real(5)), Some(s));
    // a quotient with a component on η
    assert_eq!(open_check_fq2(Fq2::new(fq(385), fq(5)), real(5)), None);
    let poly = check_poly(fq(10), fq(3));
    assert_eq!(poly.coeffs, vec![fq(10), fq(10).neg()]);
    assert_eq!(poly.constant, fq(30).neg());
    assert_eq!(check_shape().occurrences(), (3, 2));
    // 10·(7² − 2³ − 3)
    assert_eq!(poly.eval_clear(&check_shape(), fq(2), fq(7)), fq(380));
}

#[test]
fn coordinates_and_points_convert_both_ways() {
    let mut rng = rng();
    let inst = synthetic(&mut rng);
    let coords = ProofCoords::from_points(&inst.valid).unwrap();
    assert_eq!(coords.to_points(), Some(inst.valid));
    let at_infinity = ProofPoints {
        c: G1::zero(),
        ..inst.valid
    };
    assert!(ProofCoords::from_points(&at_infinity).is_none());
    let mut off = coords;
    off.b.1.c1 = off.b.1.c1.add(fq(1));
    assert!(off.to_points().is_none());
}

/// Equality of points and coordinates is an equivalence.
fn equivalent<T: Eq>(x: &T, y: &T) -> bool {
    x == x && (x == y) == (y == x) && x == y
}

#[test]
fn points_and_coordinates_have_total_equality() {
    let mut rng = rng();
    let inst = synthetic(&mut rng);
    let coords = ProofCoords::from_points(&inst.valid).unwrap();
    assert!(equivalent(&inst.valid, &coords.to_points().unwrap()));
    assert!(!equivalent(&inst.valid, &inst.invalid));
    assert!(equivalent(&coords, &coords.clone()));
    // limbs that are not reduced stand for the same element
    assert!(equivalent(&Fq::from_limbs(p_limbs()), &Fq::zero()));
}

// ------------------------------------------------------------------- group

#[test]
fn digits_and_weights() {
    // −1 mod r, by its digits
    let digits = digits_of_neg(Fr::one());
    assert_eq!(digits.len(), 254);
    let mut r_minus_one = ark_bn254::Fr::MODULUS;
    r_minus_one.sub_with_borrow(&ark_ff::BigInt::from(1u64));
    assert_eq!(digits[..], r_minus_one.to_bits_le()[..254]);
    assert!(digits_of_neg(Fr::from_u64(0)).iter().all(|&b| !b));

    let points: Vec<G1> = [3u64, 5, 7].iter().map(|&k| G1::generator_times(Fr::from_u64(k))).collect();
    // 3 + 2·5 + 4·7
    assert_eq!(weighted_sum(&points), G1::generator_times(Fr::from_u64(41)));
    assert_eq!(weighted_sum(&[]), G1::zero());
    assert_eq!(coeffs_to_bytes(&[true, false, true]), vec![1, 0, 1]);
}

// ------------------------------------------------------------------- curve

#[test]
fn field_arithmetic_is_that_of_the_field() {
    let p_minus_one = fq(0).sub(fq(1));
    assert_eq!(p_minus_one.add(fq(1)), fq(0));
    assert_eq!(p_minus_one, fq(1).neg());
    assert_eq!(p_minus_one.mul(p_minus_one), fq(1));
    assert_eq!(fq(3).inverse().unwrap().mul(fq(3)), fq(1));
    assert!(fq(0).inverse().is_none());
    // p itself is zero
    assert!(Fq::from_limbs(p_limbs()).is_zero());
    assert_eq!(Fq::from_limbs(p_limbs()), fq(0));
    assert_eq!(p_limbs(), ark_bn254::Fq::MODULUS.0);
    let eta = Fq2::new(fq(0), fq(1));
    assert_eq!(eta.mul(eta), Fq2::from_u64(1).neg());
    let z = Fq2::new(fq(3), fq(4));
    assert_eq!(z.inverse().unwrap().mul(z), Fq2::from_u64(1));
    assert!(Fq2::from_u64(0).inverse().is_none());
    // (3 + 4η)² = −7 + 24η
    assert_eq!(z.mul(z), Fq2::new(fq(7).neg(), fq(24)));
    assert_eq!(z.add(z).sub(z), z);
    assert_eq!(z.sub(z), Fq2::from_u64(0));
    let half = Fr::from_u64(2);
    assert!(half.add(half.neg()).is_zero() && !half.is_zero());
    assert_eq!(fq(258).to_bytes_le()[..3], [2, 1, 0]);
}

#[test]
fn curve_equations_vanish_on_points() {
    let mut rng = rng();
    assert_eq!(b1(), fq(3));
    let g = G1::generator_times(Fr::one());
    assert_eq!(g1_coords(&g), Some((fq(1), fq(2))));
    assert_eq!(g1_eq(fq(1), fq(2)), fq(0));
    assert_eq!(g1_eq(fq(1), fq(3)), fq(5));
    assert_eq!(g1_from_coords(fq(1), fq(2)), Some(g));
    assert_eq!(g1_from_coords(fq(1), fq(3)), None);
    assert_eq!(g1_coords(&G1::zero()), None);

    let t = Twist::rand(&mut rng);
    let (u, v) = twist_coords(&t).unwrap();
    assert!(g2_eq(u, v).is_zero());
    assert_eq!(g2_eq(Fq2::from_u64(0), Fq2::from_u64(0)), b2().neg());
    assert_eq!(twist_from_coords(u, v), Some(t));
    assert!(twist_from_coords(u, v.add(Fq2::from_u64(1))).is_none());
    assert_eq!(twist_coords(&Twist::zero()), None);
    // b' = 3/(9 + η)
    assert_eq!(b2().mul(Fq2::new(fq(9), fq(1))), Fq2::from_u64(3));
}

#[test]
fn subgroup_membership() {
    let mut rng = rng();
    let t = Twist::rand(&mut rng);
    assert!(in_g2(&t) && in_g2(&Twist::zero()));
    let off = twist_off_g2(&mut rng).unwrap();
    assert!(!in_g2(&off));
    assert!(!r_times(&off).is_zero());
    assert_eq!(r_times(&off.add(&t)), r_times(&off));
    assert!(r_times(&t).is_zero());
    let (u, v) = twist_coords(&off).unwrap();
    assert_eq!(point_off_g2(u, v), Some(off));
    assert_eq!(point_off_g2(u, v.add(Fq2::from_u64(1))), None);
    let found = point_off_g2_at(u).unwrap();
    assert!(found == off || found == off.neg());
    let (u, v) = twist_coords(&t).unwrap();
    assert_eq!(point_off_g2(u, v), None);
    assert_eq!(point_off_g2_at(u), None);
}

/// An abscissa gives a point exactly if the equation's right side is a square. (None
/// of these lies in `G_2`.)
#[test]
fn abscissae_give_points_where_a_root_exists() {
    let mut found = 0;
    for n in 0..12u64 {
        let x = ark_bn254::Fq2::from(n);
        let rhs = x * x * x + <ark_bn254::g2::Config as SWCurveConfig>::COEFF_B;
        let point = point_off_g2_at(Fq2::from_u64(n));
        assert_eq!(point.is_none(), ark_ff::Field::legendre(&rhs).is_qnr());
        found += point.is_some() as usize;
    }
    assert!(0 < found && found < 12);
}

#[test]
fn random_elements_are_reduced() {
    let mut rng = rng();
    let mut last = Fq::zero();
    for _ in 0..20 {
        let x = Fq::rand(&mut rng);
        assert_eq!(x.limbs, fq_limbs(x));
        assert_ne!(x, last);
        last = x;
        let z = Fq2::rand(&mut rng);
        assert_eq!((z.c0.limbs, z.c1.limbs), (fq_limbs(z.c0), fq_limbs(z.c1)));
        let k = Fr::rand(&mut rng);
        assert!(ark_ff::BigInt(k.limbs) < ark_bn254::Fr::MODULUS);
    }
}

#[test]
fn group_operations() {
    let k = |n: u64| Fr::from_u64(n);
    let g = |n: u64| G1::generator_times(k(n));
    let h = |n: u64| Twist::generator_times(k(n));
    assert_eq!(g(3).add(&g(4)), g(7));
    assert_eq!(g(3).double(), g(6));
    assert_eq!(g(3).add(&g(3)), g(6));
    assert_eq!(g(3).add(&g(3).neg()), G1::zero());
    assert_eq!(g(3).add(&G1::zero()), g(3));
    assert!(G1::zero().is_zero() && !g(1).is_zero());
    assert_eq!(h(3).add(&h(4)), h(7));
    assert_eq!(h(3).mul(k(5)), h(15));
    assert_eq!(h(3).mul(k(0)), Twist::zero());
    assert_eq!(h(3).neg().add(&h(3)), Twist::zero());
    assert_eq!(h(9).sub(&h(4)), h(5));
    assert_eq!(g(9).sub(&g(4)), g(5));
    assert_eq!(g(4).sub(&g(4)), G1::zero());
    // the generators
    assert_eq!(g1_coords(&g(1)), Some((fq(1), fq(2))));
    let (u, v) = twist_coords(&h(1)).unwrap();
    assert_eq!(u.c0, limbs_of(ark_bn254::g2::G2_GENERATOR_X.c0));
    assert_eq!(v.c1, limbs_of(ark_bn254::g2::G2_GENERATOR_Y.c1));
    assert_ne!(h(3), h(4));
}

#[test]
fn the_pairing_is_bilinear() {
    let k = |n: u64| Fr::from_u64(n);
    let g = |n: u64| G1::generator_times(k(n));
    let h = |n: u64| Twist::generator_times(k(n));
    let e = pair(&g(6), &h(35));
    assert!(e.sub(&pair(&g(10), &h(21))).is_zero());
    assert!(!e.is_zero());
    assert!(multi_pair([g(2), g(3)], [h(5), h(7)]).sub(&pair(&g(31), &h(1))).is_zero());
    assert!(pair(&g(2), &h(3)).add(&pair(&g(4), &h(5))).sub(&pair(&g(26), &h(1))).is_zero());
    assert!(pair(&G1::zero(), &h(3)).is_zero());
    assert_eq!(e.to_bytes().len(), 384);
    // the neutral element is one: a single low bit
    let one = pair(&G1::zero(), &h(3)).to_bytes();
    assert_eq!(one[0], 1);
    assert!(one[1..].iter().all(|&b| b == 0));
}

#[test]
fn hashes_are_sha256_of_the_framed_message() {
    let sid = b"session";
    let n = pair(&G1::generator_times(Fr::one()), &Twist::generator_times(Fr::one()));
    let mut h = sha2::Sha256::new();
    h.update(b"grover/H_com");
    h.update(7u64.to_le_bytes());
    h.update(sid);
    h.update(300u64.to_le_bytes());
    h.update(n.to_bytes());
    let want: [u8; 32] = h.finalize().into();
    assert_eq!(h_com(sid, 300, &n), want);

    let mut h = sha2::Sha256::new();
    h.update(b"grover/H_key");
    h.update(7u64.to_le_bytes());
    h.update(sid);
    h.update(3u64.to_le_bytes());
    h.update([1u8, 0, 1]);
    let digest = h.finalize();
    assert_eq!(h_key(sid, &[1, 0, 1])[..], digest[..16]);
}

#[test]
fn secrets_and_blocks_round_trip() {
    let s: Secret = [0x5A; 16];
    assert_eq!(fq_to_secret(secret_to_fq(&s)), Some(s));
    assert_eq!(fq_to_secret(fq(1).neg()), None);
    // 2^128 is the first that does not fit
    let big = Fq::from_limbs([0, 0, 1, 0]);
    assert_eq!(fq_to_secret(big), None);
    assert_eq!(fq_to_secret(big.sub(fq(1))), Some([0xff; 16]));
    let x = fq(1).neg();
    assert_eq!(block_to_fq(&fq_to_block(x)), x);
    assert_eq!(block_to_fq(&[0xff; 32]), Fq::from_limbs([u64::MAX; 4]));
    assert_eq!(fq_limbs(Fq::from_limbs(p_limbs())), [0; 4]);
    let pad: Secret = [0x0F; 16];
    assert_eq!(xor(&s, &pad), [0x55; 16]);
    assert_eq!(xor(&xor(&s, &pad), &pad), s);
}

// -------------------------------------------------------------------- bits

#[test]
fn mod_small_matches_field_reduction() {
    let mut rng = rng();
    for _ in 0..10 {
        let x = Fq::rand(&mut rng);
        for &p in &FIRST_82_PRIMES[..10] {
            let want = (x
                .to_bytes_le()
                .iter()
                .rev()
                .fold(0u128, |acc, &b| ((acc << 8) | b as u128) % p as u128))
                as u64;
            assert_eq!(mod_small(&fq_limbs(x), p), want);
        }
    }
    assert_eq!(mod_small(&[5, 1], 7), ((1u128 << 64) + 5).rem_euclid(7) as u64);
    assert_eq!(mod_small(&[], 7), 0);
}

/// The aggregate statistical target is met, and by the parameter the code uses
/// rather than by the per-label figure.
#[test]
fn statistical_target_is_met() {
    assert_eq!(RHO, 54);
    let bits = RHO as f64 - (N_BASE as f64).log2();
    assert!(bits >= 40.0, "{bits:.2} bits, below the 40-bit target");
    // The per-label figure alone would mislead: N_base costs about 14 bits.
    assert!(bits < RHO as f64 - 13.0);
}

fn primorial() -> [u64; 9] {
    let mut m = ark_ff::BigInt::<9>::from(1u64);
    for &p in &FIRST_82_PRIMES {
        m = m.mul_low(&ark_ff::BigInt::<9>::from(p));
    }
    m.0
}

/// The no-wrap bound holds at the chosen `μ` width, and the ring's own
/// ceiling is `ρ = 60`, so the 40-bit target is met with room rather than by
/// exhausting the modulus.
#[test]
fn smudging_fits_with_headroom() {
    let m = primorial();
    assert!(smudging_fits(&m));
    assert!(smudging_fits_at(W + 60, &m), "the ring admits rho = 60");
    assert!(!smudging_fits_at(W + 61, &m), "and no more");
    assert!(MU_BITS < W + 60);
    assert!(!smudging_fits(&[0; 9]));
    assert_eq!(pow2(130), [0, 0, 4, 0, 0, 0, 0, 0, 0, 0]);
    assert_eq!(pow2(639)[9], 1 << 63);
}

#[test]
fn split_fq2_halves_sum_to_the_label() {
    let mut rng = rng();
    let labels: Vec<Affine<Fq2>> = (0..4)
        .map(|_| Affine {
            a: Fq2::rand(&mut rng),
            b: Fq2::rand(&mut rng),
        })
        .collect();
    let (on_x0, on_x1) = split_fq2(&mut rng, &labels);
    let x = Fq2::rand(&mut rng);
    for (j, l) in labels.iter().enumerate() {
        let h0 = |k: usize| on_x0[2 * j + k].0.mul(x.c0).add(on_x0[2 * j + k].1);
        let h1 = |k: usize| on_x1[2 * j + k].0.mul(x.c1).add(on_x1[2 * j + k].1);
        let got = Fq2::new(h0(0).add(h1(0)), h0(1).add(h1(1)));
        assert_eq!(got, l.at(x));
    }
}

#[test]
fn splitting_with_a_given_element_is_exact() {
    let label = Affine {
        a: Fq2::new(fq(2), fq(3)),
        b: Fq2::new(fq(50), fq(60)),
    };
    let (x0, x1) = split_fq2_with(&[label], &[Fq2::new(fq(7), fq(8))]);
    assert_eq!(x0, vec![(fq(2), fq(7)), (fq(3), fq(8))]);
    assert_eq!(x1, vec![(fq(3).neg(), fq(43)), (fq(2), fq(52))]);
    let values = join(&vec![fq(1), fq(2), fq(3), fq(4)], &vec![fq(10), fq(20), fq(30), fq(40)]);
    assert_eq!(values, vec![Fq2::new(fq(11), fq(22)), Fq2::new(fq(33), fq(44))]);
    let plain = maps_fq(&[Affine { a: fq(9), b: fq(8) }]);
    assert_eq!(plain, vec![(fq(9), fq(8))]);
}

#[test]
fn bits_spell_their_block() {
    let mut x = ProofBits {
        blocks: [[0u8; 32]; NUM_BLOCKS],
    };
    x.blocks[Block::BV1 as usize][0] = 0b1000_0101;
    x.blocks[Block::BV1 as usize][31] = 0b1000_0000;
    let bits = x.bits(Block::BV1 as usize);
    assert_eq!(bits.len(), 256);
    let set: Vec<usize> = (0..256).filter(|&i| bits[i] == 1).collect();
    assert_eq!(set, vec![0, 2, 7, 255]);
    assert!(x.bits(Block::AU as usize).iter().all(|&b| b == 0));
}

#[test]
fn canonical_blocks_round_trip_and_others_are_reduced() {
    let mut rng = rng();
    let inst = synthetic(&mut rng);
    let coords = ProofCoords::from_points(&inst.valid).unwrap();
    let x = ProofBits::from_coords(&coords);
    assert_eq!(BinToField.apply(&x), coords);
    let ones = ProofBits {
        blocks: [[0xff; 32]; NUM_BLOCKS],
    };
    let y = BinToField::default().apply(&ones);
    // 2^256 − 1 mod p
    assert_eq!(y.a.0, Fq::from_limbs([u64::MAX; 4]));
    assert_eq!(fq_limbs(y.c.1), fq_limbs(Fq::from_le_bytes_mod_order(&[0xff; 32])));
}

/// The residues of smudged maps are those of the integers `a` and `b + μ·p`.
#[test]
fn residues_are_those_of_the_smudged_maps() {
    let encoder = BitEncoder::new();
    assert_eq!(encoder.primes[..], FIRST_82_PRIMES[..]);
    assert_eq!(BitEncoder::default().primes, encoder.primes);
    let mu = [3u64, 0, 0, 0, 0];
    let res = encoder.residues(&[(fq(1000), fq(77))], &[mu]);
    for (i, &q) in FIRST_82_PRIMES.iter().enumerate() {
        let p_mod = mod_small(&p_limbs(), q);
        assert_eq!(res.a[i], vec![1000 % q]);
        assert_eq!(res.b[i], vec![(77 + 3 * p_mod) % q]);
    }
    let mut rng = rng();
    for mu in sample_mus(&mut rng, 20) {
        assert!(mu[4] < 1 << RHO);
    }
    assert_eq!(grover::bits::cut_mu([1, 2, 3, 4, u64::MAX])[4], (1 << 54) - 1);
}

/// Integers of nine limbs are reduced modulo `p`.
#[test]
fn decoding_reduces_the_integers() {
    let encoder = BitEncoder::new();
    let mut value = [0u64; 9];
    value[..4].copy_from_slice(&p_limbs());
    value[0] += 5;
    let mut high = [0u64; 9];
    high[8] = 1;
    let out = encoder.decode(&[value, high]);
    assert_eq!(out[0], fq(5));
    // 2^512
    let mut want = ark_bn254::Fq::from(1u64);
    for _ in 0..512 {
        want = want + want;
    }
    assert_eq!(out[1], limbs_of(want));
}

#[test]
fn an_assembly_of_too_few_instances_is_empty() {
    let encoder = BitEncoder::new();
    let enc = encoder.assemble(&vec![vec![fq(1)]; 7]);
    assert!(enc.a.u.is_empty() && enc.b.v.is_empty() && enc.c.u.is_empty());
    let enc = encoder.assemble(&vec![vec![fq(1), fq(2)]; 8]);
    assert_eq!(enc.a.u, vec![fq(1), fq(2)]);
    assert_eq!(enc.b.v, vec![Fq2::new(fq(2), fq(4))]);
    let none: CoordValues<Fq> = CoordValues::default();
    assert!(none.u.is_empty());
}

#[test]
fn sizes_add_up() {
    let base = Twist::generator_times(Fr::one());
    let program = GroupProgram {
        bases: vec![base; 128],
        commits: vec![[0u8; 32]; 128],
        ct: [0u8; 16],
    };
    let report = size_report(&program, 13_821_010, 6_573_138);
    assert_eq!(
        report,
        SizeReport {
            group_bits: 98_432,
            dfb_ciphertext_bits: 13_821_010,
            dfb_output_decoding_bits: 6_573_138,
        }
    );
    assert_eq!(report.total_bits(), 20_492_580);
    assert_eq!(base.to_compressed_bytes().len(), 64);
    assert_ne!(base.to_compressed_bytes(), base.double_bytes());
}

trait DoubleBytes {
    fn double_bytes(&self) -> Vec<u8>;
}

impl DoubleBytes for Twist {
    fn double_bytes(&self) -> Vec<u8> {
        self.add(self).to_compressed_bytes()
    }
}

// ---------------------------------------------------------------- testutil

#[test]
fn a_synthetic_instance_accepts_one_proof_and_rejects_the_other() {
    let k = |n: u64| Fr::from_u64(n);
    let inst = instance_at(k(2), k(3), k(5), k(7));
    assert!(inst.vk.is_valid(&inst.valid));
    assert!(!inst.vk.is_valid(&inst.invalid));
    // 2·3 + 5·7 = 41
    let g = |n: u64| G1::generator_times(k(n));
    let d = pair(&g(41), &Twist::generator_times(k(1)));
    assert!(inst.vk.d.sub(&d).is_zero());
    assert_eq!(inst.invalid.a, g(3));
    // the verdict on the invalid proof is b = 3
    let p = inst.vk.verdict(&inst.invalid).unwrap();
    assert!(p.sub(&pair(&g(3), &Twist::generator_times(k(1)))).is_zero());
    let mut rng = rng();
    let off = ProofPoints {
        b: twist_off_g2(&mut rng).unwrap(),
        ..inst.valid
    };
    assert!(inst.vk.verdict(&off).is_none());
    assert!(!inst.vk.is_valid(&off));
}
