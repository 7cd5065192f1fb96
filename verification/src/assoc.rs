//! That the addition of points is associative and commutative.
//!
//! The line through two points of the curve has a slope `s` with
//! `v − b = s·(u − a)` and `s·(v + b) = u² + u·a + a²`, also where the points are one
//! and it is their tangent. The proofs speak of slopes by these two equations alone,
//! so that they need not tell chords from tangents.
use crate::inverse;
use crate::linear;
use crate::points;
use crate::points::Pt;
use crate::ring;
use crate::ring::El;
use vstd::prelude::*;

verus! {

// ------------------------------------------------------------------- algebra

/// A product with a sum or a difference on the left.
proof fn lemma_left(x: El, y: El, z: El)
    ensures
        x.plus(y).times(z) == x.times(z).plus(y.times(z)),
        x.minus(y).times(z) == x.times(z).minus(y.times(z)),
{
    ring::lemma_times_comm(x.plus(y), z);
    ring::lemma_times_comm(x.minus(y), z);
    ring::lemma_times_plus(z, x, y);
    ring::lemma_times_minus(z, x, y);
    ring::lemma_times_comm(z, x);
    ring::lemma_times_comm(z, y);
}

/// A product of two differences.
proof fn lemma_foil(a: El, b: El, c: El, d: El)
    ensures
        a.minus(b).times(c.minus(d)) == a.times(c).minus(a.times(d)).minus(
            b.times(c).minus(b.times(d)),
        ),
{
    lemma_left(a, b, c.minus(d));
    ring::lemma_times_minus(a, c, d);
    ring::lemma_times_minus(b, c, d);
}

/// Equal products with a factor that is not zero have equal other factors.
proof fn lemma_cancel_factor(x: El, y: El, z: El)
    requires
        x.reduced(),
        y.reduced(),
        z.reduced(),
        z != El::num(0),
        x.times(z) == y.times(z),
    ensures
        x == y,
{
    lemma_left(x, y, z);
    ring::lemma_reduced(x, z);
    ring::lemma_minus_zero(x.times(z), y.times(z));
    ring::lemma_reduced(x, y);
    inverse::lemma_no_zero_divisors(x.minus(y), z);
    ring::lemma_minus_zero(x, y);
}

// -------------------------------------------------------------------- slopes

/// The slope of the line through two points, or of the tangent.
pub open spec fn slope(u: El, v: El, a: El, b: El) -> El {
    if u != a {
        v.minus(b).times(inverse::inv(u.minus(a)))
    } else {
        El::num(3).times(u).times(u).times(inverse::inv(v.plus(v)))
    }
}

/// Whether `s` is the slope of the line through two points, or of the tangent.
spec fn is_slope(u: El, v: El, a: El, b: El, s: El) -> bool {
    &&& s.reduced()
    &&& v.minus(b) == s.times(u.minus(a))
    &&& s.times(v.plus(b)) == u.times(u).plus(u.times(a)).plus(a.times(a))
}

/// Points that are not opposite have a line, and their sum is by it.
proof fn lemma_slope(u: El, v: El, a: El, b: El, k: El)
    requires
        u.reduced(),
        v.reduced(),
        a.reduced(),
        b.reduced(),
        points::on_curve(u, v, k),
        points::on_curve(a, b, k),
        !(u == a && v == b.opp()),
    ensures
        is_slope(u, v, a, b, slope(u, v, a, b)),
        Pt::At(u, v).plus(Pt::At(a, b)) == points::through(u, v, a, slope(u, v, a, b)),
{
    let s = slope(u, v, a, b);
    let (uu, ua, aa) = (u.times(u), u.times(a), a.times(a));
    ring::lemma_reduced(u, u);
    ring::lemma_reduced(u, a);
    ring::lemma_reduced(a, a);
    if u != a {
        let (z, d, q) = (u.minus(a), v.minus(b), inverse::inv(u.minus(a)));
        ring::lemma_minus_zero(u, a);
        inverse::lemma_inv(z);
        ring::lemma_reduced(d, q);
        ring::lemma_reduced(v, b);
        ring::lemma_times_assoc(d, q, z);
        ring::lemma_times_comm(q, z);
        ring::lemma_times_one(d);
        assert(s.times(z) == d);
        // times u − a, the second equation is v² − b² = u³ − a³
        let sum = uu.plus(ua).plus(aa);
        let l = s.times(v.plus(b));
        ring::lemma_times_comm(s, z);
        ring::lemma_times_assoc(z, s, v.plus(b));
        ring::lemma_times_comm(z, l);
        assert(l.times(z) == d.times(v.plus(b)));
        ring::lemma_difference_of_squares(v, b);
        let (vv, bb, uuu, aaa) = (v.times(v), b.times(b), uu.times(u), aa.times(a));
        let (uua, uaa) = (uu.times(a), ua.times(a));
        ring::lemma_reduced(uu, u);
        ring::lemma_reduced(aa, a);
        ring::lemma_reduced(uu, a);
        ring::lemma_reduced(ua, a);
        assert(sum.times(z) == uuu.minus(uua).plus(uua.minus(uaa)).plus(uaa.minus(aaa))) by {
            lemma_left(uu.plus(ua), aa, z);
            lemma_left(uu, ua, z);
            ring::lemma_times_minus(uu, u, a);
            ring::lemma_times_minus(ua, u, a);
            ring::lemma_times_minus(aa, u, a);
            // (u·a)·u = u²·a and a²·u = (u·a)·a
            ring::lemma_times_assoc(u, a, u);
            ring::lemma_times_comm(a, u);
            ring::lemma_times_assoc(u, u, a);
            ring::lemma_times_assoc(a, a, u);
            ring::lemma_times_assoc(u, a, a);
            ring::lemma_times_comm(u, aa);
        }
        let kk = k.red();
        assert(vv == uuu.plus(kk) && bb == aaa.plus(kk)) by {
            reveal(El::plus);
            crate::nums::lemma_mod_ops(uuu.c0, k.c0, ring::p());
            crate::nums::lemma_mod_ops(uuu.c1, k.c1, ring::p());
            crate::nums::lemma_mod_ops(aaa.c0, k.c0, ring::p());
            crate::nums::lemma_mod_ops(aaa.c1, k.c1, ring::p());
        }
        ring::lemma_reduced(k, k);
        assert(uuu.plus(kk).minus(aaa.plus(kk)) == uuu.minus(uua).plus(uua.minus(uaa)).plus(uaa
            .minus(aaa))) by {
            let env = seq![uuu, kk, aaa, uua, uaa];
            let (e0, e1, e2, e3, e4) = (
                linear::e(0),
                linear::e(1),
                linear::e(2),
                linear::e(3),
                linear::e(4),
            );
            let (l, r) = (e0.a(e1).s(e2.a(e1)), e0.s(e3).a(e3.s(e4)).a(e4.s(e2)));
            reveal_with_fuel(linear::Sum::val, 5);
            reveal_with_fuel(linear::Sum::count, 5);
            reveal_with_fuel(linear::Sum::within, 5);
            reveal_with_fuel(linear::same_counts, 6);
            linear::lemma_sums(l, r, env);
        }
        assert(l.times(z) == sum.times(z));
        ring::lemma_reduced(s, v.plus(b));
        ring::lemma_reduced(uu.plus(ua), aa);
        lemma_cancel_factor(l, sum, z);
    } else {
        points::lemma_same_abscissa(u, b, v, k);
        points::lemma_own_opposite(b);
        let d = v.plus(v);
        let n = El::num(3).times(u).times(u);
        points::lemma_double_zero(v);
        ring::lemma_reduced(v, v);
        ring::lemma_reduced(n, inverse::inv(d));
        inverse::lemma_inv(d);
        // s·d = 3·u²
        ring::lemma_times_assoc(n, inverse::inv(d), d);
        ring::lemma_times_comm(inverse::inv(d), d);
        ring::lemma_reduced(El::num(3).times(u), u);
        ring::lemma_times_one(n);
        ring::lemma_times_assoc(El::num(3), u, u);
        points::lemma_small_multiples(uu);
        ring::lemma_minus_zero(v, b);
        ring::lemma_minus_zero(u, a);
        ring::lemma_times_zero(s);
    }
}

/// The slope does not depend on the order of the points.
proof fn lemma_slope_comm(u: El, v: El, a: El, b: El, k: El)
    requires
        u.reduced(),
        v.reduced(),
        a.reduced(),
        b.reduced(),
        points::on_curve(u, v, k),
        points::on_curve(a, b, k),
        !(u == a && v == b.opp()),
    ensures
        slope(u, v, a, b) == slope(a, b, u, v),
        is_slope(a, b, u, v, slope(u, v, a, b)),
        is_slope(u, v, a, b, slope(u, v, a, b)),
{
    ring::lemma_opp_opp(v);
    ring::lemma_opp_opp(b);
    lemma_slope(u, v, a, b, k);
    lemma_slope(a, b, u, v, k);
    let (s, s1) = (slope(u, v, a, b), slope(a, b, u, v));
    if u != a {
        let z = u.minus(a);
        ring::lemma_reduced(u, a);
        ring::lemma_minus_zero(u, a);
        // (b − v) = s1·(a − u), with the signs turned
        lemma_turned(u, a);
        lemma_turned(v, b);
        ring::lemma_times_opp(s1, z);
        ring::lemma_reduced(s1, z);
        ring::lemma_opp_opp(s1.times(z));
        ring::lemma_reduced(v, b);
        ring::lemma_opp_opp(v.minus(b));
        assert(s1.times(z) == s.times(z));
        lemma_cancel_factor(s1, s, z);
    } else {
        points::lemma_same_abscissa(u, b, v, k);
    }
}

/// `y − x = −(x − y)`.
proof fn lemma_turned(x: El, y: El)
    ensures
        y.minus(x) == x.minus(y).opp(),
{
    reveal(El::minus);
    reveal(El::opp);
    crate::nums::lemma_mod_ops(x.c0 - y.c0, 0, ring::p());
    crate::nums::lemma_mod_ops(x.c1 - y.c1, 0, ring::p());
}

/// The sum by the line, from the other point.
proof fn lemma_through_comm(u: El, v: El, a: El, b: El, s: El)
    requires
        u.reduced(),
        v.reduced(),
        a.reduced(),
        b.reduced(),
        is_slope(u, v, a, b, s),
    ensures
        points::through(u, v, a, s) == points::through(a, b, u, s),
{
    let ss = s.times(s);
    let t = ss.minus(u).minus(a);
    let (su, sa, st) = (s.times(u), s.times(a), s.times(t));
    ring::lemma_reduced(s, s);
    ring::lemma_reduced(s, u);
    ring::lemma_reduced(s, a);
    ring::lemma_reduced(s, t);
    assert(ss.minus(u).minus(a) == ss.minus(a).minus(u)) by {
        let env = seq![ss, u, a];
        let (e0, e1, e2) = (
            linear::e(0),
            linear::e(1),
            linear::e(2),
        );
        let (l, r) = (e0.s(e1).s(e2), e0.s(e2).s(e1));
        reveal_with_fuel(linear::Sum::val, 4);
        reveal_with_fuel(linear::Sum::count, 4);
        reveal_with_fuel(linear::Sum::within, 4);
        reveal_with_fuel(linear::same_counts, 4);
        linear::lemma_sums(l, r, env);
    }
    ring::lemma_times_minus(s, u, a);
    ring::lemma_times_minus(s, u, t);
    ring::lemma_times_minus(s, a, t);
    // v − b = s·u − s·a
    assert(su.minus(st).minus(v) == sa.minus(st).minus(b).plus(su.minus(sa)).minus(v.minus(b))) by {
        let env = seq![su, st, v, sa, b];
        let (e0, e1, e2, e3, e4) = (
            linear::e(0),
            linear::e(1),
            linear::e(2),
            linear::e(3),
            linear::e(4),
        );
        let (l, r) = (e0.s(e1).s(e2), e3.s(e1).s(e4).a(e0.s(e3)).s(e2.s(e4)));
        reveal_with_fuel(linear::Sum::val, 6);
        reveal_with_fuel(linear::Sum::count, 6);
        reveal_with_fuel(linear::Sum::within, 6);
        reveal_with_fuel(linear::same_counts, 6);
        linear::lemma_sums(l, r, env);
    }
    let w = sa.minus(st).minus(b);
    let d = su.minus(sa);
    ring::lemma_reduced(sa.minus(st), b);
    ring::lemma_reduced(su, sa);
    assert(w.plus(d).minus(d) == w) by {
        let env = seq![w, d];
        let (e0, e1) = (
            linear::e(0),
            linear::e(1),
        );
        let (l, r) = (e0.a(e1).s(e1), e0);
        reveal_with_fuel(linear::Sum::val, 4);
        reveal_with_fuel(linear::Sum::count, 4);
        reveal_with_fuel(linear::Sum::within, 4);
        reveal_with_fuel(linear::same_counts, 3);
        linear::lemma_sums(l, r, env);
    }
}

/// The sum of points does not depend on their order.
pub proof fn lemma_sum_comm(p: Pt, q: Pt, k: El)
    requires
        p.on(k),
        q.on(k),
    ensures
        p.plus(q) == q.plus(p),
{
    match (p, q) {
        (Pt::At(u, v), Pt::At(a, b)) => {
            ring::lemma_opp_opp(v);
            ring::lemma_opp_opp(b);
            if u == a && v == b.opp() {
                points::lemma_own_opposite(b);
                points::lemma_own_opposite(v);
            } else {
                lemma_slope(u, v, a, b, k);
                lemma_slope(a, b, u, v, k);
                lemma_slope_comm(u, v, a, b, k);
                lemma_through_comm(u, v, a, b, slope(u, v, a, b));
            }
        },
        _ => {},
    }
}

// ------------------------------------------------------------ the two slopes

/// On the line of slope `s` through `(x2, y2)` and `(x3, y3)`, with third abscissa
/// `t = s² − x2 − x3`: `x3·t + 2·s·y2 = x2² + s²·x2`.
proof fn lemma_third(x2: El, y2: El, x3: El, y3: El, s: El)
    requires
        is_slope(x2, y2, x3, y3, s),
    ensures
        ({
            let ss = s.times(s);
            let t = ss.minus(x2).minus(x3);
            let sy = s.times(y2);
            x3.times(t).plus(sy.plus(sy)) == x2.times(x2).plus(ss.times(x2))
        }),
{
    let ss = s.times(s);
    let t = ss.minus(x2).minus(x3);
    let (p, q) = (ss.times(x3), ss.times(x2));
    let (c22, c23, c33) = (x2.times(x2), x2.times(x3), x3.times(x3));
    let (sy, sz) = (s.times(y2), s.times(y3));
    ring::lemma_reduced(ss, x3);
    ring::lemma_reduced(ss, x2);
    ring::lemma_reduced(x2, x2);
    ring::lemma_reduced(x2, x3);
    ring::lemma_reduced(x3, x3);
    ring::lemma_reduced(s, y2);
    ring::lemma_reduced(s, y3);
    assert(x3.times(t) == p.minus(c23).minus(c33)) by {
        ring::lemma_times_minus(x3, ss.minus(x2), x3);
        ring::lemma_times_minus(x3, ss, x2);
        ring::lemma_times_comm(x3, ss);
        ring::lemma_times_comm(x3, x2);
    }
    assert(sy.minus(sz) == q.minus(p)) by {
        ring::lemma_times_minus(s, y2, y3);
        ring::lemma_times_assoc(s, s, x2.minus(x3));
        ring::lemma_times_minus(ss, x2, x3);
    }
    assert(sy.plus(sz) == c22.plus(c23).plus(c33)) by {
        ring::lemma_times_plus(s, y2, y3);
    }
    assert(p.minus(c23).minus(c33).plus(sy.plus(sy)) == p.minus(c23).minus(c33).plus(sy.plus(sz))
        .plus(sy.minus(sz))) by {
        let env = seq![p, c23, c33, sy, sz];
        let (e0, e1, e2, e3, e4) = (
            linear::e(0),
            linear::e(1),
            linear::e(2),
            linear::e(3),
            linear::e(4),
        );
        let (l, r) = (e0.s(e1).s(e2).a(e3.a(e3)), e0.s(e1).s(e2).a(e3.a(e4)).a(e3.s(e4)));
        reveal_with_fuel(linear::Sum::val, 6);
        reveal_with_fuel(linear::Sum::count, 6);
        reveal_with_fuel(linear::Sum::within, 6);
        reveal_with_fuel(linear::same_counts, 6);
        linear::lemma_sums(l, r, env);
    }
    assert(p.minus(c23).minus(c33).plus(c22.plus(c23).plus(c33)).plus(q.minus(p)) == c22
        .plus(q)) by {
        let env = seq![p, c23, c33, c22, q];
        let (e0, e1, e2, e3, e4) = (
            linear::e(0),
            linear::e(1),
            linear::e(2),
            linear::e(3),
            linear::e(4),
        );
        let (l, r) = (e0.s(e1).s(e2).a(e3.a(e1).a(e2)).a(e4.s(e0)), e3.a(e4));
        reveal_with_fuel(linear::Sum::val, 6);
        reveal_with_fuel(linear::Sum::count, 6);
        reveal_with_fuel(linear::Sum::within, 6);
        reveal_with_fuel(linear::same_counts, 6);
        linear::lemma_sums(l, r, env);
    }
}

/// With `λ` the slope between the first two points, `s` that between the last two,
/// and `a = y1 + y2 + s·(x1 − x2)`: `a·(λ − s) = (x1 − x3)·(x1 − t)`.
proof fn lemma_slope_product(
    x1: El,
    y1: El,
    x2: El,
    y2: El,
    x3: El,
    y3: El,
    l: El,
    s: El,
)
    requires
        x1.reduced(),
        x2.reduced(),
        x3.reduced(),
        y1.reduced(),
        y2.reduced(),
        is_slope(x1, y1, x2, y2, l),
        is_slope(x2, y2, x3, y3, s),
    ensures
        ({
            let t = s.times(s).minus(x2).minus(x3);
            let a = y1.plus(y2).plus(s.times(x1.minus(x2)));
            a.times(l.minus(s)) == x1.minus(x3).times(x1.minus(t))
        }),
{
    let ss = s.times(s);
    let t = ss.minus(x2).minus(x3);
    let x12 = x1.minus(x2);
    let a = y1.plus(y2).plus(s.times(x12));
    let (c11, c12, c22, c13) = (x1.times(x1), x1.times(x2), x2.times(x2), x1.times(x3));
    let (p1, p2) = (ss.times(x1), ss.times(x2));
    let (sy1, sy2) = (s.times(y1), s.times(y2));
    let x3t = x3.times(t);
    ring::lemma_reduced(x1, x1);
    ring::lemma_reduced(x1, x2);
    ring::lemma_reduced(x2, x2);
    ring::lemma_reduced(x1, x3);
    ring::lemma_reduced(ss, x1);
    ring::lemma_reduced(ss, x2);
    ring::lemma_reduced(s, y1);
    ring::lemma_reduced(s, y2);
    ring::lemma_reduced(x3, t);
    // the left side
    let ly = y1.plus(y2);
    let sx = s.times(x12);
    assert(a.times(l.minus(s)) == c11.plus(c12).plus(c22).plus(sy1.minus(sy2)).minus(
        sy1.plus(sy2).plus(p1.minus(p2)),
    )) by {
        ring::lemma_times_minus(a, l, s);
        lemma_left(ly, sx, l);
        lemma_left(ly, sx, s);
        ring::lemma_times_comm(ly, l);
        // (s·(x1 − x2))·l = s·(y1 − y2)
        ring::lemma_times_assoc(s, x12, l);
        ring::lemma_times_comm(x12, l);
        ring::lemma_times_minus(s, y1, y2);
        ring::lemma_times_comm(ly, s);
        ring::lemma_times_plus(s, y1, y2);
        // (s·(x1 − x2))·s = s²·x1 − s²·x2
        ring::lemma_times_comm(sx, s);
        ring::lemma_times_assoc(s, s, x12);
        ring::lemma_times_minus(ss, x1, x2);
    }
    // the right side
    assert(x1.minus(x3).times(x1.minus(t)) == c11.minus(p1.minus(c12).minus(c13)).minus(
        c13.minus(x3t),
    )) by {
        lemma_foil(x1, x3, x1, t);
        ring::lemma_times_minus(x1, ss.minus(x2), x3);
        ring::lemma_times_minus(x1, ss, x2);
        ring::lemma_times_comm(x1, ss);
        ring::lemma_times_comm(x3, x1);
    }
    lemma_third(x2, y2, x3, y3, s);
    assert(c11.minus(p1.minus(c12).minus(c13)).minus(c13.minus(x3t)) == c11.minus(p1.minus(c12))
        .plus(x3t.plus(sy2.plus(sy2))).minus(sy2.plus(sy2))) by {
        let env = seq![c11, p1, c12, c13, x3t, sy2];
        let (e0, e1, e2, e3, e4, e5) = (
            linear::e(0),
            linear::e(1),
            linear::e(2),
            linear::e(3),
            linear::e(4),
            linear::e(5),
        );
        let (l, r) = (e0.s(e1.s(e2).s(e3)).s(e3.s(e4)), e0.s(e1.s(e2)).a(e4.a(e5.a(e5))).s(e5
            .a(e5)));
        reveal_with_fuel(linear::Sum::val, 6);
        reveal_with_fuel(linear::Sum::count, 6);
        reveal_with_fuel(linear::Sum::within, 6);
        reveal_with_fuel(linear::same_counts, 7);
        linear::lemma_sums(l, r, env);
    }
    assert(c11.minus(p1.minus(c12)).plus(c22.plus(p2)).minus(sy2.plus(sy2)) == c11.plus(c12)
        .plus(c22).plus(sy1.minus(sy2)).minus(sy1.plus(sy2).plus(p1.minus(p2)))) by {
        let env = seq![c11, p1, c12, c22, p2, sy2, sy1];
        let (e0, e1, e2, e3, e4, e5, e6) = (
            linear::e(0),
            linear::e(1),
            linear::e(2),
            linear::e(3),
            linear::e(4),
            linear::e(5),
            linear::e(6),
        );
        let (l, r) = (e0.s(e1.s(e2)).a(e3.a(e4)).s(e5.a(e5)), e0.a(e2).a(e3).a(e6.s(e5)).s(e6
            .a(e5).a(e1.s(e4))));
        reveal_with_fuel(linear::Sum::val, 6);
        reveal_with_fuel(linear::Sum::count, 6);
        reveal_with_fuel(linear::Sum::within, 6);
        reveal_with_fuel(linear::same_counts, 8);
        linear::lemma_sums(l, r, env);
    }
}

/// The sum of the slopes to the sum of the last two points, and from it to the first,
/// times the difference of slopes, is `x1 − x3`.
proof fn lemma_slope_sum(
    x1: El,
    y1: El,
    x2: El,
    y2: El,
    x3: El,
    y3: El,
    k: El,
    l: El,
    s: El,
    r: El,
)
    requires
        x1.reduced(),
        x2.reduced(),
        x3.reduced(),
        y1.reduced(),
        y2.reduced(),
        is_slope(x1, y1, x2, y2, l),
        is_slope(x2, y2, x3, y3, s),
        ({
            let t = s.times(s).minus(x2).minus(x3);
            let w = s.times(x2.minus(t)).minus(y2);
            &&& points::on_curve(x1, y1, k)
            &&& points::on_curve(t, w, k)
            &&& is_slope(x1, y1, t, w, r)
            &&& !(x1 == t && y1 == w.opp())
        }),
    ensures
        s.plus(r).times(l.minus(s)) == x1.minus(x3),
{
    let ss = s.times(s);
    let t = ss.minus(x2).minus(x3);
    let w = s.times(x2.minus(t)).minus(y2);
    let a = y1.plus(y2).plus(s.times(x1.minus(x2)));
    let z = x1.minus(t);
    let g = l.minus(s);
    let (sx1, sx2, st) = (s.times(x1), s.times(x2), s.times(t));
    ring::lemma_reduced(s, x1);
    ring::lemma_reduced(s, x2);
    ring::lemma_reduced(s, t);
    ring::lemma_reduced(ss.minus(x2), x3);
    ring::lemma_reduced(s.times(x2.minus(t)), y2);
    ring::lemma_reduced(x1, t);
    ring::lemma_reduced(l, s);
    ring::lemma_reduced(s, r);
    ring::lemma_reduced(x1, x3);
    ring::lemma_reduced(s.plus(r), g);
    lemma_slope_product(x1, y1, x2, y2, x3, y3, l, s);
    // (s + r)·(x1 − t) = a
    assert(s.plus(r).times(z) == a) by {
        lemma_left(s, r, z);
        ring::lemma_times_minus(s, x1, t);
        ring::lemma_times_minus(s, x1, x2);
        ring::lemma_times_minus(s, x2, t);
        assert(sx1.minus(st).plus(y1.minus(sx2.minus(st).minus(y2))) == y1.plus(y2).plus(sx1
            .minus(sx2))) by {
            let env = seq![sx1, st, y1, sx2, y2];
            let (e0, e1, e2, e3, e4) = (
                linear::e(0),
                linear::e(1),
                linear::e(2),
                linear::e(3),
                linear::e(4),
            );
            let (l, r) = (e0.s(e1).a(e2.s(e3.s(e1).s(e4))), e2.a(e4).a(e0.s(e3)));
            reveal_with_fuel(linear::Sum::val, 6);
            reveal_with_fuel(linear::Sum::count, 6);
            reveal_with_fuel(linear::Sum::within, 6);
            reveal_with_fuel(linear::same_counts, 6);
            linear::lemma_sums(l, r, env);
        }
    }
    let e = s.plus(r).times(g);
    let d = x1.minus(x3);
    if x1 != t {
        ring::lemma_minus_zero(x1, t);
        // ((s + r)·g)·z = a·g = d·z
        ring::lemma_times_assoc(s.plus(r), g, z);
        ring::lemma_times_comm(g, z);
        ring::lemma_times_assoc(s.plus(r), z, g);
        lemma_cancel_factor(e, d, z);
    } else {
        points::lemma_same_abscissa(t, w, y1, k);
        points::lemma_own_opposite(w);
        lemma_slope_sum_doubled(x1, y1, x2, y2, x3, y3, l, s, r);
        ring::lemma_reduced(y1, y1);
        points::lemma_double_zero(y1);
        lemma_cancel_factor(e, d, y1.plus(y1));
    }
}

/// The same where the first point is the sum of the others, times its doubled
/// ordinate.
proof fn lemma_slope_sum_doubled(
    x1: El,
    y1: El,
    x2: El,
    y2: El,
    x3: El,
    y3: El,
    l: El,
    s: El,
    r: El,
)
    requires
        x1.reduced(),
        x2.reduced(),
        x3.reduced(),
        y1.reduced(),
        y2.reduced(),
        is_slope(x1, y1, x2, y2, l),
        is_slope(x2, y2, x3, y3, s),
        x1 == s.times(s).minus(x2).minus(x3),
        y1 == s.times(x2.minus(x1)).minus(y2),
        is_slope(x1, y1, x1, y1, r),
    ensures
        s.plus(r).times(l.minus(s)).times(y1.plus(y1)) == x1.minus(x3).times(y1.plus(y1)),
{
    let ss = s.times(s);
    let g = l.minus(s);
    let yy = y1.plus(y1);
    let (x12, x13) = (x1.minus(x2), x1.minus(x3));
    let (sx1, sx2, sy1, sy2) = (s.times(x1), s.times(x2), s.times(y1), s.times(y2));
    let (c11, c12, c22, c13, c23) = (
        x1.times(x1),
        x1.times(x2),
        x2.times(x2),
        x1.times(x3),
        x2.times(x3),
    );
    let (p1, p2) = (ss.times(x1), ss.times(x2));
    ring::lemma_reduced(s, x1);
    ring::lemma_reduced(s, x2);
    ring::lemma_reduced(s, y1);
    ring::lemma_reduced(s, y2);
    ring::lemma_reduced(x1, x1);
    ring::lemma_reduced(x1, x2);
    ring::lemma_reduced(x2, x2);
    ring::lemma_reduced(x1, x3);
    ring::lemma_reduced(x2, x3);
    ring::lemma_reduced(ss, x1);
    ring::lemma_reduced(ss, x2);
    ring::lemma_reduced(s, s);
    // (x1 − x2)·(l − s) = 2·y1
    assert(x12.times(g) == yy) by {
        ring::lemma_times_minus(x12, l, s);
        ring::lemma_times_comm(x12, l);
        ring::lemma_times_comm(x12, s);
        ring::lemma_times_minus(s, x1, x2);
        ring::lemma_times_minus(s, x2, x1);
        // y1 − y2 − (s·x1 − s·x2), with s·x2 − s·x1 − y2 = y1
        assert(y1.minus(y2).minus(sx1.minus(sx2)) == y1.plus(sx2.minus(sx1).minus(y2))) by {
            let env = seq![y1, y2, sx1, sx2];
            let (e0, e1, e2, e3) = (
                linear::e(0),
                linear::e(1),
                linear::e(2),
                linear::e(3),
            );
            let (l, r) = (e0.s(e1).s(e2.s(e3)), e0.a(e3.s(e2).s(e1)));
            reveal_with_fuel(linear::Sum::val, 5);
            reveal_with_fuel(linear::Sum::count, 5);
            reveal_with_fuel(linear::Sum::within, 5);
            reveal_with_fuel(linear::same_counts, 5);
            linear::lemma_sums(l, r, env);
        }
    }
    // 2·s·y1 = 2·s²·x2 − 2·s²·x1 − 2·s·y2
    let h = p2.minus(p1).minus(sy2);
    assert(sy1 == h) by {
        ring::lemma_times_minus(s, s.times(x2.minus(x1)), y2);
        ring::lemma_times_assoc(s, s, x2.minus(x1));
        ring::lemma_times_minus(ss, x2, x1);
    }
    // s²·x1 and s²·x2, by s² = x1 + x2 + x3
    assert(ss == x1.plus(x2).plus(x3)) by {
        assert(ss == ss.minus(x2).minus(x3).plus(x2).plus(x3)) by {
            let env = seq![ss, x2, x3];
            let (e0, e1, e2) = (
                linear::e(0),
                linear::e(1),
                linear::e(2),
            );
            let (l, r) = (e0, e0.s(e1).s(e2).a(e1).a(e2));
            reveal_with_fuel(linear::Sum::val, 6);
            reveal_with_fuel(linear::Sum::count, 6);
            reveal_with_fuel(linear::Sum::within, 6);
            reveal_with_fuel(linear::same_counts, 4);
            linear::lemma_sums(l, r, env);
        }
    }
    assert(p1 == c11.plus(c12).plus(c13)) by {
        lemma_left(x1.plus(x2), x3, x1);
        lemma_left(x1, x2, x1);
        ring::lemma_times_comm(x2, x1);
        ring::lemma_times_comm(x3, x1);
    }
    assert(p2 == c12.plus(c22).plus(c23)) by {
        lemma_left(x1.plus(x2), x3, x2);
        lemma_left(x1, x2, x2);
        ring::lemma_times_comm(x3, x2);
    }
    // x1·x3 + 2·s·y2 = x2² + s²·x2
    lemma_third(x2, y2, x3, y3, s);
    ring::lemma_times_comm(x3, x1);
    assert(c13.plus(sy2.plus(sy2)) == c22.plus(p2));
    // 2·s·y1 + 3·x1² = (x1 − x2)·(x1 − x3)
    let n = sy1.plus(sy1).plus(c11.plus(c11).plus(c11));
    assert(n == x12.times(x13)) by {
        lemma_foil(x1, x2, x1, x3);
        ring::lemma_times_comm(x2, x1);
        assert(p2.minus(p1).minus(sy2).plus(p2.minus(p1).minus(sy2)).plus(c11.plus(c11).plus(c11))
            == p2.minus(p1).plus(p2.minus(p1)).plus(c11.plus(c11).plus(c11)).plus(c13).minus(c13
            .plus(sy2.plus(sy2)))) by {
            let env = seq![p2, p1, sy2, c11, c13];
            let (e0, e1, e2, e3, e4) = (
                linear::e(0),
                linear::e(1),
                linear::e(2),
                linear::e(3),
                linear::e(4),
            );
            let (l, r) = (e0.s(e1).s(e2).a(e0.s(e1).s(e2)).a(e3.a(e3).a(e3)), e0.s(e1).a(e0.s(e1))
                .a(e3.a(e3).a(e3)).a(e4).s(e4.a(e2.a(e2))));
            reveal_with_fuel(linear::Sum::val, 7);
            reveal_with_fuel(linear::Sum::count, 7);
            reveal_with_fuel(linear::Sum::within, 7);
            reveal_with_fuel(linear::same_counts, 6);
            linear::lemma_sums(l, r, env);
        }
        assert(p2.minus(p1).plus(p2.minus(p1)).plus(c11.plus(c11).plus(c11)).plus(c13).minus(c22
            .plus(p2)) == p2.minus(p1).minus(p1).plus(c11.plus(c11).plus(c11)).plus(c13)
            .minus(c22)) by {
            let env = seq![p2, p1, c11, c13, c22];
            let (e0, e1, e2, e3, e4) = (
                linear::e(0),
                linear::e(1),
                linear::e(2),
                linear::e(3),
                linear::e(4),
            );
            let (l, r) = (e0.s(e1).a(e0.s(e1)).a(e2.a(e2).a(e2)).a(e3).s(e4.a(e0)), e0.s(e1).s(e1)
                .a(e2.a(e2).a(e2)).a(e3).s(e4));
            reveal_with_fuel(linear::Sum::val, 7);
            reveal_with_fuel(linear::Sum::count, 7);
            reveal_with_fuel(linear::Sum::within, 7);
            reveal_with_fuel(linear::same_counts, 6);
            linear::lemma_sums(l, r, env);
        }
        assert(c12.plus(c22).plus(c23).minus(c11.plus(c12).plus(c13)).minus(c11.plus(c12)
            .plus(c13)).plus(c11.plus(c11).plus(c11)).plus(c13).minus(c22) == c11.minus(c13)
            .minus(c12.minus(c23))) by {
            let env = seq![c12, c22, c23, c11, c13];
            let (e0, e1, e2, e3, e4) = (
                linear::e(0),
                linear::e(1),
                linear::e(2),
                linear::e(3),
                linear::e(4),
            );
            let (l, r) = (e0.a(e1).a(e2).s(e3.a(e0).a(e4)).s(e3.a(e0).a(e4)).a(e3.a(e3).a(e3))
                .a(e4).s(e1), e3.s(e4).s(e0.s(e2)));
            reveal_with_fuel(linear::Sum::val, 9);
            reveal_with_fuel(linear::Sum::count, 9);
            reveal_with_fuel(linear::Sum::within, 9);
            reveal_with_fuel(linear::same_counts, 6);
            linear::lemma_sums(l, r, env);
        }
    }
    // (s + r)·2·y1 = n
    assert(s.plus(r).times(yy) == n) by {
        lemma_left(s, r, yy);
        ring::lemma_times_plus(s, y1, y1);
    }
    // ((s + r)·g)·2y1 = (n)·g = ((x1 − x2)·g)·(x1 − x3)
    ring::lemma_times_assoc(s.plus(r), g, yy);
    ring::lemma_times_comm(g, yy);
    ring::lemma_times_assoc(s.plus(r), yy, g);
    ring::lemma_times_comm(x12, x13);
    ring::lemma_times_assoc(x13, x12, g);
}

// ------------------------------------------------------------------ the sums

/// The two ways of adding three points by lines of slopes `a`, `b` and `c`, `d` with
/// `a + b = c + d` and `(a + b)·(a − c) = x1 − x3` end at one point.
proof fn lemma_same_end(
    x1: El,
    y1: El,
    x2: El,
    y2: El,
    x3: El,
    y3: El,
    a: El,
    b: El,
    c: El,
    d: El,
)
    requires
        x1.reduced(),
        x2.reduced(),
        x3.reduced(),
        y1.reduced(),
        y2.reduced(),
        y3.reduced(),
        b.reduced(),
        d.reduced(),
        is_slope(x1, y1, x2, y2, a),
        is_slope(x2, y2, x3, y3, c),
        a.plus(b) == c.plus(d),
        a.plus(b).times(a.minus(c)) == x1.minus(x3),
    ensures
        ({
            let t = a.times(a).minus(x1).minus(x2);
            let u = c.times(c).minus(x2).minus(x3);
            points::through(x3, y3, t, b) == points::through(x1, y1, u, d)
        }),
{
    let t = a.times(a).minus(x1).minus(x2);
    let u = c.times(c).minus(x2).minus(x3);
    let s = a.plus(b);
    let (ss, sa, sc, aa, cc) = (s.times(s), s.times(a), s.times(c), a.times(a), c.times(c));
    let e = x1.minus(x3);
    ring::lemma_reduced(a, b);
    ring::lemma_reduced(s, s);
    ring::lemma_reduced(s, a);
    ring::lemma_reduced(s, c);
    ring::lemma_reduced(a, a);
    ring::lemma_reduced(c, c);
    ring::lemma_reduced(x1, x3);
    // b = s − a and d = s − c
    assert(b == s.minus(a)) by {
        assert(b == a.plus(b).minus(a)) by {
            let env = seq![b, a];
            let (e0, e1) = (
                linear::e(0),
                linear::e(1),
            );
            let (l, r) = (e0, e1.a(e0).s(e1));
            reveal_with_fuel(linear::Sum::val, 4);
            reveal_with_fuel(linear::Sum::count, 4);
            reveal_with_fuel(linear::Sum::within, 4);
            reveal_with_fuel(linear::same_counts, 3);
            linear::lemma_sums(l, r, env);
        }
    }
    assert(d == s.minus(c)) by {
        assert(d == c.plus(d).minus(c)) by {
            let env = seq![d, c];
            let (e0, e1) = (
                linear::e(0),
                linear::e(1),
            );
            let (l, r) = (e0, e1.a(e0).s(e1));
            reveal_with_fuel(linear::Sum::val, 4);
            reveal_with_fuel(linear::Sum::count, 4);
            reveal_with_fuel(linear::Sum::within, 4);
            reveal_with_fuel(linear::same_counts, 3);
            linear::lemma_sums(l, r, env);
        }
    }
    assert(sa.minus(sc) == e) by {
        ring::lemma_times_minus(s, a, c);
    }
    // the abscissae
    assert(b.times(b) == ss.minus(sa).minus(sa.minus(aa))) by {
        lemma_foil(s, a, s, a);
        ring::lemma_times_comm(a, s);
    }
    assert(d.times(d) == ss.minus(sc).minus(sc.minus(cc))) by {
        lemma_foil(s, c, s, c);
        ring::lemma_times_comm(c, s);
    }
    let m = b.times(b).minus(x3).minus(t);
    let n = d.times(d).minus(x1).minus(u);
    let q = ss.minus(sa).minus(sa).plus(x1).plus(x2).minus(x3);
    assert(ss.minus(sa).minus(sa.minus(aa)).minus(x3).minus(aa.minus(x1).minus(x2)) == ss
        .minus(sa).minus(sa).plus(x1).plus(x2).minus(x3)) by {
        let env = seq![ss, sa, aa, x3, x1, x2];
        let (e0, e1, e2, e3, e4, e5) = (
            linear::e(0),
            linear::e(1),
            linear::e(2),
            linear::e(3),
            linear::e(4),
            linear::e(5),
        );
        let (l, r) = (e0.s(e1).s(e1.s(e2)).s(e3).s(e2.s(e4).s(e5)), e0.s(e1).s(e1).a(e4).a(e5)
            .s(e3));
        reveal_with_fuel(linear::Sum::val, 7);
        reveal_with_fuel(linear::Sum::count, 7);
        reveal_with_fuel(linear::Sum::within, 7);
        reveal_with_fuel(linear::same_counts, 7);
        linear::lemma_sums(l, r, env);
    }
    assert(ss.minus(sc).minus(sc.minus(cc)).minus(x1).minus(cc.minus(x2).minus(x3)) == ss
        .minus(sa).minus(sa).plus(x1).plus(x2).minus(x3).plus(sa.minus(sc)).plus(sa.minus(sc))
        .minus(x1.minus(x3)).minus(x1.minus(x3))) by {
        let env = seq![ss, sc, cc, x1, x2, x3, sa];
        let (e0, e1, e2, e3, e4, e5, e6) = (
            linear::e(0),
            linear::e(1),
            linear::e(2),
            linear::e(3),
            linear::e(4),
            linear::e(5),
            linear::e(6),
        );
        let (l, r) = (e0.s(e1).s(e1.s(e2)).s(e3).s(e2.s(e4).s(e5)), e0.s(e6).s(e6).a(e3).a(e4)
            .s(e5).a(e6.s(e1)).a(e6.s(e1)).s(e3.s(e5)).s(e3.s(e5)));
        reveal_with_fuel(linear::Sum::val, 11);
        reveal_with_fuel(linear::Sum::count, 11);
        reveal_with_fuel(linear::Sum::within, 11);
        reveal_with_fuel(linear::same_counts, 8);
        linear::lemma_sums(l, r, env);
    }
    ring::lemma_reduced(ss.minus(sa).minus(sa).plus(x1).plus(x2), x3);
    assert(q.plus(e).plus(e).minus(e).minus(e) == q) by {
        let env = seq![q, e];
        let (e0, e1) = (
            linear::e(0),
            linear::e(1),
        );
        let (l, r) = (e0.a(e1).a(e1).s(e1).s(e1), e0);
        reveal_with_fuel(linear::Sum::val, 6);
        reveal_with_fuel(linear::Sum::count, 6);
        reveal_with_fuel(linear::Sum::within, 6);
        reveal_with_fuel(linear::same_counts, 3);
        linear::lemma_sums(l, r, env);
    }
    assert(m == q && n == q);
    // the ordinates
    let (ax1, ax2, ax3, aq) = (a.times(x1), a.times(x2), a.times(x3), a.times(q));
    let (cx1, cx2, cx3, cq) = (c.times(x1), c.times(x2), c.times(x3), c.times(q));
    let (sx1, sx3, sq) = (s.times(x1), s.times(x3), s.times(q));
    ring::lemma_reduced(a, x1);
    ring::lemma_reduced(a, x2);
    ring::lemma_reduced(a, x3);
    ring::lemma_reduced(a, q);
    ring::lemma_reduced(c, x1);
    ring::lemma_reduced(c, x2);
    ring::lemma_reduced(c, x3);
    ring::lemma_reduced(c, q);
    ring::lemma_reduced(s, x1);
    ring::lemma_reduced(s, x3);
    ring::lemma_reduced(s, q);
    assert(b.times(x3.minus(q)) == sx3.minus(sq).minus(ax3.minus(aq))) by {
        lemma_foil(s, a, x3, q);
    }
    assert(d.times(x1.minus(q)) == sx1.minus(sq).minus(cx1.minus(cq))) by {
        lemma_foil(s, c, x1, q);
    }
    assert(y1.minus(y2) == ax1.minus(ax2)) by {
        ring::lemma_times_minus(a, x1, x2);
    }
    assert(y2.minus(y3) == cx2.minus(cx3)) by {
        ring::lemma_times_minus(c, x2, x3);
    }
    lemma_ordinates(x1, x2, x3, s, a, c);
    let w = sx1.minus(sq).minus(cx1.minus(cq)).minus(y1);
    ring::lemma_reduced(sx1.minus(sq).minus(cx1.minus(cq)), y1);
    // the difference of the ordinates is 2·a·e − 2·a·e
    assert(sx3.minus(sq).minus(ax3.minus(aq)).minus(y3) == sx1.minus(sq).minus(cx1.minus(cq))
        .minus(y1).plus(sx3.minus(sx1).minus(ax3).plus(cx1).plus(aq.minus(cq))).plus(y1.minus(y2))
        .plus(y2.minus(y3))) by {
        let env = seq![sx3, sq, ax3, aq, y3, sx1, cx1, cq, y1, y2];
        let (e0, e1, e2, e3, e4, e5, e6, e7, e8, e9) = (
            linear::e(0),
            linear::e(1),
            linear::e(2),
            linear::e(3),
            linear::e(4),
            linear::e(5),
            linear::e(6),
            linear::e(7),
            linear::e(8),
            linear::e(9),
        );
        let (l, r) = (e0.s(e1).s(e2.s(e3)).s(e4), e5.s(e1).s(e6.s(e7)).s(e8).a(e0.s(e5).s(e2)
            .a(e6).a(e3.s(e7))).a(e8.s(e9)).a(e9.s(e4)));
        reveal_with_fuel(linear::Sum::val, 9);
        reveal_with_fuel(linear::Sum::count, 9);
        reveal_with_fuel(linear::Sum::within, 9);
        reveal_with_fuel(linear::same_counts, 11);
        linear::lemma_sums(l, r, env);
    }
    assert(sx3.minus(sx1).minus(ax3).plus(cx1).plus(aq.minus(cq)).plus(ax1.minus(ax2)).plus(cx2
        .minus(cx3)) == aq.minus(cq).minus(sx1.minus(sx3).minus(ax1.minus(ax2).minus(ax3))
        .minus(cx1.plus(cx2).minus(cx3)))) by {
        let env = seq![sx3, sx1, ax3, cx1, aq, cq, ax1, ax2, cx2, cx3];
        let (e0, e1, e2, e3, e4, e5, e6, e7, e8, e9) = (
            linear::e(0),
            linear::e(1),
            linear::e(2),
            linear::e(3),
            linear::e(4),
            linear::e(5),
            linear::e(6),
            linear::e(7),
            linear::e(8),
            linear::e(9),
        );
        let (l, r) = (e0.s(e1).s(e2).a(e3).a(e4.s(e5)).a(e6.s(e7)).a(e8.s(e9)), e4.s(e5).s(e1
            .s(e0).s(e6.s(e7).s(e2)).s(e3.a(e8).s(e9))));
        reveal_with_fuel(linear::Sum::val, 8);
        reveal_with_fuel(linear::Sum::count, 8);
        reveal_with_fuel(linear::Sum::within, 8);
        reveal_with_fuel(linear::same_counts, 11);
        linear::lemma_sums(l, r, env);
    }
    let h = sx3.minus(sx1).minus(ax3).plus(cx1).plus(aq.minus(cq));
    let v = aq.minus(cq);
    ring::lemma_reduced(aq, cq);
    ring::lemma_reduced(ax1, ax2);
    ring::lemma_reduced(cx2, cx3);
    ring::lemma_reduced(sx3.minus(sx1).minus(ax3).plus(cx1), aq.minus(cq));
    ring::lemma_minus_zero(v, v);
    let (o, i) = (ax1.minus(ax2), cx2.minus(cx3));
    assert(w.plus(h).plus(o).plus(i) == w.plus(h.plus(o).plus(i))) by {
        let env = seq![w, h, o, i];
        let (e0, e1, e2, e3) = (
            linear::e(0),
            linear::e(1),
            linear::e(2),
            linear::e(3),
        );
        let (l, r) = (e0.a(e1).a(e2).a(e3), e0.a(e1.a(e2).a(e3)));
        reveal_with_fuel(linear::Sum::val, 5);
        reveal_with_fuel(linear::Sum::count, 5);
        reveal_with_fuel(linear::Sum::within, 5);
        reveal_with_fuel(linear::same_counts, 5);
        linear::lemma_sums(l, r, env);
    }
    ring::lemma_plus_zero(w);
}

/// With `e = x1 − x3 = s·a − s·c` and `q = s² − 2·s·a + x1 + x2 − x3`:
/// `(a − c)·q = s·x1 − s·x3 − a·(x1 − x2 − x3) − c·(x1 + x2 − x3)`.
proof fn lemma_ordinates(x1: El, x2: El, x3: El, s: El, a: El, c: El)
    requires
        x1.reduced(),
        x2.reduced(),
        x3.reduced(),
        s.times(a).minus(s.times(c)) == x1.minus(x3),
    ensures
        ({
            let sa = s.times(a);
            let q = s.times(s).minus(sa).minus(sa).plus(x1).plus(x2).minus(x3);
            a.times(q).minus(c.times(q)) == s.times(x1).minus(s.times(x3)).minus(
                a.times(x1).minus(a.times(x2)).minus(a.times(x3)),
            ).minus(c.times(x1).plus(c.times(x2)).minus(c.times(x3)))
        }),
{
    let g = a.minus(c);
    let e = x1.minus(x3);
    let (ss, sa) = (s.times(s), s.times(a));
    let q = ss.minus(sa).minus(sa).plus(x1).plus(x2).minus(x3);
    let (sx1, sx3) = (s.times(x1), s.times(x3));
    let (ax1, ax2, ax3) = (a.times(x1), a.times(x2), a.times(x3));
    let (cx1, cx2, cx3) = (c.times(x1), c.times(x2), c.times(x3));
    ring::lemma_reduced(s, x1);
    ring::lemma_reduced(s, x3);
    ring::lemma_reduced(a, x1);
    ring::lemma_reduced(a, x2);
    ring::lemma_reduced(a, x3);
    ring::lemma_reduced(c, x1);
    ring::lemma_reduced(c, x2);
    ring::lemma_reduced(c, x3);
    // g·s = e
    ring::lemma_times_minus(s, a, c);
    ring::lemma_times_comm(s, g);
    lemma_left(a, c, q);
    assert(g.times(q) == sx1.minus(sx3).minus(ax1.minus(ax3)).minus(ax1.minus(ax3)).plus(
        ax1.minus(cx1),
    ).plus(ax2.minus(cx2)).minus(ax3.minus(cx3))) by {
        ring::lemma_times_minus(g, ss.minus(sa).minus(sa).plus(x1).plus(x2), x3);
        ring::lemma_times_plus(g, ss.minus(sa).minus(sa).plus(x1), x2);
        ring::lemma_times_plus(g, ss.minus(sa).minus(sa), x1);
        ring::lemma_times_minus(g, ss.minus(sa), sa);
        ring::lemma_times_minus(g, ss, sa);
        // g·s² = e·s and g·(s·a) = e·a
        ring::lemma_times_assoc(g, s, s);
        ring::lemma_times_comm(e, s);
        ring::lemma_times_minus(s, x1, x3);
        ring::lemma_times_assoc(g, s, a);
        ring::lemma_times_comm(e, a);
        ring::lemma_times_minus(a, x1, x3);
        lemma_left(a, c, x1);
        lemma_left(a, c, x2);
        lemma_left(a, c, x3);
    }
    assert(sx1.minus(sx3).minus(ax1.minus(ax3)).minus(ax1.minus(ax3)).plus(ax1.minus(cx1))
        .plus(ax2.minus(cx2)).minus(ax3.minus(cx3)) == sx1.minus(sx3).minus(ax1.minus(ax2)
        .minus(ax3)).minus(cx1.plus(cx2).minus(cx3))) by {
        let env = seq![sx1, sx3, ax1, ax3, cx1, ax2, cx2, cx3];
        let (e0, e1, e2, e3, e4, e5, e6, e7) = (
            linear::e(0),
            linear::e(1),
            linear::e(2),
            linear::e(3),
            linear::e(4),
            linear::e(5),
            linear::e(6),
            linear::e(7),
        );
        let (l, r) = (e0.s(e1).s(e2.s(e3)).s(e2.s(e3)).a(e2.s(e4)).a(e5.s(e6)).s(e3.s(e7)), e0
            .s(e1).s(e2.s(e5).s(e3)).s(e4.a(e6).s(e7)));
        reveal_with_fuel(linear::Sum::val, 8);
        reveal_with_fuel(linear::Sum::count, 8);
        reveal_with_fuel(linear::Sum::within, 8);
        reveal_with_fuel(linear::same_counts, 9);
        linear::lemma_sums(l, r, env);
    }
}

/// Three points of which no two, nor a sum and the third, are equal or opposite where
/// that matters.
proof fn lemma_generic(x1: El, y1: El, x2: El, y2: El, x3: El, y3: El, k: El)
    requires
        k.reduced(),
        Pt::At(x1, y1).on(k),
        Pt::At(x2, y2).on(k),
        Pt::At(x3, y3).on(k),
        x1 != x3,
        Pt::At(x1, y1) != Pt::At(x2, y2).reflected(),
        Pt::At(x2, y2) != Pt::At(x3, y3).reflected(),
        Pt::At(x1, y1).plus(Pt::At(x2, y2)) != Pt::At(x3, y3).reflected(),
        Pt::At(x2, y2).plus(Pt::At(x3, y3)) != Pt::At(x1, y1).reflected(),
    ensures
        Pt::At(x1, y1).plus(Pt::At(x2, y2)).plus(Pt::At(x3, y3)) == Pt::At(x1, y1).plus(
            Pt::At(x2, y2).plus(Pt::At(x3, y3)),
        ),
{
    let (p1, p2, p3) = (Pt::At(x1, y1), Pt::At(x2, y2), Pt::At(x3, y3));
    lemma_sum_on_curve(p1, p2, k);
    lemma_sum_on_curve(p2, p3, k);
    lemma_sum_comm(p1, p2, k);
    lemma_slope(x1, y1, x2, y2, k);
    lemma_slope(x2, y2, x3, y3, k);
    let a = slope(x1, y1, x2, y2);
    let c = slope(x2, y2, x3, y3);
    lemma_slope_comm(x1, y1, x2, y2, k);
    lemma_slope_comm(x2, y2, x3, y3, k);
    lemma_through_comm(x1, y1, x2, y2, a);
    // l = p1 + p2 = (t, w) and m = p2 + p3 = (u, z)
    let t = a.times(a).minus(x1).minus(x2);
    let w = a.times(x1.minus(t)).minus(y1);
    let u = c.times(c).minus(x2).minus(x3);
    let z = c.times(x2.minus(u)).minus(y2);
    let (l, m) = (Pt::At(t, w), Pt::At(u, z));
    assert(p1.plus(p2) == l && p2.plus(p3) == m);
    ring::lemma_opp_opp(y3);
    ring::lemma_opp_opp(y1);
    ring::lemma_opp_opp(w);
    ring::lemma_opp_opp(z);
    let b = slope(x3, y3, t, w);
    let d = slope(x1, y1, u, z);
    lemma_slope(x3, y3, t, w, k);
    lemma_slope(x1, y1, u, z, k);
    lemma_sum_comm(l, p3, k);
    // (c + d)·(a − c) = x1 − x3
    lemma_slope_sum(x1, y1, x2, y2, x3, y3, k, a, c, d);
    // (a + b)·(c − a) = x3 − x1
    assert(t == a.times(a).minus(x2).minus(x1) && w == a.times(x2.minus(t)).minus(y2));
    lemma_slope_sum(x3, y3, x2, y2, x1, y1, k, c, a, b);
    // so a + b = c + d
    let g = a.minus(c);
    ring::lemma_reduced(a, c);
    ring::lemma_reduced(a, b);
    ring::lemma_reduced(c, d);
    ring::lemma_reduced(x1, x3);
    lemma_turned(a, c);
    lemma_turned(x1, x3);
    ring::lemma_times_opp(a.plus(b), g);
    ring::lemma_reduced(a.plus(b), g);
    ring::lemma_opp_opp(a.plus(b).times(g));
    ring::lemma_opp_opp(x1.minus(x3));
    assert(a.plus(b).times(g) == x1.minus(x3));
    ring::lemma_minus_zero(x1, x3);
    if g == El::num(0) {
        ring::lemma_times_zero(a.plus(b));
    }
    lemma_cancel_factor(a.plus(b), c.plus(d), g);
    lemma_same_end(x1, y1, x2, y2, x3, y3, a, b, c, d);
}

/// The sum of two points of the curve is on the curve.
pub proof fn lemma_sum_on_curve(p: Pt, q: Pt, k: El)
    requires
        p.on(k),
        q.on(k),
        k.reduced(),
    ensures
        p.plus(q).on(k),
{
    match (p, q) {
        (Pt::At(u, v), Pt::At(a, b)) => {
            if u != a {
                points::lemma_chord_on_curve(u, v, a, b, k);
            } else if v == b && b != El::num(0) {
                lemma_double_on_curve(u, v, k);
            }
        },
        _ => {},
    }
}

/// The double of a point of the curve is on the curve.
proof fn lemma_double_on_curve(u: El, v: El, k: El)
    requires
        u.reduced(),
        v.reduced(),
        k.reduced(),
        points::on_curve(u, v, k),
        v != El::num(0),
    ensures
        Pt::At(u, v).plus(Pt::At(u, v)).on(k),
{
    points::lemma_own_opposite(v);
    lemma_slope(u, v, u, v, k);
    let s = slope(u, v, u, v);
    let ss = s.times(s);
    let t = ss.minus(u).minus(u);
    let w = s.times(u.minus(t)).minus(v);
    let m = u.minus(t);
    let (uu, ut, tt, sv) = (u.times(u), u.times(t), t.times(t), s.times(v));
    ring::lemma_reduced(ss.minus(u), u);
    ring::lemma_reduced(s.times(m), v);
    ring::lemma_reduced(u, u);
    ring::lemma_reduced(u, t);
    ring::lemma_reduced(t, t);
    ring::lemma_reduced(s, v);
    ring::lemma_reduced(u, t);
    // u·t + 2·s·v = u² + s²·u, and s² = 2u + t: 2·s·v = 3·u²
    assert(sv.plus(sv) == uu.plus(uu).plus(uu)) by {
        ring::lemma_times_plus(s, v, v);
    }
    let (vv, uuu, uut, utt, ttt) = (
        v.times(v),
        uu.times(u),
        uu.times(t),
        ut.times(t),
        tt.times(t),
    );
    ring::lemma_reduced(v, v);
    ring::lemma_reduced(uu, u);
    ring::lemma_reduced(uu, t);
    ring::lemma_reduced(ut, t);
    ring::lemma_reduced(tt, t);
    let sm = s.times(m);
    // w² = (s·m)² − 2·(s·m)·v + v²
    assert(w.times(w) == sm.times(sm).minus(sm.times(v)).minus(sm.times(v).minus(vv))) by {
        lemma_foil(sm, v, sm, v);
        ring::lemma_times_comm(v, sm);
    }
    // (s·m)·v + (s·m)·v = (u − t)·3u²
    let smv = sm.times(v);
    ring::lemma_reduced(sm, v);
    assert(smv == m.times(sv)) by {
        ring::lemma_times_comm(s, m);
        ring::lemma_times_assoc(m, s, v);
    }
    assert(smv.plus(smv) == uuu.minus(uut).plus(uuu.minus(uut)).plus(uuu.minus(uut))) by {
        ring::lemma_times_plus(m, sv, sv);
        ring::lemma_times_plus(m, uu.plus(uu), uu);
        ring::lemma_times_plus(m, uu, uu);
        ring::lemma_times_comm(m, uu);
        ring::lemma_times_minus(uu, u, t);
    }
    // (s·m)² = s²·m², with s² = u + u + t
    assert(ss == u.plus(u).plus(t)) by {
        ring::lemma_reduced(s, s);
        assert(ss == u.plus(u).plus(ss.minus(u).minus(u))) by {
            let env = seq![ss, u];
            let (e0, e1) = (
                linear::e(0),
                linear::e(1),
            );
            let (l, r) = (e0, e1.a(e1).a(e0.s(e1).s(e1)));
            reveal_with_fuel(linear::Sum::val, 5);
            reveal_with_fuel(linear::Sum::count, 5);
            reveal_with_fuel(linear::Sum::within, 5);
            reveal_with_fuel(linear::same_counts, 3);
            linear::lemma_sums(l, r, env);
        }
    }
    let mm = m.times(m);
    assert(mm == uu.minus(ut).minus(ut.minus(tt))) by {
        lemma_foil(u, t, u, t);
        ring::lemma_times_comm(t, u);
    }
    let smsm = sm.times(sm);
    assert(smsm == mm.times(u).plus(mm.times(u)).plus(mm.times(t))) by {
        ring::lemma_times_swap(s, m, s, m);
        lemma_left(u.plus(u), t, mm);
        lemma_left(u, u, mm);
        ring::lemma_times_comm(mm, u);
        ring::lemma_times_comm(mm, t);
    }
    assert(mm.times(u) == uuu.minus(uut).minus(uut.minus(utt))) by {
        lemma_left(uu.minus(ut), ut.minus(tt), u);
        lemma_left(uu, ut, u);
        lemma_left(ut, tt, u);
        // (u·t)·u = u²·t and t²·u = (u·t)·t
        ring::lemma_times_assoc(u, t, u);
        ring::lemma_times_comm(t, u);
        ring::lemma_times_assoc(u, u, t);
        ring::lemma_times_comm(tt, u);
        ring::lemma_times_assoc(u, t, t);
    }
    assert(mm.times(t) == uut.minus(utt).minus(utt.minus(ttt))) by {
        lemma_left(uu.minus(ut), ut.minus(tt), t);
        lemma_left(uu, ut, t);
        lemma_left(ut, tt, t);
    }
    assert(vv == uuu.plus(k));
    assert(uuu.minus(uut).minus(uut.minus(utt)).plus(uuu.minus(uut).minus(uut.minus(utt)))
        .plus(uut.minus(utt).minus(utt.minus(ttt))).minus(smv).minus(smv.minus(uuu.plus(k)))
        == uuu.minus(uut).plus(uuu.minus(uut)).plus(uuu.minus(uut)).plus(ttt).plus(k).minus(smv
        .plus(smv))) by {
        let env = seq![uuu, uut, utt, ttt, smv, k];
        let (e0, e1, e2, e3, e4, e5) = (
            linear::e(0),
            linear::e(1),
            linear::e(2),
            linear::e(3),
            linear::e(4),
            linear::e(5),
        );
        let (l, r) = (e0.s(e1).s(e1.s(e2)).a(e0.s(e1).s(e1.s(e2))).a(e1.s(e2).s(e2.s(e3))).s(e4)
            .s(e4.s(e0.a(e5))), e0.s(e1).a(e0.s(e1)).a(e0.s(e1)).a(e3).a(e5).s(e4.a(e4)));
        reveal_with_fuel(linear::Sum::val, 8);
        reveal_with_fuel(linear::Sum::count, 8);
        reveal_with_fuel(linear::Sum::within, 8);
        reveal_with_fuel(linear::same_counts, 7);
        linear::lemma_sums(l, r, env);
    }
    let big = uuu.minus(uut).plus(uuu.minus(uut)).plus(uuu.minus(uut));
    ring::lemma_reduced(uuu.minus(uut).plus(uuu.minus(uut)), uuu.minus(uut));
    assert(big.plus(ttt).plus(k).minus(big) == ttt.plus(k)) by {
        let env = seq![big, ttt, k];
        let (e0, e1, e2) = (
            linear::e(0),
            linear::e(1),
            linear::e(2),
        );
        let (l, r) = (e0.a(e1).a(e2).s(e0), e1.a(e2));
        reveal_with_fuel(linear::Sum::val, 5);
        reveal_with_fuel(linear::Sum::count, 5);
        reveal_with_fuel(linear::Sum::within, 5);
        reveal_with_fuel(linear::same_counts, 4);
        linear::lemma_sums(l, r, env);
    }
}

/// The sum of three points does not depend on the grouping.
pub proof fn lemma_sum_assoc(p: Pt, q: Pt, o: Pt, k: El)
    requires
        p.on(k),
        q.on(k),
        o.on(k),
        k.reduced(),
        k != El::num(0),
    ensures
        p.plus(q).plus(o) == p.plus(q.plus(o)),
{
    lemma_reflected_twice(p, k);
    lemma_reflected_twice(q, k);
    lemma_reflected_twice(o, k);
    lemma_sum_on_curve(p, q, k);
    lemma_sum_on_curve(q, o, k);
    lemma_sum_comm(p, q, k);
    lemma_sum_comm(q, o, k);
    lemma_sum_comm(p.plus(q), o, k);
    lemma_sum_comm(p, q.plus(o), k);
    lemma_sum_comm(p, o, k);
    if p == Pt::Inf || q == Pt::Inf || o == Pt::Inf {
    } else if p == o {
    } else if p == q.reflected() {
        // (o + q) + p = o, with p = −q
        points::lemma_undone(o, q, k);
        points::lemma_difference_zero(q, q, k);
    } else if q == o.reflected() {
        // (p + q) + o = p, with o = −q
        points::lemma_undone(p, q, k);
        points::lemma_difference_zero(q, q, k);
    } else if p == o.reflected() {
        // (q + p) + o = q and (q + o) + p = q
        points::lemma_undone(q, p, k);
        points::lemma_undone(q, o, k);
    } else if p.plus(q) == o.reflected() {
        // q − (p + q) = −p
        points::lemma_undone(p, q, k);
        points::lemma_reflected_sum(p.plus(q), q.reflected());
        lemma_sum_comm(o, q, k);
        points::lemma_difference_zero(p, p, k);
        points::lemma_difference_zero(o.reflected(), o.reflected(), k);
    } else if q.plus(o) == p.reflected() {
        // q − (q + o) = −o
        points::lemma_undone(o, q, k);
        points::lemma_reflected_sum(o.plus(q), q.reflected());
        points::lemma_difference_zero(o.reflected(), o.reflected(), k);
        points::lemma_difference_zero(p, p, k);
    } else {
        match (p, q, o) {
            (Pt::At(x1, y1), Pt::At(x2, y2), Pt::At(x3, y3)) => {
                if x1 == x3 {
                    points::lemma_same_abscissa(x1, y3, y1, k);
                }
                lemma_generic(x1, y1, x2, y2, x3, y3, k);
            },
            _ => {},
        }
    }
}

/// A point is reflected twice to itself, and stays on the curve.
pub proof fn lemma_reflected_twice(p: Pt, k: El)
    requires
        p.on(k),
    ensures
        p.reflected().reflected() == p,
        p.reflected().on(k),
{
    match p {
        Pt::At(x, y) => {
            ring::lemma_opp_opp(y);
            ring::lemma_reduced(y, y);
            ring::lemma_times_opp(y.opp(), y);
            ring::lemma_times_opp(y, y);
            ring::lemma_opp_opp(y.times(y));
        },
        _ => {},
    }
}

// --------------------------------------------------------------- multiples

/// The multiples of a point of the curve are on the curve.
pub proof fn lemma_multiple_on_curve(p: Pt, n: nat, k: El)
    requires
        p.on(k),
        k.reduced(),
    ensures
        p.times(n).on(k),
    decreases n,
{
    if n > 0 {
        lemma_multiple_on_curve(p, (n - 1) as nat, k);
        lemma_sum_on_curve(p.times((n - 1) as nat), p, k);
    }
}

/// Multiples of the point at infinity.
pub proof fn lemma_infinity_times(n: nat)
    ensures
        Pt::Inf.times(n) == Pt::Inf,
    decreases n,
{
    if n > 0 {
        lemma_infinity_times((n - 1) as nat);
    }
}

/// The multiple of a sum is the sum of the multiples.
pub proof fn lemma_multiple_of_sum(p: Pt, q: Pt, n: nat, k: El)
    requires
        p.on(k),
        q.on(k),
        k.reduced(),
        k != El::num(0),
    ensures
        p.plus(q).times(n) == p.times(n).plus(q.times(n)),
    decreases n,
{
    if n > 0 {
        let m = (n - 1) as nat;
        lemma_multiple_of_sum(p, q, m, k);
        lemma_multiple_on_curve(p, m, k);
        lemma_multiple_on_curve(q, m, k);
        lemma_swapped_sums(p.times(m), q.times(m), p, q, k);
    }
}

/// Swaps the inner terms of a sum of two sums.
proof fn lemma_swapped_sums(p: Pt, q: Pt, o: Pt, r: Pt, k: El)
    requires
        p.on(k),
        q.on(k),
        o.on(k),
        r.on(k),
        k.reduced(),
        k != El::num(0),
    ensures
        p.plus(q).plus(o.plus(r)) == p.plus(o).plus(q.plus(r)),
{
    lemma_sum_on_curve(o, r, k);
    lemma_sum_on_curve(q, r, k);
    lemma_sum_assoc(p, q, o.plus(r), k);
    lemma_sum_assoc(q, o, r, k);
    lemma_sum_comm(q, o, k);
    lemma_sum_assoc(o, q, r, k);
    lemma_sum_assoc(p, o, q.plus(r), k);
}

/// Multiples of multiples, in either order.
pub proof fn lemma_multiple_of_multiple(p: Pt, m: nat, n: nat, k: El)
    requires
        p.on(k),
        k.reduced(),
        k != El::num(0),
    ensures
        p.times(m).times(n) == p.times(n).times(m),
    decreases m,
{
    if m > 0 {
        let l = (m - 1) as nat;
        lemma_multiple_of_multiple(p, l, n, k);
        lemma_multiple_on_curve(p, l, k);
        lemma_multiple_of_sum(p.times(l), p, n, k);
    } else {
        lemma_infinity_times(n);
    }
}

/// Differences of sums with one point are those of the others.
pub proof fn lemma_difference_of_sums(p: Pt, q: Pt, o: Pt, k: El)
    requires
        p.on(k),
        q.on(k),
        o.on(k),
        k.reduced(),
        k != El::num(0),
    ensures
        p.plus(o).plus(q.plus(o).reflected()) == p.plus(q.reflected()),
{
    lemma_reflected_twice(q, k);
    lemma_reflected_twice(o, k);
    points::lemma_reflected_sum(q, o);
    lemma_swapped_sums(p, o, q.reflected(), o.reflected(), k);
    points::lemma_difference_zero(o, o, k);
}

} // verus!
