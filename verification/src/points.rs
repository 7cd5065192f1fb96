//! The mathematical model of a curve `y² = x³ + b`: its points and their
//! addition by chords and tangents.
use crate::inverse;
use crate::linear;
use crate::ring;
use crate::ring::El;
use vstd::prelude::*;

verus! {

/// A point in affine coordinates, or the point at infinity.
pub enum Pt {
    Inf,
    At(El, El),
}

impl Pt {
    /// Whether the point lies on `y² = x³ + b`.
    pub open spec fn on(self, b: El) -> bool {
        match self {
            Pt::Inf => true,
            Pt::At(x, y) => x.reduced() && y.reduced() && y.times(y) == x.times(x).times(x).plus(b),
        }
    }

    /// The sum of two points.
    pub open spec fn plus(self, o: Pt) -> Pt {
        match (self, o) {
            (Pt::Inf, _) => o,
            (_, Pt::Inf) => self,
            (Pt::At(x1, y1), Pt::At(x2, y2)) => if x1 != x2 {
                through(x1, y1, x2, y1.minus(y2).times(inverse::inv(x1.minus(x2))))
            } else if y1 != y2 || y1 == El::num(0) {
                Pt::Inf
            } else {
                through(
                    x1,
                    y1,
                    x1,
                    El::num(3).times(x1).times(x1).times(inverse::inv(y1.plus(y1))),
                )
            },
        }
    }

    /// `n` times the point.
    pub open spec fn times(self, n: nat) -> Pt
        decreases n,
    {
        if n == 0 {
            Pt::Inf
        } else {
            self.times((n - 1) as nat).plus(self)
        }
    }
}

/// The reflected third point on the line of slope `s` through `(x1, y1)` that
/// meets the curve at the abscissae `x1` and `x2`.
pub open spec fn through(x1: El, y1: El, x2: El, s: El) -> Pt {
    let x3 = s.times(s).minus(x1).minus(x2);
    Pt::At(x3, s.times(x1.minus(x3)).minus(y1))
}

// ------------------------------------------------- the reduced addition law

/// `X = 2β − 2bv + a²u + au²`.
pub open spec fn sum_x(u: El, v: El, a: El, b: El, k: El) -> El {
    k.plus(k).minus(b.plus(b).times(v)).plus(a.times(a).times(u)).plus(a.times(u).times(u))
}

/// `Y = bv² + 3abu² − 3a²uv − (a³ + 4β)v + 3bβ`.
pub open spec fn sum_y(u: El, v: El, a: El, b: El, k: El) -> El {
    let three = El::num(3);
    b.times(v).times(v).plus(three.times(a).times(b).times(u).times(u)).minus(
        three.times(a).times(a).times(u).times(v),
    ).minus(a.times(a).times(a).plus(El::num(4).times(k)).times(v)).plus(three.times(b).times(k))
}

/// The curve equation, in the grouping used below.
pub open spec fn on_curve(x: El, y: El, k: El) -> bool {
    y.times(y) == x.times(x).times(x).plus(k)
}

/// `3·x = x + x + x` and `4·x = (x + x) + (x + x)`.
pub proof fn lemma_small_multiples(x: El)
    requires
        x.reduced(),
    ensures
        El::num(3).times(x) == x.plus(x).plus(x),
        El::num(4).times(x) == x.plus(x).plus(x.plus(x)),
        El::num(8).times(x) == x.plus(x).plus(x.plus(x)).plus(x.plus(x).plus(x.plus(x))),
{
    let one = El::num(1);
    ring::lemma_times_one(x);
    ring::lemma_num_ops(1, 1);
    ring::lemma_num_ops(2, 1);
    ring::lemma_num_ops(2, 2);
    ring::lemma_num_ops(4, 4);
    ring::lemma_times_plus(x, one, one);
    ring::lemma_times_plus(x, El::num(2), one);
    ring::lemma_times_plus(x, El::num(2), El::num(2));
    ring::lemma_times_plus(x, El::num(4), El::num(4));
    ring::lemma_times_comm(x, El::num(3));
    ring::lemma_times_comm(x, El::num(4));
    ring::lemma_times_comm(x, El::num(8));
}

/// `(x + y)·z = z·x + z·y` and `(x − y)·z = z·x − z·y`.
proof fn lemma_right(x: El, y: El, z: El)
    ensures
        x.plus(y).times(z) == z.times(x).plus(z.times(y)),
        x.minus(y).times(z) == z.times(x).minus(z.times(y)),
{
    ring::lemma_times_comm(x.plus(y), z);
    ring::lemma_times_comm(x.minus(y), z);
    ring::lemma_times_plus(z, x, y);
    ring::lemma_times_minus(z, x, y);
}

/// `(x − y)² = x² − y·x − y·x + y²`.
proof fn lemma_square_minus(x: El, y: El)
    ensures
        x.minus(y).times(x.minus(y)) == x.times(x).minus(y.times(x)).minus(y.times(x)).plus(
            y.times(y),
        ),
{
    let d = x.minus(y);
    lemma_right(x, y, d);
    lemma_right(x, y, x);
    lemma_right(x, y, y);
    ring::lemma_times_comm(x, d);
    ring::lemma_times_comm(y, d);
    ring::lemma_times_comm(x, y);
    let env = seq![x.times(x), y.times(x), y.times(y)];
    let l = linear::e(0).s(linear::e(1)).s(linear::e(1).s(linear::e(2)));
    let r = linear::e(0).s(linear::e(1)).s(linear::e(1)).a(linear::e(2));
    ring::lemma_reduced(x, x);
    ring::lemma_reduced(y, x);
    ring::lemma_reduced(y, y);
    reveal_with_fuel(linear::Sum::val, 5);
    reveal_with_fuel(linear::Sum::count, 5);
    reveal_with_fuel(linear::Sum::within, 5);
    reveal_with_fuel(linear::same_counts, 4);
    linear::lemma_sums(l, r, env);
}

/// The cubic products of `u` and `a` with `(u − a)²`.
proof fn lemma_cubics(u: El, a: El)
    requires
        u.reduced(),
        a.reduced(),
    ensures
        ({
            let zz = u.minus(a).times(u.minus(a));
            let (uuu, auu, aau, aaa) = (
                u.times(u).times(u),
                a.times(u).times(u),
                a.times(a).times(u),
                a.times(a).times(a),
            );
            &&& u.times(zz) == uuu.minus(auu).minus(auu).plus(aau)
            &&& a.times(zz) == auu.minus(aau).minus(aau).plus(aaa)
        }),
{
    lemma_square_minus(u, a);
    let env = seq![u.times(u), a.times(u), a.times(a)];
    let s = linear::e(0).s(linear::e(1)).s(linear::e(1)).a(linear::e(2));
    reveal_with_fuel(linear::Sum::val, 5);
    reveal_with_fuel(linear::Sum::within, 5);
    linear::lemma_distribute(u, s, env);
    linear::lemma_distribute(a, s, env);
    ring::lemma_times_comm(u, u.times(u));
    ring::lemma_times_comm(u, a.times(u));
    ring::lemma_times_comm(u, a.times(a));
    ring::lemma_times_assoc(a, u, u);
    ring::lemma_times_assoc(a, a, u);
    ring::lemma_times_comm(a, a.times(a));
}

/// `(v − b)² = X + (u + a)·Z²` for points of the curve.
proof fn lemma_x_identity(u: El, v: El, a: El, b: El, k: El)
    requires
        u.reduced(),
        v.reduced(),
        a.reduced(),
        b.reduced(),
        k.reduced(),
        on_curve(u, v, k),
        on_curve(a, b, k),
    ensures
        v.minus(b).times(v.minus(b)) == sum_x(u, v, a, b, k).plus(
            u.plus(a).times(u.minus(a).times(u.minus(a))),
        ),
{
    let zz = u.minus(a).times(u.minus(a));
    let (uuu, auu, aau, aaa) = (
        u.times(u).times(u),
        a.times(u).times(u),
        a.times(a).times(u),
        a.times(a).times(a),
    );
    let bv = b.times(v);
    lemma_square_minus(v, b);
    lemma_cubics(u, a);
    lemma_right(u, a, zz);
    ring::lemma_times_comm(zz, u);
    ring::lemma_times_comm(zz, a);
    lemma_right(b, b, v);
    ring::lemma_times_comm(v, b);
    ring::lemma_reduced(b, v);
    ring::lemma_reduced(a.times(u), u);
    ring::lemma_reduced(u.times(u), u);
    ring::lemma_reduced(a.times(a), u);
    ring::lemma_reduced(a.times(a), a);
    let env = seq![uuu, auu, aau, aaa, k, bv];
    let (e0, e1, e2, e3, e4, e5) = (
        linear::e(0),
        linear::e(1),
        linear::e(2),
        linear::e(3),
        linear::e(4),
        linear::e(5),
    );
    let l = e0.a(e4).s(e5).s(e5).a(e3.a(e4));
    let r = e4.a(e4).s(e5.a(e5)).a(e2).a(e1).a(
        e0.s(e1).s(e1).a(e2).a(e1.s(e2).s(e2).a(e3)),
    );
    assert(l.val(env) == v.minus(b).times(v.minus(b))) by {
        reveal_with_fuel(linear::Sum::val, 6);
    }
    assert(r.val(env) == sum_x(u, v, a, b, k).plus(u.plus(a).times(zz))) by {
        reveal_with_fuel(linear::Sum::val, 8);
    }
    assert(linear::same_counts(l, r, 6)) by {
        reveal_with_fuel(linear::Sum::count, 8);
        reveal_with_fuel(linear::same_counts, 7);
    }
    assert(l.within(6) && r.within(6)) by {
        reveal_with_fuel(linear::Sum::within, 8);
    }
    linear::lemma_sums(l, r, env);
}

/// `Y` with its products regrouped.
proof fn lemma_y_terms(u: El, v: El, a: El, b: El, k: El)
    requires
        u.reduced(),
        v.reduced(),
        a.reduced(),
        b.reduced(),
        k.reduced(),
        on_curve(u, v, k),
    ensures
        ({
            let (uuu, auu, aau, aaa) = (
                u.times(u).times(u),
                a.times(u).times(u),
                a.times(a).times(u),
                a.times(a).times(a),
            );
            let (buuu, bauu, bk) = (b.times(uuu), b.times(auu), b.times(k));
            let (vaau, vaaa, vk) = (v.times(aau), v.times(aaa), v.times(k));
            sum_y(u, v, a, b, k) == buuu.plus(bk).plus(bauu.plus(bauu).plus(bauu)).minus(
                vaau.plus(vaau).plus(vaau),
            ).minus(vaaa.plus(vk.plus(vk).plus(vk.plus(vk)))).plus(bk.plus(bk).plus(bk))
        }),
{
    let three = El::num(3);
    let (uuu, auu, aau, aaa) = (
        u.times(u).times(u),
        a.times(u).times(u),
        a.times(a).times(u),
        a.times(a).times(a),
    );
    // b·v·v = b·u³ + b·k
    ring::lemma_times_assoc(b, v, v);
    ring::lemma_times_plus(b, uuu, k);
    let env = seq![three, a, b, u, v];
    let (f0, f1, f2, f3, f4) = (
        linear::f(0),
        linear::f(1),
        linear::f(2),
        linear::f(3),
        linear::f(4),
    );
    assert(three.times(a).times(b).times(u).times(u) == three.times(b.times(auu))) by {
        let l = f0.m(f1).m(f2).m(f3).m(f3);
        let r = f0.m(f2.m(f1.m(f3).m(f3)));
        reveal_with_fuel(linear::Prod::val, 6);
        reveal_with_fuel(linear::Prod::count, 6);
        reveal_with_fuel(linear::Prod::within, 6);
        reveal_with_fuel(linear::same_powers, 6);
        linear::lemma_prods(l, r, env);
    }
    assert(three.times(a).times(a).times(u).times(v) == three.times(v.times(aau))) by {
        let l = f0.m(f1).m(f1).m(f3).m(f4);
        let r = f0.m(f4.m(f1.m(f1).m(f3)));
        reveal_with_fuel(linear::Prod::val, 6);
        reveal_with_fuel(linear::Prod::count, 6);
        reveal_with_fuel(linear::Prod::within, 6);
        reveal_with_fuel(linear::same_powers, 6);
        linear::lemma_prods(l, r, env);
    }
    ring::lemma_reduced(b, auu);
    ring::lemma_reduced(v, aau);
    ring::lemma_reduced(v, k);
    ring::lemma_reduced(b, k);
    lemma_small_multiples(b.times(auu));
    lemma_small_multiples(v.times(aau));
    lemma_small_multiples(v.times(k));
    lemma_small_multiples(b.times(k));
    // (a³ + 4k)·v = v·a³ + 4·(v·k)
    lemma_right(aaa, El::num(4).times(k), v);
    ring::lemma_times_assoc(v, El::num(4), k);
    ring::lemma_times_comm(v, El::num(4));
    ring::lemma_times_assoc(El::num(4), v, k);
    ring::lemma_times_assoc(three, b, k);
}

/// `v·Z³`, expanded.
proof fn lemma_vzzz(u: El, v: El, a: El)
    requires
        u.reduced(),
        v.reduced(),
        a.reduced(),
    ensures
        ({
            let z = u.minus(a);
            let (uuu, auu, aau, aaa) = (
                u.times(u).times(u),
                a.times(u).times(u),
                a.times(a).times(u),
                a.times(a).times(a),
            );
            let (vuuu, vauu, vaau, vaaa) = (
                v.times(uuu),
                v.times(auu),
                v.times(aau),
                v.times(aaa),
            );
            v.times(z.times(z).times(z)) == vuuu.minus(vauu).minus(vauu).plus(vaau).minus(
                vauu.minus(vaau).minus(vaau).plus(vaaa),
            )
        }),
{
    let z = u.minus(a);
    let zz = z.times(z);
    let (uuu, auu, aau, aaa) = (
        u.times(u).times(u),
        a.times(u).times(u),
        a.times(a).times(u),
        a.times(a).times(a),
    );
    lemma_cubics(u, a);
    ring::lemma_times_minus(zz, u, a);
    ring::lemma_times_comm(zz, u);
    ring::lemma_times_comm(zz, a);
    let env = seq![uuu, auu, aau, aaa];
    let (e0, e1, e2, e3) = (linear::e(0), linear::e(1), linear::e(2), linear::e(3));
    let s = e0.s(e1).s(e1).a(e2).s(e1.s(e2).s(e2).a(e3));
    reveal_with_fuel(linear::Sum::val, 6);
    reveal_with_fuel(linear::Sum::within, 6);
    linear::lemma_distribute(v, s, env);
}

/// `(v − b)·(u·Z² − X) = Y + v·Z³` for points of the curve.
proof fn lemma_y_identity(u: El, v: El, a: El, b: El, k: El)
    requires
        u.reduced(),
        v.reduced(),
        a.reduced(),
        b.reduced(),
        k.reduced(),
        on_curve(u, v, k),
        on_curve(a, b, k),
    ensures
        ({
            let z = u.minus(a);
            v.minus(b).times(u.times(z.times(z)).minus(sum_x(u, v, a, b, k))) == sum_y(
                u,
                v,
                a,
                b,
                k,
            ).plus(v.times(z.times(z).times(z)))
        }),
{
    let z = u.minus(a);
    let (uuu, auu, aau, aaa) = (
        u.times(u).times(u),
        a.times(u).times(u),
        a.times(a).times(u),
        a.times(a).times(a),
    );
    let bv = b.times(v);
    let x = sum_x(u, v, a, b, k);
    let w = u.times(z.times(z)).minus(x);
    // w is a sum of u³, a·u², k and b·v
    let env = seq![uuu, auu, aau, k, bv];
    let (e0, e1, e2, e3, e4) = (
        linear::e(0),
        linear::e(1),
        linear::e(2),
        linear::e(3),
        linear::e(4),
    );
    let sw = e0.s(e1).s(e1).a(e2).s(e3.a(e3).s(e4.a(e4)).a(e2).a(e1));
    assert(w == sw.val(env)) by {
        lemma_cubics(u, a);
        lemma_right(b, b, v);
        ring::lemma_times_comm(v, b);
        reveal_with_fuel(linear::Sum::val, 6);
    }
    assert(sw.within(5)) by {
        reveal_with_fuel(linear::Sum::within, 6);
    }
    linear::lemma_distribute(v, sw, env);
    linear::lemma_distribute(b, sw, env);
    lemma_right(v, b, w);
    ring::lemma_times_comm(w, v);
    ring::lemma_times_comm(w, b);
    lemma_y_terms(u, v, a, b, k);
    lemma_vzzz(u, v, a);
    // the terms, with v·(b·v) = b·u³ + b·k and b·(b·v) = v·a³ + v·k
    let (vuuu, vauu, vaau, vaaa, vk) = (
        v.times(uuu),
        v.times(auu),
        v.times(aau),
        v.times(aaa),
        v.times(k),
    );
    let (buuu, bauu, baau, bk) = (b.times(uuu), b.times(auu), b.times(aau), b.times(k));
    assert(v.times(bv) == buuu.plus(bk)) by {
        ring::lemma_times_comm(v, bv);
        ring::lemma_times_assoc(b, v, v);
        ring::lemma_times_plus(b, uuu, k);
    }
    assert(b.times(bv) == vaaa.plus(vk)) by {
        ring::lemma_times_assoc(b, b, v);
        ring::lemma_times_comm(b.times(b), v);
        ring::lemma_times_plus(v, aaa, k);
    }
    ring::lemma_reduced(v, uuu);
    ring::lemma_reduced(v, auu);
    ring::lemma_reduced(v, aau);
    ring::lemma_reduced(v, aaa);
    ring::lemma_reduced(v, k);
    ring::lemma_reduced(b, uuu);
    ring::lemma_reduced(b, auu);
    ring::lemma_reduced(b, aau);
    ring::lemma_reduced(b, k);
    lemma_y_sums(vuuu, vauu, vaau, vaaa, vk, buuu, bauu, baau, bk);
    assert(v.times(w) == vuuu.minus(vauu).minus(vauu).plus(vaau).minus(
        vk.plus(vk).minus(buuu.plus(bk).plus(buuu.plus(bk))).plus(vaau).plus(vauu),
    )) by {
        reveal_with_fuel(linear::Sum::val, 6);
    }
    assert(b.times(w) == buuu.minus(bauu).minus(bauu).plus(baau).minus(
        bk.plus(bk).minus(vaaa.plus(vk).plus(vaaa.plus(vk))).plus(baau).plus(bauu),
    )) by {
        reveal_with_fuel(linear::Sum::val, 6);
    }
}

/// The sum behind [`lemma_y_identity`].
proof fn lemma_y_sums(
    vuuu: El,
    vauu: El,
    vaau: El,
    vaaa: El,
    vk: El,
    buuu: El,
    bauu: El,
    baau: El,
    bk: El,
)
    requires
        vuuu.reduced(),
        vauu.reduced(),
        vaau.reduced(),
        vaaa.reduced(),
        vk.reduced(),
        buuu.reduced(),
        bauu.reduced(),
        baau.reduced(),
        bk.reduced(),
    ensures
        vuuu.minus(vauu).minus(vauu).plus(vaau).minus(
            vk.plus(vk).minus(buuu.plus(bk).plus(buuu.plus(bk))).plus(vaau).plus(vauu),
        ).minus(
            buuu.minus(bauu).minus(bauu).plus(baau).minus(
                bk.plus(bk).minus(vaaa.plus(vk).plus(vaaa.plus(vk))).plus(baau).plus(bauu),
            ),
        ) == buuu.plus(bk).plus(bauu.plus(bauu).plus(bauu)).minus(
            vaau.plus(vaau).plus(vaau),
        ).minus(vaaa.plus(vk.plus(vk).plus(vk.plus(vk)))).plus(bk.plus(bk).plus(bk)).plus(
            vuuu.minus(vauu).minus(vauu).plus(vaau).minus(
                vauu.minus(vaau).minus(vaau).plus(vaaa),
            ),
        ),
{
    let env = seq![vuuu, vauu, vaau, vaaa, vk, buuu, bauu, baau, bk];
    let (uuu, auu, aau, aaa, k, wuuu, wauu, waau, wk) = (
        linear::e(0),
        linear::e(1),
        linear::e(2),
        linear::e(3),
        linear::e(4),
        linear::e(5),
        linear::e(6),
        linear::e(7),
        linear::e(8),
    );
    let l = uuu.s(auu).s(auu).a(aau).s(
        k.a(k).s(wuuu.a(wk).a(wuuu.a(wk))).a(aau).a(auu),
    ).s(
        wuuu.s(wauu).s(wauu).a(waau).s(
            wk.a(wk).s(aaa.a(k).a(aaa.a(k))).a(waau).a(wauu),
        ),
    );
    let r = wuuu.a(wk).a(wauu.a(wauu).a(wauu)).s(aau.a(aau).a(aau)).s(
        aaa.a(k.a(k).a(k.a(k))),
    ).a(wk.a(wk).a(wk)).a(uuu.s(auu).s(auu).a(aau).s(auu.s(aau).s(aau).a(aaa)));
    assert(linear::same_counts(l, r, 9)) by {
        reveal_with_fuel(linear::Sum::count, 12);
        reveal_with_fuel(linear::same_counts, 10);
    }
    assert(l.within(9) && r.within(9)) by {
        reveal_with_fuel(linear::Sum::within, 12);
    }
    linear::lemma_sums(l, r, env);
    reveal_with_fuel(linear::Sum::val, 12);
}

// -------------------------------------------------------------- the results

/// With `q` the inverse of `Z = u − a`, the sum of two points of different
/// abscissae is `(X·q², Y·q³)`.
pub proof fn lemma_chord_sum(u: El, v: El, a: El, b: El, k: El, q: El)
    requires
        u.reduced(),
        v.reduced(),
        a.reduced(),
        b.reduced(),
        k.reduced(),
        on_curve(u, v, k),
        on_curve(a, b, k),
        inverse::is_inverse(u.minus(a), q),
    ensures
        u != a,
        Pt::At(u, v).plus(Pt::At(a, b)) == Pt::At(
            sum_x(u, v, a, b, k).times(q.times(q)),
            sum_y(u, v, a, b, k).times(q.times(q).times(q)),
        ),
{
    let one = El::num(1);
    let (z, d) = (u.minus(a), v.minus(b));
    let (x, y) = (sum_x(u, v, a, b, k), sum_y(u, v, a, b, k));
    let (qq, zz) = (q.times(q), z.times(z));
    let s = d.times(q);
    ring::lemma_reduced(u, a);
    ring::lemma_minus_zero(u, a);
    inverse::lemma_inv_unique(z, q);
    ring::lemma_times_one(one);
    // (Z·q)² = 1 and (Z·q)³ = 1
    ring::lemma_times_swap(z, z, q, q);
    ring::lemma_times_swap(zz, z, qq, q);
    assert(zz.times(qq) == one);
    assert(zz.times(z).times(qq.times(q)) == one);
    // s² = d²·q² = X·q² + (u + a)
    lemma_x_identity(u, v, a, b, k);
    ring::lemma_times_swap(d, q, d, q);
    let (xq, yq) = (x.times(qq), y.times(qq.times(q)));
    let ua = u.plus(a);
    ring::lemma_reduced(u, a);
    ring::lemma_reduced(x, qq);
    ring::lemma_reduced(y, qq.times(q));
    lemma_right(x, ua.times(zz), qq);
    ring::lemma_times_comm(qq, x);
    ring::lemma_times_comm(qq, ua.times(zz));
    ring::lemma_times_assoc(ua, zz, qq);
    ring::lemma_times_one(ua);
    assert(s.times(s) == xq.plus(ua));
    let x3 = s.times(s).minus(u).minus(a);
    assert(x3 == xq) by {
        let env = seq![xq, u, a];
        let l = linear::e(0).a(linear::e(1).a(linear::e(2))).s(linear::e(1)).s(linear::e(2));
        let r = linear::e(0);
        reveal_with_fuel(linear::Sum::val, 5);
        reveal_with_fuel(linear::Sum::count, 5);
        reveal_with_fuel(linear::Sum::within, 5);
        reveal_with_fuel(linear::same_counts, 4);
        linear::lemma_sums(l, r, env);
    }
    // s·(u − x3) = d·(u·Z² − X)·q³ = Y·q³ + v
    let w = u.times(zz).minus(x);
    lemma_y_identity(u, v, a, b, k);
    assert(w.times(qq) == u.minus(x3)) by {
        lemma_right(u.times(zz), x, qq);
        ring::lemma_times_comm(qq, u.times(zz));
        ring::lemma_times_comm(qq, x);
        ring::lemma_times_assoc(u, zz, qq);
        ring::lemma_times_one(u);
    }
    assert(s.times(u.minus(x3)) == d.times(w).times(qq.times(q))) by {
        ring::lemma_times_swap(d, q, w, qq);
        ring::lemma_times_comm(q, qq);
    }
    assert(d.times(w).times(qq.times(q)) == yq.plus(v)) by {
        let vz = v.times(zz.times(z));
        lemma_right(y, vz, qq.times(q));
        ring::lemma_times_comm(qq.times(q), y);
        ring::lemma_times_comm(qq.times(q), vz);
        ring::lemma_times_assoc(v, zz.times(z), qq.times(q));
        ring::lemma_times_one(v);
    }
    ring::lemma_minus_plus(yq, v);
}

/// Where the two points are one, `X` and `Y` vanish.
pub proof fn lemma_triple_of_equal(a: El, b: El, k: El)
    requires
        a.reduced(),
        b.reduced(),
        k.reduced(),
        on_curve(a, b, k),
    ensures
        sum_x(a, b, a, b, k) == El::num(0),
        sum_y(a, b, a, b, k) == El::num(0),
{
    let aaa = a.times(a).times(a);
    let (baaa, bk) = (b.times(aaa), b.times(k));
    ring::lemma_reduced(a.times(a), a);
    ring::lemma_reduced(b, aaa);
    ring::lemma_reduced(b, k);
    lemma_right(b, b, b);
    lemma_y_terms(a, b, a, b, k);
    ring::lemma_plus_zero(k);
    ring::lemma_plus_zero(bk);
    let (e0, e1) = (linear::e(0), linear::e(1));
    assert(sum_x(a, b, a, b, k) == k.minus(k)) by {
        let l = e1.a(e1).s(e0.a(e1).a(e0.a(e1))).a(e0).a(e0);
        let env = seq![aaa, k];
        reveal_with_fuel(linear::Sum::val, 6);
        reveal_with_fuel(linear::Sum::count, 6);
        reveal_with_fuel(linear::Sum::within, 6);
        reveal_with_fuel(linear::same_counts, 3);
        linear::lemma_sums(l, e1.s(e1), env);
    }
    assert(sum_y(a, b, a, b, k) == bk.minus(bk)) by {
        let l = e0.a(e1).a(e0.a(e0).a(e0)).s(e0.a(e0).a(e0)).s(
            e0.a(e1.a(e1).a(e1.a(e1))),
        ).a(e1.a(e1).a(e1));
        let env = seq![baaa, bk];
        reveal_with_fuel(linear::Sum::val, 7);
        reveal_with_fuel(linear::Sum::count, 7);
        reveal_with_fuel(linear::Sum::within, 7);
        reveal_with_fuel(linear::same_counts, 3);
        linear::lemma_sums(l, e1.s(e1), env);
    }
}

/// Where the two points are opposite, `X = 4b²` and `Y = 8b³`.
pub proof fn lemma_triple_of_opposite(a: El, b: El, k: El)
    requires
        a.reduced(),
        b.reduced(),
        k.reduced(),
        on_curve(a, b, k),
    ensures
        sum_x(a, b.opp(), a, b, k) == El::num(4).times(b.times(b)),
        sum_y(a, b.opp(), a, b, k) == El::num(8).times(b.times(b.times(b))),
{
    let n = b.opp();
    let zero = El::num(0);
    let aaa = a.times(a).times(a);
    let (bb, baaa, bk) = (b.times(b), b.times(aaa), b.times(k));
    ring::lemma_reduced(a.times(a), a);
    ring::lemma_reduced(b, aaa);
    ring::lemma_reduced(b, k);
    ring::lemma_reduced(b, b);
    ring::lemma_reduced(b, bb);
    // −b on the curve, and products with −b as differences from zero
    ring::lemma_times_opp(b, b);
    ring::lemma_times_opp(n, b);
    ring::lemma_opp_opp(bb);
    ring::lemma_times_opp(aaa, b);
    ring::lemma_times_opp(k, b);
    ring::lemma_times_comm(b, aaa);
    ring::lemma_times_comm(b, k);
    lemma_right(b, b, n);
    ring::lemma_times_comm(n, b);
    lemma_y_terms(a, n, a, b, k);
    lemma_small_multiples(bb);
    lemma_small_multiples(b.times(bb));
    ring::lemma_times_plus(b, aaa, k);
    ring::lemma_zero_minus(bb);
    ring::lemma_zero_minus(baaa);
    ring::lemma_zero_minus(bk);
    let (e0, e1, e2) = (linear::e(0), linear::e(1), linear::e(2));
    assert(sum_x(a, n, a, b, k) == El::num(4).times(bb)) by {
        let env = seq![aaa, k, zero];
        let minus_bb = e2.s(e0.a(e1));
        let l = e1.a(e1).s(minus_bb.a(minus_bb)).a(e0).a(e0);
        let two = e0.a(e1).a(e0.a(e1));
        let r = two.a(two);
        reveal_with_fuel(linear::Sum::val, 7);
        reveal_with_fuel(linear::Sum::count, 7);
        reveal_with_fuel(linear::Sum::within, 7);
        reveal_with_fuel(linear::same_counts, 4);
        linear::lemma_sums_zero(l, r, env, 2);
    }
    assert(sum_y(a, n, a, b, k) == El::num(8).times(b.times(bb))) by {
        let env = seq![baaa, bk, zero];
        let (m0, m1) = (e2.s(e0), e2.s(e1));
        let l = e0.a(e1).a(e0.a(e0).a(e0)).s(m0.a(m0).a(m0)).s(
            m0.a(m1.a(m1).a(m1.a(m1))),
        ).a(e1.a(e1).a(e1));
        let two = e0.a(e1).a(e0.a(e1));
        let four = two.a(two);
        let r = four.a(four);
        reveal_with_fuel(linear::Sum::val, 8);
        reveal_with_fuel(linear::Sum::count, 8);
        reveal_with_fuel(linear::Sum::within, 8);
        reveal_with_fuel(linear::same_counts, 4);
        linear::lemma_sums_zero(l, r, env, 2);
    }
}

// ------------------------------------------------- sums stay on the curve

/// The linear coefficient left when `(s·x + m)²` and a cubic of roots `x, y, z`
/// are taken from one another.
spec fn cubic_a(x: El, y: El, z: El, s: El, m: El) -> El {
    x.times(y).plus(x.times(z)).plus(y.times(z)).plus(s.times(m).plus(s.times(m)))
}

/// The constant coefficient of the same.
spec fn cubic_b(x: El, y: El, z: El, m: El, k: El) -> El {
    x.times(y).times(z).plus(k).minus(m.times(m))
}

/// With `s² = x + y + z`, `x³ + k = (s·x + m)² + B − A·x`.
proof fn lemma_cubic_root(x: El, y: El, z: El, s: El, m: El, k: El)
    requires
        x.reduced(),
        y.reduced(),
        z.reduced(),
        s.reduced(),
        m.reduced(),
        k.reduced(),
        s.times(s) == x.plus(y).plus(z),
    ensures
        ({
            let l = s.times(x).plus(m);
            x.times(x).times(x).plus(k) == l.times(l).plus(cubic_b(x, y, z, m, k)).minus(
                cubic_a(x, y, z, s, m).times(x),
            )
        }),
{
    let (p, xx) = (s.times(x), x.times(x));
    let l = p.plus(m);
    let xxx = xx.times(x);
    let (yxx, zxx, xyz) = (y.times(xx), z.times(xx), x.times(y).times(z));
    let (mm, sm) = (m.times(m), s.times(m));
    let smx = sm.times(x);
    // l² = p² + m·p + m·p + m²
    lemma_right(p, m, l);
    ring::lemma_times_comm(l, p);
    ring::lemma_times_comm(l, m);
    ring::lemma_times_plus(p, p, m);
    ring::lemma_times_plus(m, p, m);
    ring::lemma_times_comm(p, m);
    // p² = s²·x² = x³ + y·x² + z·x²
    ring::lemma_times_swap(s, x, s, x);
    lemma_right(x.plus(y), z, xx);
    lemma_right(x, y, xx);
    ring::lemma_times_comm(xx, x.plus(y));
    ring::lemma_times_comm(xx, y);
    ring::lemma_times_comm(xx, z);
    // m·p = (s·m)·x
    ring::lemma_times_assoc(m, s, x);
    ring::lemma_times_comm(m, s);
    // the products with x in A·x
    let (xy, xz, yz) = (x.times(y), x.times(z), y.times(z));
    lemma_right(xy.plus(xz).plus(yz), sm.plus(sm), x);
    lemma_right(xy.plus(xz), yz, x);
    lemma_right(xy, xz, x);
    lemma_right(sm, sm, x);
    ring::lemma_times_plus(x, xy.plus(xz).plus(yz), sm.plus(sm));
    ring::lemma_times_plus(x, xy.plus(xz), yz);
    ring::lemma_times_plus(x, xy, xz);
    ring::lemma_times_plus(x, sm, sm);
    ring::lemma_times_comm(x, sm);
    ring::lemma_times_assoc(x, x, y);
    ring::lemma_times_comm(xx, y);
    ring::lemma_times_assoc(x, x, z);
    ring::lemma_times_assoc(x, y, z);
    ring::lemma_reduced(xx, x);
    ring::lemma_reduced(y, xx);
    ring::lemma_reduced(z, xx);
    ring::lemma_reduced(x.times(y), z);
    ring::lemma_reduced(m, m);
    ring::lemma_reduced(sm, x);
    let env = seq![xxx, yxx, zxx, xyz, mm, smx, k];
    let (e0, e1, e2, e3, e4, e5, e6) = (
        linear::e(0),
        linear::e(1),
        linear::e(2),
        linear::e(3),
        linear::e(4),
        linear::e(5),
        linear::e(6),
    );
    let left = e0.a(e6);
    let right = e0.a(e1).a(e2).a(e5).a(e5.a(e4)).a(e3.a(e6).s(e4)).s(
        e1.a(e2).a(e3).a(e5.a(e5)),
    );
    assert(l.times(l) == xxx.plus(yxx).plus(zxx).plus(smx).plus(smx.plus(mm)));
    assert(cubic_a(x, y, z, s, m).times(x) == yxx.plus(zxx).plus(xyz).plus(smx.plus(smx)));
    assert(right.val(env) == l.times(l).plus(cubic_b(x, y, z, m, k)).minus(
        cubic_a(x, y, z, s, m).times(x),
    )) by {
        reveal_with_fuel(linear::Sum::val, 9);
    }
    assert(left.val(env) == xxx.plus(k)) by {
        reveal_with_fuel(linear::Sum::val, 3);
    }
    assert(linear::same_counts(left, right, 7)) by {
        reveal_with_fuel(linear::Sum::count, 9);
        reveal_with_fuel(linear::same_counts, 8);
    }
    assert(left.within(7) && right.within(7)) by {
        reveal_with_fuel(linear::Sum::within, 9);
    }
    linear::lemma_sums(left, right, env);
}

/// `A` and `B` do not depend on the order of the roots.
proof fn lemma_cubic_symmetric(x: El, y: El, z: El, s: El, m: El, k: El)
    ensures
        cubic_a(x, y, z, s, m) == cubic_a(y, x, z, s, m),
        cubic_a(x, y, z, s, m) == cubic_a(z, x, y, s, m),
        cubic_b(x, y, z, m, k) == cubic_b(y, x, z, m, k),
        cubic_b(x, y, z, m, k) == cubic_b(z, x, y, m, k),
{
    let (xy, xz, yz) = (x.times(y), x.times(z), y.times(z));
    ring::lemma_times_comm(x, y);
    ring::lemma_times_comm(x, z);
    ring::lemma_times_comm(y, z);
    ring::lemma_plus_assoc(xy, xz, yz);
    ring::lemma_plus_comm(xz, yz);
    ring::lemma_plus_assoc(xy, yz, xz);
    ring::lemma_plus_comm(xy, xz.plus(yz));
    ring::lemma_times_assoc(x, y, z);
    ring::lemma_times_comm(x.times(y), z);
    ring::lemma_times_assoc(z, x, y);
}

/// The line through two points of the curve with different abscissae meets it at
/// the reflection of their sum, and nowhere else.
proof fn lemma_chord_line(u: El, v: El, a: El, b: El, k: El)
    requires
        u.reduced(),
        v.reduced(),
        a.reduced(),
        b.reduced(),
        k.reduced(),
        on_curve(u, v, k),
        on_curve(a, b, k),
        u != a,
    ensures
        Pt::At(u, v).plus(Pt::At(a, b)).on(k),
        ({
            let s = v.minus(b).times(inverse::inv(u.minus(a)));
            let t = s.times(s).minus(u).minus(a);
            let w = s.times(u.minus(t)).minus(v);
            let m = v.minus(s.times(u));
            &&& Pt::At(u, v).plus(Pt::At(a, b)) == Pt::At(t, w)
            &&& s.times(s) == u.plus(a).plus(t)
            &&& s.times(u).plus(m) == v
            &&& s.times(a).plus(m) == b
            &&& s.times(t).plus(m) == w.opp()
            &&& cubic_a(u, a, t, s, m) == El::num(0)
        }),
{
    let (z, d) = (u.minus(a), v.minus(b));
    ring::lemma_reduced(u, a);
    ring::lemma_minus_zero(u, a);
    inverse::lemma_inv(z);
    let q = inverse::inv(z);
    let s = d.times(q);
    let t = s.times(s).minus(u).minus(a);
    let w = s.times(u.minus(t)).minus(v);
    let su = s.times(u);
    let m = v.minus(su);
    ring::lemma_reduced(d, q);
    ring::lemma_reduced(s, s);
    ring::lemma_reduced(s.times(s).minus(u), a);
    ring::lemma_reduced(s.times(u.minus(t)), v);
    ring::lemma_reduced(v, su);
    // s² = u + a + t, in every order
    let ss = s.times(s);
    assert(ss == u.plus(a).plus(t)) by {
        let env = seq![ss, u, a];
        let (e0, e1, e2) = (linear::e(0), linear::e(1), linear::e(2));
        let r = e1.a(e2).a(e0.s(e1).s(e2));
        reveal_with_fuel(linear::Sum::val, 5);
        reveal_with_fuel(linear::Sum::count, 5);
        reveal_with_fuel(linear::Sum::within, 5);
        reveal_with_fuel(linear::same_counts, 4);
        linear::lemma_sums(e0, r, env);
    }
    ring::lemma_plus_comm(u, a);
    ring::lemma_plus_comm(u.plus(a), t);
    ring::lemma_plus_assoc(t, u, a);
    lemma_cubic_root(u, a, t, s, m, k);
    lemma_cubic_root(a, u, t, s, m, k);
    lemma_cubic_root(t, u, a, s, m, k);
    lemma_cubic_symmetric(u, a, t, s, m, k);
    let (ca, cb) = (cubic_a(u, a, t, s, m), cubic_b(u, a, t, m, k));
    // the line passes through both points
    assert(s.times(u).plus(m) == v) by {
        ring::lemma_plus_comm(su, m);
        ring::lemma_minus_plus(v, su);
    }
    assert(s.times(a).plus(m) == b) by {
        // s·u − s·a = s·z = d
        ring::lemma_times_minus(s, u, a);
        ring::lemma_times_assoc(d, q, z);
        ring::lemma_times_comm(q, z);
        ring::lemma_reduced(v, b);
        ring::lemma_times_one(d);
        let sa = s.times(a);
        ring::lemma_reduced(s, a);
        ring::lemma_reduced(s, u);
        let env = seq![sa, su, v, b];
        let (e0, e1, e2, e3) = (linear::e(0), linear::e(1), linear::e(2), linear::e(3));
        // s·a + (v − s·u) = v − (s·u − s·a) and b = v − (v − b)
        let l = e0.a(e2.s(e1));
        let r = e2.s(e1.s(e0));
        reveal_with_fuel(linear::Sum::val, 5);
        reveal_with_fuel(linear::Sum::count, 5);
        reveal_with_fuel(linear::Sum::within, 5);
        reveal_with_fuel(linear::same_counts, 5);
        linear::lemma_sums(l, r, env);
        linear::lemma_sums(e2.s(e2.s(e3)), e3, env);
    }
    // so B = A·u = A·a, hence A = 0 and B = 0
    let (vv, bb) = (v.times(v), b.times(b));
    ring::lemma_reduced(v, v);
    ring::lemma_reduced(b, b);
    ring::lemma_reduced(ca, u);
    ring::lemma_reduced(ca, a);
    ring::lemma_reduced(u.times(a).times(t).plus(k), m.times(m));
    ring::lemma_reduced(
        u.times(a).plus(u.times(t)).plus(a.times(t)),
        s.times(m).plus(s.times(m)),
    );
    lemma_cancel(vv, cb, ca.times(u));
    lemma_cancel(bb, cb, ca.times(a));
    ring::lemma_times_minus(ca, u, a);
    ring::lemma_minus_zero(ca.times(u), ca.times(a));
    inverse::lemma_no_zero_divisors(ca, z);
    ring::lemma_times_zero(u);
    ring::lemma_times_zero(t);
    // t³ + k = (s·t + m)² and s·t + m = −w
    let l = s.times(t).plus(m);
    ring::lemma_reduced(l, l);
    ring::lemma_plus_zero(l.times(l));
    assert(l == w.opp()) by {
        ring::lemma_times_minus(s, u, t);
        let st = s.times(t);
        let zero = El::num(0);
        ring::lemma_reduced(s, t);
        ring::lemma_reduced(s, u);
        ring::lemma_zero_minus(w);
        let env = seq![st, su, v, zero];
        let (e0, e1, e2, e3) = (linear::e(0), linear::e(1), linear::e(2), linear::e(3));
        let left = e0.a(e2.s(e1));
        let right = e3.s(e1.s(e0).s(e2));
        reveal_with_fuel(linear::Sum::val, 5);
        reveal_with_fuel(linear::Sum::count, 5);
        reveal_with_fuel(linear::Sum::within, 5);
        linear::lemma_sums_zero(left, right, env, 3);
    }
    ring::lemma_times_opp(w.opp(), w);
    ring::lemma_times_opp(w, w);
    ring::lemma_reduced(w, w);
    ring::lemma_opp_opp(w.times(w));
}

/// The sum of two points of the curve with different abscissae is on the curve.
pub proof fn lemma_chord_on_curve(u: El, v: El, a: El, b: El, k: El)
    requires
        u.reduced(),
        v.reduced(),
        a.reduced(),
        b.reduced(),
        k.reduced(),
        on_curve(u, v, k),
        on_curve(a, b, k),
        u != a,
    ensures
        Pt::At(u, v).plus(Pt::At(a, b)).on(k),
{
    lemma_chord_line(u, v, a, b, k);
}

/// `x = x + y − z` only for `y = z`.
proof fn lemma_cancel(x: El, y: El, z: El)
    requires
        x.reduced(),
        y.reduced(),
        z.reduced(),
        x == x.plus(y).minus(z),
    ensures
        y == z,
{
    ring::lemma_reduced(x, y);
    ring::lemma_minus_plus(x.plus(y), z);
    ring::lemma_plus_comm(x, y);
    ring::lemma_plus_comm(x, z);
    ring::lemma_plus_cancel(y, z, x);
}

// --------------------------------------------------------------- reflection

impl Pt {
    /// Whether the coordinates are reduced.
    pub open spec fn reduced(self) -> bool {
        match self {
            Pt::Inf => true,
            Pt::At(x, y) => x.reduced() && y.reduced(),
        }
    }

    /// The reflected point.
    pub open spec fn reflected(self) -> Pt {
        match self {
            Pt::Inf => Pt::Inf,
            Pt::At(x, y) => Pt::At(x, y.opp()),
        }
    }
}

/// The line of opposite slope through the reflected point gives the reflection.
proof fn lemma_reflected_through(x1: El, y1: El, x2: El, s: El)
    requires
        s.reduced(),
    ensures
        through(x1, y1.opp(), x2, s.opp()) == through(x1, y1, x2, s).reflected(),
        through(x1, y1, x2, s).reduced(),
{
    let x3 = s.times(s).minus(x1).minus(x2);
    let d = x1.minus(x3);
    ring::lemma_times_opp(s.opp(), s);
    ring::lemma_times_opp(s, s);
    ring::lemma_reduced(s, s);
    ring::lemma_opp_opp(s.times(s));
    ring::lemma_times_opp(d, s);
    ring::lemma_times_comm(d, s);
    ring::lemma_opp_sums(s.times(d), y1);
    ring::lemma_reduced(s.times(s).minus(x1), x2);
    ring::lemma_reduced(s.times(d), y1);
}

/// An element is zero exactly if its double is.
pub proof fn lemma_double_zero(y: El)
    requires
        y.reduced(),
    ensures
        (y.plus(y) == El::num(0)) == (y == El::num(0)),
{
    reveal(El::plus);
}

/// The sum of reflected points is the reflected sum.
pub proof fn lemma_reflected_sum(p: Pt, q: Pt)
    requires
        p.reduced(),
        q.reduced(),
    ensures
        p.reflected().plus(q.reflected()) == p.plus(q).reflected(),
        p.plus(q).reduced(),
{
    match (p, q) {
        (Pt::At(x1, y1), Pt::At(x2, y2)) => {
            ring::lemma_opp_opp(y1);
            ring::lemma_opp_opp(y2);
            ring::lemma_zero_minus(El::num(0));
            ring::lemma_minus_zero(El::num(0), El::num(0));
            if x1 != x2 {
                let q = inverse::inv(x1.minus(x2));
                let d = y1.minus(y2);
                ring::lemma_opp_sums(y1, y2);
                ring::lemma_times_opp(q, d);
                ring::lemma_times_comm(q, d);
                ring::lemma_reduced(d, q);
                lemma_reflected_through(x1, y1, x2, d.times(q));
            } else if y1 == y2 && y1 != El::num(0) {
                let d = y1.plus(y1);
                let q = inverse::inv(d);
                let t = El::num(3).times(x1).times(x1);
                lemma_double_zero(y1);
                ring::lemma_opp_sums(y1, y1);
                ring::lemma_reduced(y1, y1);
                lemma_inv_opp(d);
                ring::lemma_times_opp(t, q);
                ring::lemma_reduced(t, q);
                lemma_reflected_through(x1, y1, x1, t.times(q));
            }
        },
        _ => {},
    }
}

/// The multiples of a reflected point are the reflected multiples.
pub proof fn lemma_reflected_multiple(p: Pt, n: nat)
    requires
        p.reduced(),
    ensures
        p.reflected().times(n) == p.times(n).reflected(),
        p.times(n).reduced(),
    decreases n,
{
    if n > 0 {
        lemma_reflected_multiple(p, (n - 1) as nat);
        lemma_reflected_sum(p.times((n - 1) as nat), p);
    }
}

/// Two points of a curve with one abscissa are the same or reflections.
pub proof fn lemma_same_abscissa(x: El, y: El, z: El, k: El)
    requires
        y.reduced(),
        z.reduced(),
        on_curve(x, y, k),
        on_curve(x, z, k),
    ensures
        z == y || z == y.opp(),
{
    let (yy, zz) = (y.times(y), z.times(z));
    ring::lemma_difference_of_squares(z, y);
    ring::lemma_reduced(y, y);
    ring::lemma_reduced(z, z);
    ring::lemma_reduced(z, y);
    ring::lemma_minus_zero(zz, yy);
    inverse::lemma_no_zero_divisors(z.minus(y), z.plus(y));
    ring::lemma_minus_zero(z, y);
    ring::lemma_opposite(z, y);
}

// -------------------------------------------------------------- cancellation

/// A multiple of `z` divided by `z`, and its opposite.
proof fn lemma_divided(s: El, z: El)
    requires
        s.reduced(),
        z.reduced(),
        z != El::num(0),
    ensures
        s.times(z).times(inverse::inv(z)) == s,
        s.times(z).opp().times(inverse::inv(z)) == s.opp(),
{
    let q = inverse::inv(z);
    inverse::lemma_inv(z);
    ring::lemma_times_assoc(s, z, q);
    ring::lemma_times_one(s);
    ring::lemma_times_opp(q, s.times(z));
    ring::lemma_times_comm(q, s.times(z));
}

/// The inverse of the opposite is the opposite of the inverse.
proof fn lemma_inv_opp(d: El)
    requires
        d.reduced(),
        d != El::num(0),
    ensures
        inverse::inv(d.opp()) == inverse::inv(d).opp(),
{
    let q = inverse::inv(d);
    inverse::lemma_inv(d);
    ring::lemma_reduced(q, q);
    ring::lemma_reduced(d, d);
    ring::lemma_times_opp(d.opp(), q);
    ring::lemma_times_opp(q, d);
    ring::lemma_times_comm(q, d);
    ring::lemma_times_comm(q, d.opp());
    ring::lemma_opp_opp(El::num(1));
    inverse::lemma_inv_unique(d.opp(), q.opp());
}

/// `(−s)² = s²` and `(−s)·(x − y) = −(s·x − s·y)`.
proof fn lemma_opposite_line(s: El, x: El, y: El)
    requires
        s.reduced(),
    ensures
        s.opp().times(s.opp()) == s.times(s),
        s.opp().times(x.minus(y)) == El::num(0).minus(s.times(x).minus(s.times(y))),
{
    ring::lemma_times_opp(s.opp(), s);
    ring::lemma_times_opp(s, s);
    ring::lemma_reduced(s, s);
    ring::lemma_opp_opp(s.times(s));
    ring::lemma_times_opp(x.minus(y), s);
    ring::lemma_times_comm(x.minus(y), s);
    ring::lemma_times_minus(s, x, y);
    ring::lemma_zero_minus(s.times(x).minus(s.times(y)));
}

/// Subtracting along a chord: if the line of slope `s` holds `(u, v)`, `(a, b)` and
/// `(t, −w)`, then `(t, w) − (a, b) = (u, v)`.
proof fn lemma_back_by_chord(u: El, v: El, a: El, b: El, t: El, w: El, s: El, m: El)
    requires
        u.reduced(),
        v.reduced(),
        a.reduced(),
        b.reduced(),
        t.reduced(),
        w.reduced(),
        s.reduced(),
        m.reduced(),
        t != a,
        s.times(s) == u.plus(a).plus(t),
        s.times(u).plus(m) == v,
        s.times(a).plus(m) == b,
        s.times(t).plus(m) == w.opp(),
    ensures
        Pt::At(t, w).plus(Pt::At(a, b.opp())) == Pt::At(u, v),
{
    let zero = El::num(0);
    let (su, sa, st) = (s.times(u), s.times(a), s.times(t));
    let z = t.minus(a);
    ring::lemma_reduced(s, u);
    ring::lemma_reduced(s, a);
    ring::lemma_reduced(s, t);
    ring::lemma_reduced(t, a);
    ring::lemma_reduced(su, m);
    ring::lemma_minus_zero(t, a);
    ring::lemma_zero_minus(b);
    ring::lemma_zero_minus(w.opp());
    ring::lemma_opp_opp(w);
    assert(w == zero.minus(st.plus(m)));
    let (e0, e1, e2, e3, e4) = (
        linear::e(0),
        linear::e(1),
        linear::e(2),
        linear::e(3),
        linear::e(4),
    );
    // the slope
    assert(w.minus(b.opp()) == s.times(z).opp()) by {
        ring::lemma_times_minus(s, t, a);
        ring::lemma_zero_minus(s.times(z));
        let env = seq![st, sa, m, zero];
        let left = e3.s(e0.a(e2)).s(e3.s(e1.a(e2)));
        let right = e3.s(e0.s(e1));
        reveal_with_fuel(linear::Sum::val, 5);
        reveal_with_fuel(linear::Sum::count, 5);
        reveal_with_fuel(linear::Sum::within, 5);
        linear::lemma_sums_zero(left, right, env, 3);
    }
    lemma_divided(s, z);
    lemma_opposite_line(s, t, u);
    // the abscissa
    assert(s.times(s).minus(t).minus(a) == u) by {
        let env = seq![u, a, t];
        let left = e0.a(e1).a(e2).s(e2).s(e1);
        reveal_with_fuel(linear::Sum::val, 5);
        reveal_with_fuel(linear::Sum::count, 5);
        reveal_with_fuel(linear::Sum::within, 5);
        reveal_with_fuel(linear::same_counts, 4);
        linear::lemma_sums(left, e0, env);
    }
    // the ordinate
    assert(zero.minus(st.minus(su)).minus(w) == v) by {
        let env = seq![st, su, m, zero];
        let left = e3.s(e0.s(e1)).s(e3.s(e0.a(e2)));
        let right = e1.a(e2);
        reveal_with_fuel(linear::Sum::val, 5);
        reveal_with_fuel(linear::Sum::count, 5);
        reveal_with_fuel(linear::Sum::within, 5);
        linear::lemma_sums_zero(left, right, env, 3);
    }
}

/// Subtracting along a tangent: if the line of slope `s` touches the curve at
/// `(a, b)` and holds `(u, v)`, then `−(a, b) − (a, b) = (u, v)`.
proof fn lemma_back_by_tangent(u: El, v: El, a: El, b: El, s: El, m: El)
    requires
        u.reduced(),
        v.reduced(),
        a.reduced(),
        b.reduced(),
        s.reduced(),
        m.reduced(),
        b != El::num(0),
        El::num(3).times(a).times(a) == s.times(b.plus(b)),
        s.times(s) == u.plus(a).plus(a),
        s.times(u).plus(m) == v,
        s.times(a).plus(m) == b,
    ensures
        Pt::At(a, b.opp()).plus(Pt::At(a, b.opp())) == Pt::At(u, v),
{
    let zero = El::num(0);
    let (su, sa) = (s.times(u), s.times(a));
    let d = b.plus(b);
    let t = El::num(3).times(a).times(a);
    ring::lemma_reduced(s, u);
    ring::lemma_reduced(s, a);
    ring::lemma_reduced(b, b);
    ring::lemma_zero_minus(b);
    ring::lemma_opp_opp(b);
    ring::lemma_zero_minus(zero);
    ring::lemma_minus_zero(zero, zero);
    lemma_double_zero(b);
    ring::lemma_opp_sums(b, b);
    lemma_inv_opp(d);
    lemma_divided(s, d);
    ring::lemma_times_opp(t, inverse::inv(d));
    assert(t.times(inverse::inv(d.opp())) == s.opp());
    lemma_opposite_line(s, a, u);
    let (e0, e1, e2, e3) = (linear::e(0), linear::e(1), linear::e(2), linear::e(3));
    assert(s.times(s).minus(a).minus(a) == u) by {
        let env = seq![u, a];
        let left = e0.a(e1).a(e1).s(e1).s(e1);
        reveal_with_fuel(linear::Sum::val, 5);
        reveal_with_fuel(linear::Sum::count, 5);
        reveal_with_fuel(linear::Sum::within, 5);
        reveal_with_fuel(linear::same_counts, 4);
        linear::lemma_sums(left, e0, env);
    }
    assert(zero.minus(sa.minus(su)).minus(b.opp()) == v) by {
        let env = seq![sa, su, m, zero];
        let left = e3.s(e0.s(e1)).s(e3.s(e0.a(e2)));
        let right = e1.a(e2);
        reveal_with_fuel(linear::Sum::val, 5);
        reveal_with_fuel(linear::Sum::count, 5);
        reveal_with_fuel(linear::Sum::within, 5);
        linear::lemma_sums_zero(left, right, env, 3);
    }
}

/// A line that meets the curve at `u` and twice at `a` has the slope of the tangent
/// at `a`: `3a² = s·2b`.
proof fn lemma_double_root(u: El, a: El, b: El, s: El, m: El)
    requires
        u.reduced(),
        a.reduced(),
        b.reduced(),
        s.reduced(),
        m.reduced(),
        s.times(s) == u.plus(a).plus(a),
        s.times(a).plus(m) == b,
        cubic_a(u, a, a, s, m) == El::num(0),
    ensures
        El::num(3).times(a).times(a) == s.times(b.plus(b)),
{
    let zero = El::num(0);
    let (ua, aa, sm) = (u.times(a), a.times(a), s.times(m));
    let sa = s.times(a);
    ring::lemma_reduced(u, a);
    ring::lemma_reduced(a, a);
    ring::lemma_reduced(s, m);
    ring::lemma_reduced(s, a);
    // s·b = s²·a + s·m = u·a + a² + a² + s·m
    ring::lemma_times_plus(s, b, b);
    ring::lemma_times_plus(s, sa, m);
    ring::lemma_times_assoc(s, s, a);
    lemma_right(u.plus(a), a, a);
    lemma_right(u, a, a);
    ring::lemma_times_plus(a, u.plus(a), a);
    ring::lemma_times_plus(a, u, a);
    ring::lemma_times_comm(a, u);
    assert(s.times(b) == ua.plus(aa).plus(aa).plus(sm));
    // 3·a² = a² + a² + a²
    ring::lemma_times_assoc(El::num(3), a, a);
    lemma_small_multiples(aa);
    // and 2·(u·a) + a² + 2·(s·m) = 0
    let left = s.times(b).plus(s.times(b));
    let right = aa.plus(aa).plus(aa);
    let c = ua.plus(ua).plus(aa).plus(sm.plus(sm));
    assert(c == zero);
    assert(left == right.plus(c)) by {
        let env = seq![ua, aa, sm];
        let (e0, e1, e2) = (linear::e(0), linear::e(1), linear::e(2));
        let sb = e0.a(e1).a(e1).a(e2);
        let l = sb.a(sb);
        let r = e1.a(e1).a(e1).a(e0.a(e0).a(e1).a(e2.a(e2)));
        reveal_with_fuel(linear::Sum::val, 6);
        reveal_with_fuel(linear::Sum::count, 6);
        reveal_with_fuel(linear::Sum::within, 6);
        reveal_with_fuel(linear::same_counts, 4);
        linear::lemma_sums(l, r, env);
    }
    ring::lemma_reduced(aa.plus(aa), aa);
    ring::lemma_plus_zero(right);
}

/// The ordinate that is its own opposite is zero.
pub proof fn lemma_own_opposite(y: El)
    requires
        y.reduced(),
    ensures
        (y == y.opp()) == (y == El::num(0)),
{
    ring::lemma_opposite(y, y);
    lemma_double_zero(y);
}

/// Adding a point and subtracting it again gives the point one started from.
pub proof fn lemma_undone(p: Pt, q: Pt, k: El)
    requires
        p.on(k),
        q.on(k),
        k.reduced(),
        k != El::num(0),
    ensures
        p.plus(q).plus(q.reflected()) == p,
{
    match (p, q) {
        (Pt::Inf, Pt::At(a, b)) => {
            lemma_own_opposite(b);
        },
        (Pt::At(u, v), Pt::At(a, b)) => {
            if u != a {
                let s = v.minus(b).times(inverse::inv(u.minus(a)));
                let t = s.times(s).minus(u).minus(a);
                let w = s.times(u.minus(t)).minus(v);
                let m = v.minus(s.times(u));
                lemma_chord_line(u, v, a, b, k);
                ring::lemma_reduced(v.minus(b), inverse::inv(u.minus(a)));
                ring::lemma_reduced(s.times(s).minus(u), a);
                ring::lemma_reduced(s.times(u.minus(t)), v);
                ring::lemma_reduced(v, s.times(u));
                if t != a {
                    lemma_back_by_chord(u, v, a, b, t, w, s, m);
                } else {
                    ring::lemma_opp_opp(w);
                    lemma_double_root(u, a, b, s, m);
                    if b == El::num(0) {
                        lemma_not_singular(a, b, s, k);
                    }
                    lemma_back_by_tangent(u, v, a, b, s, m);
                }
            } else if v == b && b != El::num(0) {
                lemma_doubled_undone(a, b);
            } else {
                lemma_same_abscissa(a, b, v, k);
                lemma_own_opposite(b);
            }
        },
        _ => {},
    }
}

/// At a point of ordinate zero no line but the vertical touches the curve.
proof fn lemma_not_singular(a: El, b: El, s: El, k: El)
    requires
        a.reduced(),
        k.reduced(),
        b == El::num(0),
        on_curve(a, b, k),
        El::num(3).times(a).times(a) == s.times(b.plus(b)),
    ensures
        k == El::num(0),
{
    let zero = El::num(0);
    ring::lemma_plus_zero(zero);
    ring::lemma_times_zero(s);
    ring::lemma_times_zero(zero);
    ring::lemma_times_zero(a);
    ring::lemma_times_comm(s, zero);
    let three = El::num(3);
    ring::lemma_reduced(three, a);
    assert(three.reduced() && three != zero);
    inverse::lemma_no_zero_divisors(three.times(a), a);
    inverse::lemma_no_zero_divisors(three, a);
    assert(a == zero);
    ring::lemma_times_comm(zero, zero);
    ring::lemma_plus_zero(k);
    ring::lemma_plus_comm(zero, k);
}

/// Subtracting a point from its double gives the point.
proof fn lemma_doubled_undone(a: El, b: El)
    requires
        a.reduced(),
        b.reduced(),
        b != El::num(0),
    ensures
        Pt::At(a, b).plus(Pt::At(a, b)).plus(Pt::At(a, b.opp())) == Pt::At(a, b),
{
    let zero = El::num(0);
    let d = b.plus(b);
    let n = El::num(3).times(a).times(a);
    let s = n.times(inverse::inv(d));
    let t = s.times(s).minus(a).minus(a);
    let w = s.times(a.minus(t)).minus(b);
    let m = b.minus(s.times(a));
    let (sa, st) = (s.times(a), s.times(t));
    ring::lemma_reduced(n, inverse::inv(d));
    ring::lemma_reduced(s.times(s).minus(a), a);
    ring::lemma_reduced(s.times(a.minus(t)), b);
    ring::lemma_reduced(b, sa);
    ring::lemma_reduced(s, s);
    ring::lemma_reduced(s, a);
    ring::lemma_reduced(s, t);
    ring::lemma_reduced(b, b);
    ring::lemma_reduced(El::num(3).times(a), a);
    lemma_double_zero(b);
    // n = s·d
    assert(n == s.times(d)) by {
        inverse::lemma_inv(d);
        ring::lemma_times_assoc(n, inverse::inv(d), d);
        ring::lemma_times_comm(inverse::inv(d), d);
        ring::lemma_times_one(n);
    }
    let (e0, e1, e2, e3) = (linear::e(0), linear::e(1), linear::e(2), linear::e(3));
    // s² = a + a + t
    assert(s.times(s) == a.plus(a).plus(t)) by {
        let env = seq![s.times(s), a];
        let right = e1.a(e1).a(e0.s(e1).s(e1));
        reveal_with_fuel(linear::Sum::val, 5);
        reveal_with_fuel(linear::Sum::count, 5);
        reveal_with_fuel(linear::Sum::within, 5);
        reveal_with_fuel(linear::same_counts, 4);
        linear::lemma_sums(e0, right, env);
    }
    assert(sa.plus(m) == b) by {
        ring::lemma_plus_comm(sa, m);
        ring::lemma_minus_plus(b, sa);
    }
    assert(st.plus(m) == w.opp()) by {
        ring::lemma_times_minus(s, a, t);
        ring::lemma_zero_minus(w);
        let env = seq![st, sa, b, zero];
        let left = e0.a(e2.s(e1));
        let right = e3.s(e1.s(e0).s(e2));
        reveal_with_fuel(linear::Sum::val, 5);
        reveal_with_fuel(linear::Sum::count, 5);
        reveal_with_fuel(linear::Sum::within, 5);
        linear::lemma_sums_zero(left, right, env, 3);
    }
    if t != a {
        lemma_back_by_chord(a, b, a, b, t, w, s, m);
    } else {
        ring::lemma_opp_opp(w);
        lemma_back_by_tangent(a, b, a, b, s, m);
    }
}

/// A difference is the point at infinity exactly for equal points.
pub proof fn lemma_difference_zero(p: Pt, o: Pt, k: El)
    requires
        p.on(k),
        o.on(k),
    ensures
        (p.plus(o.reflected()) == Pt::Inf) == (p == o),
{
    match (p, o) {
        (Pt::At(u, v), Pt::At(a, b)) => {
            lemma_own_opposite(b);
            if u == a {
                lemma_same_abscissa(a, b, v, k);
                ring::lemma_opp_opp(b);
                lemma_own_opposite(El::num(0));
            }
        },
        _ => {},
    }
}

/// Points with one sum with a third are one.
pub proof fn lemma_cancelled(p: Pt, o: Pt, q: Pt, k: El)
    requires
        p.on(k),
        o.on(k),
        q.on(k),
        k.reduced(),
        k != El::num(0),
        p.plus(q) == o.plus(q),
    ensures
        p == o,
{
    lemma_undone(p, q, k);
    lemma_undone(o, q, k);
}

/// `X` and `Y` are reduced elements.
pub proof fn lemma_sums_reduced(u: El, v: El, a: El, b: El, k: El)
    ensures
        sum_x(u, v, a, b, k).reduced(),
        sum_y(u, v, a, b, k).reduced(),
{
    ring::lemma_reduced(
        k.plus(k).minus(b.plus(b).times(v)).plus(a.times(a).times(u)),
        a.times(u).times(u),
    );
    let three = El::num(3);
    ring::lemma_reduced(
        b.times(v).times(v).plus(three.times(a).times(b).times(u).times(u)).minus(
            three.times(a).times(a).times(u).times(v),
        ).minus(a.times(a).times(a).plus(El::num(4).times(k)).times(v)),
        three.times(b).times(k),
    );
}

} // verus!
