//! Logarithms in the group that a point of order `r` generates.
use crate::assoc;
use crate::points;
use crate::points::Pt;
use crate::ring;
use crate::ring::El;
use vstd::prelude::*;

verus! {

/// `k` times the point `g`.
#[verifier::opaque]
pub open spec fn at(g: Pt, k: int) -> Pt {
    g.times(k as nat)
}

/// The logarithm of a point to the base `g`.
pub open spec fn log_of(g: Pt, p: Pt) -> int {
    choose|k: int| 0 <= k < ring::r() && #[trigger] at(g, k) == p
}

/// Whether `g` is a point of the curve with the constant `b`, of order `r`.
pub open spec fn has_order_r(g: Pt, b: El) -> bool {
    &&& g.on(b)
    &&& at(g, ring::r()) == Pt::Inf
    &&& forall|k: int| 0 < k < ring::r() ==> #[trigger] at(g, k) != Pt::Inf
}

/// Whether `g` has the order `r` and `p` is one of its multiples.
pub open spec fn is_multiple(g: Pt, b: El, p: Pt) -> bool {
    has_order_r(g, b) && exists|k: int| 0 <= k < ring::r() && #[trigger] at(g, k) == p
}

/// The multiple by a sum is the sum of the multiples.
proof fn lemma_at_sum(g: Pt, b: El, m: nat, n: nat)
    requires
        g.on(b),
        b.reduced(),
        b != El::num(0),
    ensures
        g.times(m + n) == g.times(m).plus(g.times(n)),
    decreases n,
{
    if n > 0 {
        let l = (n - 1) as nat;
        lemma_at_sum(g, b, m, l);
        assoc::lemma_multiple_on_curve(g, m, b);
        assoc::lemma_multiple_on_curve(g, l, b);
        assoc::lemma_sum_assoc(g.times(m), g.times(l), g, b);
        assert((m + n - 1) as nat == m + l);
    } else {
        assoc::lemma_multiple_on_curve(g, m, b);
        assoc::lemma_sum_comm(g.times(m), Pt::Inf, b);
    }
}

/// The multiple by a product is the multiple of the multiple.
proof fn lemma_at_product(g: Pt, b: El, m: nat, n: nat)
    requires
        g.on(b),
        b.reduced(),
        b != El::num(0),
    ensures
        g.times(m * n) == g.times(m).times(n),
    decreases n,
{
    if n > 0 {
        let l = (n - 1) as nat;
        lemma_at_product(g, b, m, l);
        lemma_at_sum(g, b, m * l, m);
        assert(m * n == m * l + m) by (nonlinear_arith)
            requires
                n == l + 1,
        ;
    } else {
        vstd::arithmetic::mul::lemma_mul_by_zero_is_zero(m as int);
    }
}

/// Multiples by congruent numbers are one.
proof fn lemma_at_mod(g: Pt, b: El, n: nat)
    requires
        has_order_r(g, b),
        b.reduced(),
        b != El::num(0),
    ensures
        at(g, n as int) == at(g, n as int % ring::r()),
{
    reveal(at);
    let m = ring::r() as nat;
    let (q, s) = ((n as int / ring::r()) as nat, (n as int % ring::r()) as nat);
    vstd::arithmetic::div_mod::lemma_fundamental_div_mod(n as int, ring::r());
    vstd::arithmetic::div_mod::lemma_div_pos_is_pos(n as int, ring::r());
    vstd::arithmetic::div_mod::lemma_mod_bound(n as int, ring::r());
    lemma_at_product(g, b, m, q);
    assoc::lemma_infinity_times(q);
    lemma_at_sum(g, b, m * q, s);
}

/// The logarithm of a multiple.
pub proof fn lemma_log(g: Pt, b: El, k: int)
    requires
        has_order_r(g, b),
        b.reduced(),
        b != El::num(0),
        0 <= k < ring::r(),
    ensures
        is_multiple(g, b, at(g, k)),
        log_of(g, at(g, k)) == k,
{
    let j = log_of(g, at(g, k));
    assert(at(g, j) == at(g, k) && 0 <= j < ring::r());
    let (lo, hi) = if j < k {
        (j, k)
    } else {
        (k, j)
    };
    assert(at(g, hi - lo) == Pt::Inf) by {
        reveal(at);
        let d = g.times((hi - lo) as nat);
        lemma_at_sum(g, b, (hi - lo) as nat, lo as nat);
        assoc::lemma_multiple_on_curve(g, (hi - lo) as nat, b);
        assoc::lemma_multiple_on_curve(g, lo as nat, b);
        points::lemma_cancelled(d, Pt::Inf, g.times(lo as nat), b);
    }
}

/// A multiple is that by its logarithm.
pub proof fn lemma_at_log(g: Pt, b: El, p: Pt)
    requires
        is_multiple(g, b, p),
    ensures
        0 <= log_of(g, p) < ring::r(),
        at(g, log_of(g, p)) == p,
{
}

/// The point at infinity has the logarithm zero.
pub proof fn lemma_log_infinity(g: Pt, b: El)
    requires
        has_order_r(g, b),
        b.reduced(),
        b != El::num(0),
    ensures
        is_multiple(g, b, Pt::Inf),
        log_of(g, Pt::Inf) == 0,
{
    assert(at(g, 0) == Pt::Inf) by {
        reveal(at);
    }
    lemma_log(g, b, 0);
}

/// The logarithm of a sum is the sum of the logarithms.
pub proof fn lemma_log_sum(g: Pt, b: El, p: Pt, q: Pt)
    requires
        is_multiple(g, b, p),
        is_multiple(g, b, q),
        b.reduced(),
        b != El::num(0),
    ensures
        is_multiple(g, b, p.plus(q)),
        log_of(g, p.plus(q)) == (log_of(g, p) + log_of(g, q)) % ring::r(),
{
    let (i, j) = (log_of(g, p), log_of(g, q));
    lemma_at_log(g, b, p);
    lemma_at_log(g, b, q);
    assert(at(g, i + j) == p.plus(q)) by {
        reveal(at);
        lemma_at_sum(g, b, i as nat, j as nat);
    }
    lemma_at_mod(g, b, (i + j) as nat);
    vstd::arithmetic::div_mod::lemma_mod_bound(i + j, ring::r());
    lemma_log(g, b, (i + j) % ring::r());
}

/// The logarithm of a multiple of a point is the multiple of the logarithm.
pub proof fn lemma_log_multiple(g: Pt, b: El, p: Pt, n: nat)
    requires
        is_multiple(g, b, p),
        b.reduced(),
        b != El::num(0),
    ensures
        is_multiple(g, b, p.times(n)),
        log_of(g, p.times(n)) == (n * log_of(g, p)) % ring::r(),
{
    let i = log_of(g, p);
    lemma_at_log(g, b, p);
    vstd::arithmetic::mul::lemma_mul_is_commutative(i, n as int);
    vstd::arithmetic::mul::lemma_mul_nonnegative(n as int, i);
    assert(at(g, n * i) == p.times(n)) by {
        reveal(at);
        lemma_at_product(g, b, i as nat, n);
        assert((n * i) as nat == i as nat * n);
    }
    lemma_at_mod(g, b, (n * i) as nat);
    vstd::arithmetic::div_mod::lemma_mod_bound(n * i, ring::r());
    lemma_log(g, b, (n * i) % ring::r());
}

/// The logarithm of the reflected point is the opposite.
pub proof fn lemma_log_reflected(g: Pt, b: El, p: Pt)
    requires
        is_multiple(g, b, p),
        b.reduced(),
        b != El::num(0),
    ensures
        is_multiple(g, b, p.reflected()),
        log_of(g, p.reflected()) == (-log_of(g, p)) % ring::r(),
{
    let (i, m) = (log_of(g, p), ring::r());
    lemma_at_log(g, b, p);
    let j = if i == 0 {
        0
    } else {
        m - i
    };
    assert(at(g, j) == p.reflected()) by {
        reveal(at);
        if i != 0 {
            // p + (r − i)·g = r·g
            let q = g.times(j as nat);
            lemma_at_sum(g, b, i as nat, j as nat);
            assoc::lemma_multiple_on_curve(g, i as nat, b);
            assoc::lemma_multiple_on_curve(g, j as nat, b);
            assert((i as nat + j as nat) as int == m);
            assoc::lemma_reflected_twice(q, b);
            points::lemma_difference_zero(p, q.reflected(), b);
            assoc::lemma_reflected_twice(p, b);
        }
    }
    if i == 0 {
        vstd::arithmetic::div_mod::lemma_small_mod(0, m as nat);
    } else {
        vstd::arithmetic::div_mod::lemma_small_mod((m - i) as nat, m as nat);
        vstd::arithmetic::div_mod::lemma_mod_add_multiples_vanish(-i, m);
    }
    lemma_log(g, b, j);
}

} // verus!
