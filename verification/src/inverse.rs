//! Inverses in the coordinate fields.
//!
//! `F_p` is a field since `p` is a prime, and `F_{p^2}` is one since `−1` is no
//! square modulo `p`.
use crate::certificate;
use crate::nums;
use crate::primes;
use crate::ring;
use crate::ring::El;
use vstd::arithmetic::div_mod::*;
use vstd::arithmetic::mul::*;
use vstd::prelude::*;

verus! {

/// The smallest number whose square exceeds `p`.
spec fn root() -> int {
    147946756881789319005730692170996259611int
}

proof fn lemma_root()
    ensures
        root() * root() > ring::p(),
        (root() - 1) * (root() - 1) < ring::p(),
        ring::p() % 4 == 3,
{
    assert(147946756881789319005730692170996259611int * 147946756881789319005730692170996259611int
        > ring::p());
    assert(147946756881789319005730692170996259610int * 147946756881789319005730692170996259610int
        < ring::p());
}

/// Two squares never sum to a number that leaves the remainder three by four.
proof fn lemma_two_squares(a: int, b: int)
    ensures
        (a * a + b * b) % 4 != 3,
{
    lemma_square_mod_4(a);
    lemma_square_mod_4(b);
    nums::lemma_mod_ops(a * a, b * b, 4);
}

proof fn lemma_square_mod_4(a: int)
    ensures
        (a * a) % 4 == 0 || (a * a) % 4 == 1,
{
    let h = a / 2;
    if a % 2 == 0 {
        assert(a * a == (h * h) * 4) by (nonlinear_arith)
            requires
                a == 2 * h,
        ;
    } else {
        assert(a * a == (h * h + h) * 4 + 1) by (nonlinear_arith)
            requires
                a == 2 * h + 1,
        ;
    }
}

/// A pair of small numbers with `a ≡ t·b` would have `a² + b² = p` if `t² ≡ −1`.
proof fn lemma_small_pair(t: int, a: int, b: int)
    requires
        -root() < a < root(),
        -root() < b < root(),
        a != 0 || b != 0,
        (a - t * b) % ring::p() == 0,
    ensures
        (t * t + 1) % ring::p() != 0,
{
    let m = ring::p();
    lemma_root();
    if (t * t + 1) % m == 0 {
        let k = (a - t * b) / m;
        let l = (t * t + 1) / m;
        lemma_fundamental_div_mod(a - t * b, m);
        lemma_fundamental_div_mod(t * t + 1, m);
        // a² + b² = (t·b + m·k)² + b² = b²·(t² + 1) + m·k·(2·t·b + m·k)
        let (tb, mk) = (t * b, m * k);
        let rest = 2 * tb + mk;
        let q = (b * b) * l + k * rest;
        assert(a * a == tb * tb + mk * rest) by (nonlinear_arith)
            requires
                a == tb + mk,
                rest == 2 * tb + mk,
        ;
        assert(tb * tb + b * b == (b * b) * (t * t + 1)) by (nonlinear_arith)
            requires
                tb == t * b,
        ;
        assert((b * b) * (m * l) == m * ((b * b) * l)) by (nonlinear_arith);
        lemma_mul_is_associative(m, k, rest);
        lemma_mul_is_distributive_add(m, (b * b) * l, k * rest);
        let s = root() - 1;
        assert(a * a <= s * s) by (nonlinear_arith)
            requires
                -s <= a <= s,
        ;
        assert(b * b <= s * s) by (nonlinear_arith)
            requires
                -s <= b <= s,
        ;
        assert(a * a + b * b > 0) by (nonlinear_arith)
            requires
                a != 0 || b != 0,
        ;
        assert(q == 1) by (nonlinear_arith)
            requires
                0 < m * q < 2 * m,
                m > 0,
        ;
        lemma_two_squares(a, b);
    }
}

/// `−1` is no square modulo `p`.
pub proof fn lemma_no_root_of_minus_one(t: int)
    ensures
        (t * t + 1) % ring::p() != 0,
{
    let m = ring::p();
    let s = root();
    if (t * t + 1) % m == 0 {
        lemma_root();
        let f = |n: int| (n / s - t * (n % s)) % m;
        assert forall|i: int, j: int| 0 <= i < j < s * s implies #[trigger] f(i) != #[trigger] f(
            j,
        ) by {
            if f(i) == f(j) {
                let (x, y) = (i / s - t * (i % s), j / s - t * (j % s));
                let (a, b) = (i / s - j / s, i % s - j % s);
                nums::lemma_mod_ops(x, y, m);
                lemma_small_mod(0, m as nat);
                assert(a - t * b == x - y) by (nonlinear_arith)
                    requires
                        x == i / s - t * (i % s),
                        y == j / s - t * (j % s),
                        a == i / s - j / s,
                        b == i % s - j % s,
                ;
                lemma_fundamental_div_mod(i, s);
                lemma_fundamental_div_mod(j, s);
                lemma_div_below(i, s);
                lemma_div_below(j, s);
                lemma_small_pair(t, a, b);
            }
        }
        primes::lemma_pigeonhole(s * s, m, f);
    }
}

proof fn lemma_div_below(i: int, s: int)
    requires
        s > 0,
        0 <= i < s * s,
    ensures
        0 <= i / s < s,
{
    lemma_fundamental_div_mod(i, s);
    lemma_mod_bound(i, s);
    let q = i / s;
    assert(0 <= q < s) by (nonlinear_arith)
        requires
            s > 0,
            0 <= i < s * s,
            i == s * q + i % s,
            0 <= i % s < s,
    ;
}

/// A number that is no multiple of `p` has an inverse.
proof fn lemma_unit(k: int) -> (y: int)
    requires
        k % ring::p() != 0,
    ensures
        (k * y) % ring::p() == 1,
{
    certificate::lemma_prime_p();
    reveal(primes::prime);
    let k0 = k % ring::p();
    assert(primes::unit(k0, ring::p()));
    let y = choose|y: int| (#[trigger] (k0 * y)) % ring::p() == 1;
    nums::lemma_mod_ops(k, y, ring::p());
    y
}

/// Remainders zero come from a factor zero.
proof fn lemma_zero_factor(x: int, y: int)
    requires
        (x * y) % ring::p() == 0,
        y % ring::p() != 0,
    ensures
        x % ring::p() == 0,
{
    let m = ring::p();
    let w = lemma_unit(y);
    nums::lemma_mod_ops(x * y, w, m);
    assert(0 * w == 0);
    lemma_mul_is_associative(x, y, w);
    nums::lemma_mod_ops(x, y * w, m);
    assert(x * 1 == x);
    lemma_small_mod(0, m as nat);
}

/// The norm of an element that is not zero is not zero.
proof fn lemma_norm(z: El)
    requires
        z.reduced(),
        z != El::num(0),
    ensures
        (z.c0 * z.c0 + z.c1 * z.c1) % ring::p() != 0,
{
    let m = ring::p();
    let (a, b) = (z.c0, z.c1);
    lemma_small_mod(a as nat, m as nat);
    lemma_small_mod(b as nat, m as nat);
    lemma_small_mod(0, m as nat);
    if (a * a + b * b) % m == 0 {
        if b == 0 {
            lemma_mul_by_zero_is_zero(b);
            lemma_zero_factor(a, a);
        } else {
            let y = lemma_unit(b);
            let t = a * y;
            // (t² + 1) ≡ (a² + b²)·y²
            assert((b * y) * (b * y) + t * t == (a * a + b * b) * (y * y)) by (nonlinear_arith)
                requires
                    t == a * y,
            ;
            nums::lemma_mod_ops(a * a + b * b, y * y, m);
            assert(0 * (y * y) == 0);
            nums::lemma_mod_ops(b * y, b * y, m);
            lemma_small_mod(1, m as nat);
            nums::lemma_mod_ops((b * y) * (b * y), t * t, m);
            nums::lemma_mod_ops(1, t * t, m);
            lemma_no_root_of_minus_one(t);
        }
    }
}

/// Whether `y` is the inverse of `z`.
pub open spec fn is_inverse(z: El, y: El) -> bool {
    y.reduced() && z.times(y) == El::num(1)
}

/// The inverse of an element that is not zero.
pub open spec fn inv(z: El) -> El {
    choose|y: El| is_inverse(z, y)
}

/// Every element but zero has an inverse.
pub proof fn lemma_inv(z: El)
    requires
        z.reduced(),
        z != El::num(0),
    ensures
        is_inverse(z, inv(z)),
{
    let m = ring::p();
    let (a, b) = (z.c0, z.c1);
    lemma_norm(z);
    let n = a * a + b * b;
    let w = lemma_unit(n);
    let y = El { c0: a * w, c1: -b * w };
    ring::lemma_ops(z, y.red(), 0);
    ring::lemma_red_right(z, y);
    ring::lemma_reduced(y, y);
    assert(z.gauss(y).c0 == n * w) by (nonlinear_arith)
        requires
            z.gauss(y).c0 == a * (a * w) - b * (-b * w),
            n == a * a + b * b,
    ;
    assert(z.gauss(y).c1 == 0) by (nonlinear_arith)
        requires
            z.gauss(y).c1 == a * (-b * w) + b * (a * w),
    ;
    lemma_small_mod(0, m as nat);
    lemma_small_mod(1, m as nat);
    assert(is_inverse(z, y.red()));
}

/// Inverses are unique.
pub proof fn lemma_inv_unique(z: El, y: El)
    requires
        z.reduced(),
        is_inverse(z, y),
    ensures
        inv(z) == y,
        z != El::num(0),
{
    let x = inv(z);
    assert(is_inverse(z, x));
    // x = x·(z·y) = (z·x)·y = y
    ring::lemma_times_one(x);
    ring::lemma_times_one(y);
    ring::lemma_times_assoc(x, z, y);
    ring::lemma_times_comm(x, z);
    if z == El::num(0) {
        ring::lemma_times_zero(y);
    }
}

/// A product is zero only for a factor zero.
pub proof fn lemma_no_zero_divisors(x: El, y: El)
    requires
        x.reduced(),
        y.reduced(),
    ensures
        (x.times(y) == El::num(0)) == (x == El::num(0) || y == El::num(0)),
{
    ring::lemma_times_zero(x);
    ring::lemma_times_zero(y);
    if x.times(y) == El::num(0) && y != El::num(0) {
        lemma_inv(y);
        ring::lemma_times_assoc(x, y, inv(y));
        ring::lemma_times_zero(inv(y));
        ring::lemma_times_one(x);
    }
}

} // verus!
