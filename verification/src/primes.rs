//! Primes, and a criterion of primality.
//!
//! The criterion is Pocklington's: an element whose order modulo every divisor
//! of `n` is a number `f` with `f² > n` leaves no room for two proper divisors.
use crate::nums;
use vstd::arithmetic::div_mod::*;
use vstd::arithmetic::mul::*;
use vstd::prelude::*;
use vstd::set_lib::*;

verus! {

/// Whether `z` has an inverse modulo `n`.
pub open spec fn unit(z: int, n: int) -> bool {
    exists|y: int| (#[trigger] (z * y)) % n == 1
}

/// Whether every number that is not a multiple of `n` has an inverse modulo `n`.
#[verifier::opaque]
pub open spec fn prime(n: int) -> bool {
    n > 1 && forall|k: int| 0 < k < n ==> #[trigger] unit(k, n)
}

/// No map takes `m` numbers one to one into fewer.
pub proof fn lemma_pigeonhole(m: int, n: int, f: spec_fn(int) -> int)
    requires
        0 <= m,
        0 <= n,
        forall|i: int| 0 <= i < m ==> 0 <= #[trigger] f(i) < n,
        forall|i: int, j: int| 0 <= i < j < m ==> #[trigger] f(i) != #[trigger] f(j),
    ensures
        m <= n,
{
    let x = set_int_range(0, m);
    let y = x.map(f);
    lemma_int_range(0, m);
    lemma_int_range(0, n);
    lemma_map_size(x, y, f);
    assert(y.subset_of(set_int_range(0, n)));
    lemma_len_subset(y, set_int_range(0, n));
}

/// A common divisor as a combination of its two numbers.
proof fn lemma_bezout(a: int, b: int) -> (res: (int, int, int))
    requires
        a > 0,
        b >= 0,
    ensures
        res.0 > 0,
        a % res.0 == 0,
        b % res.0 == 0,
        a * res.1 + b * res.2 == res.0,
    decreases b,
{
    if b == 0 {
        lemma_mod_self_0(a);
        lemma_small_mod(0, a as nat);
        (a, 1, 0)
    } else {
        let (g, x, y) = lemma_bezout(b, a % b);
        let q = a / b;
        lemma_fundamental_div_mod(a, b);
        lemma_mod_mul(b, q, g);
        nums::lemma_mod_ops(b * q, a % b, g);
        assert(a * y + b * (x - q * y) == g) by (nonlinear_arith)
            requires
                a == b * q + a % b,
                b * x + (a % b) * y == g,
        ;
        (g, y, x - q * y)
    }
}

/// A multiple of a multiple.
proof fn lemma_mod_mul(a: int, k: int, g: int)
    requires
        g > 0,
        a % g == 0,
    ensures
        (a * k) % g == 0,
{
    nums::lemma_mod_ops(a, k, g);
    assert(0 * k == 0);
    lemma_small_mod(0, g as nat);
}

/// Divisors of a number are congruence classes of it.
proof fn lemma_mod_divisor(x: int, n: int, d: int)
    requires
        d > 0,
        n > 0,
        n % d == 0,
    ensures
        (x % n) % d == x % d,
{
    lemma_fundamental_div_mod(x, n);
    lemma_mod_mul(n, x / n, d);
    nums::lemma_mod_ops(n * (x / n), x % n, d);
    nums::lemma_mod_ops(x % n, 0, d);
}

/// A number without proper divisors is a prime.
proof fn lemma_prime_from_divisors(n: int)
    requires
        n > 1,
        forall|d: int| 1 < d < n ==> #[trigger] (n % d) != 0,
    ensures
        prime(n),
{
    reveal(prime);
    assert forall|k: int| 0 < k < n implies #[trigger] unit(k, n) by {
        let (g, x, y) = lemma_bezout(n, k);
        if g > k {
            lemma_small_mod(k as nat, g as nat);
        }
        assert(g == 1);
        lemma_mod_multiples_vanish(x, k * y, n);
        assert(n * x + k * y == x * n + k * y) by (nonlinear_arith);
        lemma_mul_is_commutative(n, x);
        lemma_small_mod(1, n as nat);
        assert((k * y) % n == 1);
    }
}

/// Trial division up to the square root.
pub proof fn lemma_prime_by_trial(n: int, s: int)
    requires
        n > 1,
        n < s * s,
        s > 0,
        forall|d: int| 1 < d < s ==> #[trigger] (n % d) != 0,
    ensures
        prime(n),
{
    assert forall|d: int| 1 < d < n implies #[trigger] (n % d) != 0 by {
        if n % d == 0 {
            let e = n / d;
            lemma_fundamental_div_mod(n, d);
            assert(1 < e < n && (d < s || e < s)) by (nonlinear_arith)
                requires
                    n == d * e,
                    1 < d < n,
                    n < s * s,
                    s > 0,
            ;
            lemma_mul_is_commutative(d, e);
            lemma_mod_multiples_basic(d, e);
            assert(n % e == 0);
        }
    }
    lemma_prime_from_divisors(n);
}

// ------------------------------------------------------------------ powers

/// `x^(m·n) = (x^m)^n`.
proof fn lemma_pow_mul(x: int, m: nat, n: nat)
    ensures
        nums::pow(x, m * n) == nums::pow(nums::pow(x, m), n),
    decreases n,
{
    if n == 0 {
        assert(m * n == 0);
    } else {
        lemma_pow_mul(x, m, (n - 1) as nat);
        assert(m * n == m + m * ((n - 1) as nat)) by (nonlinear_arith)
            requires
                n > 0,
        ;
        nums::lemma_pow_add(x, m, m * ((n - 1) as nat));
    }
}

/// Powers of a remainder.
proof fn lemma_pow_mod(x: int, y: int, e: nat, n: int)
    requires
        n > 0,
        x % n == y % n,
    ensures
        nums::pow(x, e) % n == nums::pow(y, e) % n,
    decreases e,
{
    if e > 0 {
        lemma_pow_mod(x, y, (e - 1) as nat, n);
        nums::lemma_mod_ops(x, nums::pow(x, (e - 1) as nat), n);
        nums::lemma_mod_ops(y, nums::pow(y, (e - 1) as nat), n);
    }
}

proof fn lemma_pow_one(e: nat)
    ensures
        nums::pow(1, e) == 1,
    decreases e,
{
    if e > 0 {
        lemma_pow_one((e - 1) as nat);
    }
}

/// `x^m ≡ 1` gives `x^(m·k) ≡ 1`.
proof fn lemma_pow_of_one(x: int, m: nat, k: nat, d: int)
    requires
        d > 1,
        nums::pow(x, m) % d == 1,
    ensures
        nums::pow(x, m * k) % d == 1,
{
    lemma_pow_mul(x, m, k);
    lemma_small_mod(1, d as nat);
    lemma_pow_mod(nums::pow(x, m), 1, k, d);
    lemma_pow_one(k);
}

/// `c^e ≡ x` modulo `n`.
#[verifier::opaque]
pub open spec fn power_is(c: int, n: int, e: int, x: int) -> bool {
    e >= 0 && nums::pow(c, e as nat) % n == x
}

pub proof fn lemma_power_one(c: int, n: int)
    requires
        0 <= c < n,
    ensures
        power_is(c, n, 1, c),
{
    reveal(power_is);
    reveal_with_fuel(nums::pow, 2);
    lemma_small_mod(c as nat, n as nat);
}

/// Squaring, with the quotient by the modulus given.
pub proof fn lemma_power_square(c: int, n: int, e: int, x: int, k: int, y: int)
    requires
        power_is(c, n, e, x),
        x * x == n * k + y,
        0 <= y < n,
    ensures
        power_is(c, n, 2 * e, y),
{
    reveal(power_is);
    let q = nums::pow(c, e as nat);
    nums::lemma_pow_add(c, e as nat, e as nat);
    nums::lemma_mod_ops(q, q, n);
    assert((2 * e) as nat == e as nat + e as nat);
    lemma_remainder(x * x, n, k, y);
}

/// One more factor, with the quotient by the modulus given.
pub proof fn lemma_power_times(c: int, n: int, e: int, x: int, k: int, y: int)
    requires
        power_is(c, n, e, x),
        x * c == n * k + y,
        0 <= y < n,
    ensures
        power_is(c, n, e + 1, y),
{
    reveal(power_is);
    let q = nums::pow(c, e as nat);
    nums::lemma_pow_add(c, e as nat, 1);
    assert(nums::pow(c, 1) == c) by {
        reveal_with_fuel(nums::pow, 2);
    }
    nums::lemma_mod_ops(q, c, n);
    assert((e + 1) as nat == e as nat + 1);
    lemma_remainder(x * c, n, k, y);
}

/// The remainder from its quotient.
proof fn lemma_remainder(x: int, n: int, k: int, y: int)
    requires
        x == n * k + y,
        0 <= y < n,
    ensures
        x % n == y,
{
    lemma_mul_is_commutative(n, k);
    lemma_mod_multiples_vanish(k, y, n);
    lemma_small_mod(y as nat, n as nat);
}

/// `(c^e)^f ≡ x^f` for `x ≡ c^e`.
pub proof fn lemma_power_power(c: int, n: int, e: int, f: int, x: int)
    requires
        n > 1,
        power_is(c, n, e, x),
        power_is(x, n, f, 1),
    ensures
        power_is(c, n, e * f, 1),
{
    reveal(power_is);
    lemma_pow_mul(c, e as nat, f as nat);
    nums::lemma_mod_ops(nums::pow(c, e as nat), 0, n);
    lemma_pow_mod(nums::pow(c, e as nat), x, f as nat, n);
    lemma_mul_nonnegative(e, f);
    assert((e * f) as nat == (e as nat) * (f as nat));
}

// -------------------------------------------------------------- Pocklington

/// With `x^f ≡ 1` for a prime `f`, and `x^k ≡ 1` for a `k` that is no multiple
/// of `f`, `x ≡ 1`.
proof fn lemma_order_divides(x: int, f: int, k: int, d: int)
    requires
        d > 1,
        prime(f),
        k > 0,
        k % f != 0,
        nums::pow(x, f as nat) % d == 1,
        nums::pow(x, k as nat) % d == 1,
    ensures
        x % d == 1,
{
    reveal(prime);
    let k0 = k % f;
    assert(unit(k0, f));
    let y0 = choose|y: int| (#[trigger] (k0 * y)) % f == 1;
    let y = y0 % f;
    nums::lemma_mod_ops(k0, y0, f);
    nums::lemma_mod_ops(k, y, f);
    assert((k * y) % f == 1);
    let m = (k * y) / f;
    lemma_fundamental_div_mod(k * y, f);
    lemma_mul_nonnegative(k, y);
    lemma_div_pos_is_pos(k * y, f);
    lemma_pow_of_one(x, k as nat, y as nat, d);
    lemma_pow_of_one(x, f as nat, m as nat, d);
    lemma_mul_nonnegative(f, m);
    nums::lemma_pow_add(x, (f * m) as nat, 1);
    assert(nums::pow(x, 1) == x) by {
        reveal_with_fuel(nums::pow, 2);
    }
    assert((k as nat) * (y as nat) == (f * m) as nat + 1);
    assert((f as nat) * (m as nat) == (f * m) as nat);
    nums::lemma_mod_ops(nums::pow(x, (f * m) as nat), x, d);
    assert(1 * x == x);
    nums::lemma_mod_ops(x, 0, d);
}

/// If `c^i ≡ c^j` with `i < j ≤ f` and `c^f ≡ 1`, then `c^(j−i) ≡ 1`.
proof fn lemma_same_power(c: int, f: int, i: int, j: int, d: int)
    requires
        d > 1,
        0 <= i < j < f,
        nums::pow(c, f as nat) % d == 1,
        nums::pow(c, i as nat) % d == nums::pow(c, j as nat) % d,
    ensures
        nums::pow(c, (j - i) as nat) % d == 1,
{
    let (u, v, w) = (
        nums::pow(c, (f - i) as nat),
        nums::pow(c, i as nat),
        nums::pow(c, j as nat),
    );
    let z = nums::pow(c, (j - i) as nat);
    let t = nums::pow(c, f as nat);
    nums::lemma_pow_add(c, (f - i) as nat, i as nat);
    nums::lemma_pow_add(c, (f - i) as nat, j as nat);
    nums::lemma_pow_add(c, f as nat, (j - i) as nat);
    assert((f - i) as nat + i as nat == f as nat);
    assert((f - i) as nat + j as nat == f as nat + (j - i) as nat);
    // t = u·v and u·w = t·z
    nums::lemma_mod_ops(u, v, d);
    nums::lemma_mod_ops(u, w, d);
    nums::lemma_mod_ops(t, z, d);
    assert(1 * z == z);
}

/// If `(x − 1)·w ≡ 1` modulo a multiple of `d`, then `x ≢ 1` modulo `d`.
proof fn lemma_not_one(x: int, w: int, n: int, d: int)
    requires
        d > 1,
        n > 0,
        n % d == 0,
        ((x - 1) * w) % n == 1,
    ensures
        x % d != 1,
{
    lemma_mod_divisor((x - 1) * w, n, d);
    lemma_small_mod(1, d as nat);
    lemma_small_mod(0, d as nat);
    if x % d == 1 {
        nums::lemma_mod_ops(x, 1, d);
        nums::lemma_mod_ops(x - 1, w, d);
        assert((x - 1) % d == 0);
        assert(0 * w == 0);
    }
}

/// A number all of whose divisors but one are at least `f`, with `f² > n`, is a
/// prime.
proof fn lemma_no_small_divisors(n: int, f: int)
    requires
        n > 1,
        f > 0,
        n < f * f,
        forall|d: int| d > 1 && #[trigger] (n % d) == 0 ==> d >= f,
    ensures
        prime(n),
{
    assert forall|d: int| 1 < d < n implies #[trigger] (n % d) != 0 by {
        if n % d == 0 {
            let e = n / d;
            lemma_fundamental_div_mod(n, d);
            assert(1 < e) by (nonlinear_arith)
                requires
                    n == d * e,
                    1 < d < n,
            ;
            lemma_mul_is_commutative(d, e);
            lemma_mod_multiples_basic(d, e);
            assert(n % e == 0);
            assert(d * e >= f * f) by (nonlinear_arith)
                requires
                    d >= f,
                    e >= f,
                    f > 0,
            ;
        }
    }
    lemma_prime_from_divisors(n);
}

/// An element of prime order `f` modulo every divisor, with `f² > n`.
pub proof fn lemma_pocklington(n: int, f: int, c: int, w: int, k: int)
    requires
        n > 1,
        prime(f),
        n < f * f,
        power_is(c, n, f, 1),
        (c - 1) * w == n * k + 1,
    ensures
        prime(n),
{
    reveal(prime);
    lemma_remainder((c - 1) * w, n, k, 1);
    reveal(power_is);
    assert forall|d: int| d > 1 && #[trigger] (n % d) == 0 implies d >= f by {
        lemma_mod_divisor(nums::pow(c, f as nat), n, d);
        lemma_small_mod(1, d as nat);
        let g = |i: int| nums::pow(c, i as nat) % d;
        assert forall|i: int, j: int| 0 <= i < j < f implies #[trigger] g(i) != #[trigger] g(
            j,
        ) by {
            if g(i) == g(j) {
                lemma_same_power(c, f, i, j, d);
                lemma_small_mod((j - i) as nat, f as nat);
                lemma_order_divides(c, f, j - i, d);
                lemma_not_one(c, w, n, d);
            }
        }
        lemma_pigeonhole(f, d, g);
    }
    lemma_no_small_divisors(n, f);
}

/// The same with an order `f1·f2` of two primes.
pub proof fn lemma_pocklington_pair(
    n: int,
    f1: int,
    f2: int,
    c: int,
    x1: int,
    x2: int,
    y: int,
    k: int,
    w1: int,
    k1: int,
    w2: int,
    k2: int,
)
    requires
        n > 1,
        prime(f1),
        prime(f2),
        f1 * y == f2 * k + 1,
        n < (f1 * f2) * (f1 * f2),
        power_is(c, n, f1 * f2, 1),
        power_is(c, n, f1, x1),
        power_is(c, n, f2, x2),
        (x2 - 1) * w1 == n * k1 + 1,
        (x1 - 1) * w2 == n * k2 + 1,
    ensures
        prime(n),
{
    reveal(prime);
    lemma_remainder(f1 * y, f2, k, 1);
    lemma_remainder((x2 - 1) * w1, n, k1, 1);
    lemma_remainder((x1 - 1) * w2, n, k2, 1);
    reveal(power_is);
    let f = f1 * f2;
    lemma_mul_strictly_positive(f1, f2);
    lemma_mul_is_commutative(f1, f2);
    assert(f as nat == (f1 as nat) * (f2 as nat));
    assert forall|d: int| d > 1 && #[trigger] (n % d) == 0 implies d >= f by {
        lemma_mod_divisor(nums::pow(c, f as nat), n, d);
        lemma_mod_divisor(nums::pow(c, f1 as nat), n, d);
        lemma_mod_divisor(nums::pow(c, f2 as nat), n, d);
        lemma_small_mod(1, d as nat);
        lemma_not_one(x2, w1, n, d);
        lemma_not_one(x1, w2, n, d);
        let g = |i: int| nums::pow(c, i as nat) % d;
        assert forall|i: int, j: int| 0 <= i < j < f implies #[trigger] g(i) != #[trigger] g(
            j,
        ) by {
            if g(i) == g(j) {
                lemma_same_power(c, f, i, j, d);
                let e = j - i;
                lemma_pair_step(c, f1, f2, e, d);
                lemma_pair_step(c, f2, f1, e, d);
                // both primes divide e < f1·f2
                let e1 = e / f1;
                lemma_fundamental_div_mod(e, f1);
                assert(0 < e1 < f2) by (nonlinear_arith)
                    requires
                        e == f1 * e1,
                        0 < e < f1 * f2,
                        f1 > 0,
                ;
                assert(e1 % f2 == 0) by {
                    lemma_mod_mul(e, y, f2);
                    assert(e * y == (f1 * y) * e1) by (nonlinear_arith)
                        requires
                            e == f1 * e1,
                    ;
                    nums::lemma_mod_ops(f1 * y, e1, f2);
                    assert(1 * e1 == e1);
                }
                lemma_small_mod(e1 as nat, f2 as nat);
            }
        }
        lemma_pigeonhole(f, d, g);
    }
    lemma_no_small_divisors(n, f);
}

/// With `c^(f1·f2) ≡ c^k ≡ 1` and `c^f2 ≢ 1`, the prime `f1` divides `k`.
proof fn lemma_pair_step(c: int, f1: int, f2: int, k: int, d: int)
    requires
        d > 1,
        k > 0,
        prime(f1),
        f2 > 0,
        nums::pow(c, (f1 * f2) as nat) % d == 1,
        nums::pow(c, k as nat) % d == 1,
        nums::pow(c, f2 as nat) % d != 1,
    ensures
        k % f1 == 0,
{
    reveal(prime);
    let x = nums::pow(c, f2 as nat);
    lemma_pow_mul(c, f2 as nat, f1 as nat);
    assert((f2 as nat) * (f1 as nat) == (f1 * f2) as nat) by (nonlinear_arith)
        requires
            f1 > 0,
            f2 > 0,
    ;
    lemma_pow_of_one(c, k as nat, f2 as nat, d);
    lemma_pow_mul(c, f2 as nat, k as nat);
    assert((f2 as nat) * (k as nat) == (k as nat) * (f2 as nat)) by (nonlinear_arith);
    if k % f1 != 0 {
        lemma_order_divides(x, f1, k, d);
    }
}

} // verus!
