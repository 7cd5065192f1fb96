//! The mathematical model of the coordinate fields.
//!
//! `F_p` is modelled by the integers modulo the BN254 prime, and `F_{p^2}` by
//! pairs `c0 + c1·η` of them with `η² = −1`. Both live in one type, [`El`]: an
//! element of `F_p` is an [`El`] whose `c1` is zero. The ring laws are proved
//! here once, for both fields.
use crate::nums;
use vstd::arithmetic::div_mod::*;
use vstd::arithmetic::mul::*;
use vstd::prelude::*;

verus! {

/// The BN254 base-field prime.
pub open spec fn p() -> int {
    0x30644e72e131a029b85045b68181585d97816a916871ca8d3c208c16d87cfd47int
}

/// The BN254 group order.
pub open spec fn r() -> int {
    0x30644e72e131a029b85045b68181585d2833e84879b9709143e1f593f0000001int
}

/// The element `c0 + c1·η` of `F_{p^2}`, with `η² = −1`.
pub struct El {
    pub c0: int,
    pub c1: int,
}

impl El {
    /// Whether both components are reduced.
    pub open spec fn reduced(self) -> bool {
        0 <= self.c0 < p() && 0 <= self.c1 < p()
    }

    /// Componentwise reduction modulo `p`.
    pub open spec fn red(self) -> El {
        El { c0: self.c0 % p(), c1: self.c1 % p() }
    }

    /// Multiplication of Gaussian integers, before any reduction.
    pub open spec fn gauss(self, y: El) -> El {
        El { c0: self.c0 * y.c0 - self.c1 * y.c1, c1: self.c0 * y.c1 + self.c1 * y.c0 }
    }

    #[verifier::opaque]
    pub open spec fn plus(self, y: El) -> El {
        (El { c0: self.c0 + y.c0, c1: self.c1 + y.c1 }).red()
    }

    #[verifier::opaque]
    pub open spec fn minus(self, y: El) -> El {
        (El { c0: self.c0 - y.c0, c1: self.c1 - y.c1 }).red()
    }

    #[verifier::opaque]
    pub open spec fn opp(self) -> El {
        (El { c0: -self.c0, c1: -self.c1 }).red()
    }

    #[verifier::opaque]
    pub open spec fn times(self, y: El) -> El {
        self.gauss(y).red()
    }

    /// The integer `n` as an element.
    pub open spec fn num(n: int) -> El {
        (El { c0: n, c1: 0 }).red()
    }

    /// `self^n`.
    pub open spec fn power(self, n: nat) -> El
        decreases n,
    {
        if n == 0 {
            El::num(1)
        } else {
            self.power((n - 1) as nat).times(self)
        }
    }

    /// `c·self`.
    #[verifier::opaque]
    pub open spec fn scale(self, c: int) -> El {
        (El { c0: c * self.c0, c1: c * self.c1 }).red()
    }
}

/// What each operation is, in components.
pub proof fn lemma_ops(x: El, y: El, c: int)
    ensures
        x.plus(y) == (El { c0: x.c0 + y.c0, c1: x.c1 + y.c1 }).red(),
        x.minus(y) == (El { c0: x.c0 - y.c0, c1: x.c1 - y.c1 }).red(),
        x.opp() == (El { c0: -x.c0, c1: -x.c1 }).red(),
        x.times(y) == x.gauss(y).red(),
        x.scale(c) == (El { c0: c * x.c0, c1: c * x.c1 }).red(),
{
    reveal(El::plus);
    reveal(El::minus);
    reveal(El::opp);
    reveal(El::times);
    reveal(El::scale);
}

pub proof fn lemma_plus_comm(x: El, y: El)
    ensures
        x.plus(y) == y.plus(x),
{
    reveal(El::plus);
}

pub proof fn lemma_plus_assoc(x: El, y: El, z: El)
    ensures
        x.plus(y).plus(z) == x.plus(y.plus(z)),
{
    reveal(El::plus);
}

pub proof fn lemma_plus_zero(x: El)
    requires
        x.reduced(),
    ensures
        x.plus(El::num(0)) == x,
        El::num(0).plus(x) == x,
        x.minus(El::num(0)) == x,
        x.minus(x) == El::num(0),
        x.plus(x.opp()) == El::num(0),
{
    reveal(El::plus);
    reveal(El::minus);
    reveal(El::opp);
    lemma_red_id(x);
}

/// Subtraction adds the opposite.
pub proof fn lemma_minus_opp(x: El, y: El)
    ensures
        x.minus(y) == x.plus(y.opp()),
{
    reveal(El::plus);
    reveal(El::minus);
    reveal(El::opp);
}

/// A difference is zero exactly for equal elements.
pub proof fn lemma_minus_zero(x: El, y: El)
    requires
        x.reduced(),
        y.reduced(),
    ensures
        (x.minus(y) == El::num(0)) == (x == y),
{
    reveal(El::minus);
}

pub proof fn lemma_reduced(x: El, y: El)
    ensures
        x.red().reduced(),
        x.plus(y).reduced(),
        x.minus(y).reduced(),
        x.times(y).reduced(),
        x.opp().reduced(),
{
    reveal(El::plus);
    reveal(El::minus);
    reveal(El::times);
    reveal(El::opp);
}

pub proof fn lemma_red_id(x: El)
    requires
        x.reduced(),
    ensures
        x.red() == x,
{
    lemma_small_mod(x.c0 as nat, p() as nat);
    lemma_small_mod(x.c1 as nat, p() as nat);
}

proof fn lemma_dot_mod(t: int, w: int, s: int, z: int)
    ensures
        ((t % p()) * w - (s % p()) * z) % p() == (t * w - s * z) % p(),
        ((t % p()) * w + (s % p()) * z) % p() == (t * w + s * z) % p(),
{
    let m = p();
    lemma_mul_mod_noop_left(t, w, m);
    lemma_mul_mod_noop_left(s, z, m);
    lemma_sub_mod_noop((t % m) * w, (s % m) * z, m);
    lemma_sub_mod_noop(t * w, s * z, m);
    lemma_add_mod_noop((t % m) * w, (s % m) * z, m);
    lemma_add_mod_noop(t * w, s * z, m);
}

/// Reducing a factor first changes nothing.
pub proof fn lemma_red_left(x: El, y: El)
    ensures
        x.red().gauss(y).red() == x.gauss(y).red(),
{
    lemma_dot_mod(x.c0, y.c0, x.c1, y.c1);
    lemma_dot_mod(x.c0, y.c1, x.c1, y.c0);
}

pub proof fn lemma_gauss_comm(x: El, y: El)
    ensures
        x.gauss(y) == y.gauss(x),
{
    lemma_mul_is_commutative(x.c0, y.c0);
    lemma_mul_is_commutative(x.c1, y.c1);
    lemma_mul_is_commutative(x.c0, y.c1);
    lemma_mul_is_commutative(x.c1, y.c0);
}

pub proof fn lemma_red_right(x: El, y: El)
    ensures
        x.gauss(y.red()).red() == x.gauss(y).red(),
{
    lemma_gauss_comm(x, y.red());
    lemma_gauss_comm(x, y);
    lemma_red_left(y, x);
}

pub proof fn lemma_gauss_assoc(x: El, y: El, z: El)
    ensures
        x.gauss(y).gauss(z) == x.gauss(y.gauss(z)),
{
    let (a, b, c, d, e, f) = (x.c0, x.c1, y.c0, y.c1, z.c0, z.c1);
    lemma_mul_is_distributive_sub_other_way(e, a * c, b * d);
    lemma_mul_is_distributive_add_other_way(f, a * d, b * c);
    lemma_mul_is_distributive_sub_other_way(f, a * c, b * d);
    lemma_mul_is_distributive_add_other_way(e, a * d, b * c);
    lemma_mul_is_distributive_sub(a, c * e, d * f);
    lemma_mul_is_distributive_add(b, c * f, d * e);
    lemma_mul_is_distributive_add(a, c * f, d * e);
    lemma_mul_is_distributive_sub(b, c * e, d * f);
    lemma_mul_is_associative(a, c, e);
    lemma_mul_is_associative(b, d, e);
    lemma_mul_is_associative(a, d, f);
    lemma_mul_is_associative(b, c, f);
    lemma_mul_is_associative(a, c, f);
    lemma_mul_is_associative(b, d, f);
    lemma_mul_is_associative(a, d, e);
    lemma_mul_is_associative(b, c, e);
}

pub proof fn lemma_gauss_dist(x: El, y: El, z: El)
    ensures
        x.gauss(El { c0: y.c0 + z.c0, c1: y.c1 + z.c1 }) == (El {
            c0: x.gauss(y).c0 + x.gauss(z).c0,
            c1: x.gauss(y).c1 + x.gauss(z).c1,
        }),
{
    lemma_mul_is_distributive_add(x.c0, y.c0, z.c0);
    lemma_mul_is_distributive_add(x.c1, y.c1, z.c1);
    lemma_mul_is_distributive_add(x.c0, y.c1, z.c1);
    lemma_mul_is_distributive_add(x.c1, y.c0, z.c0);
}

pub proof fn lemma_times_comm(x: El, y: El)
    ensures
        x.times(y) == y.times(x),
{
    reveal(El::times);
    lemma_gauss_comm(x, y);
}

pub proof fn lemma_times_assoc(x: El, y: El, z: El)
    ensures
        x.times(y).times(z) == x.times(y.times(z)),
{
    reveal(El::times);
    lemma_red_left(x.gauss(y), z);
    lemma_red_right(x, y.gauss(z));
    lemma_gauss_assoc(x, y, z);
}

pub proof fn lemma_times_plus(x: El, y: El, z: El)
    ensures
        x.times(y.plus(z)) == x.times(y).plus(x.times(z)),
{
    reveal(El::times);
    reveal(El::plus);
    let s = El { c0: y.c0 + z.c0, c1: y.c1 + z.c1 };
    lemma_red_right(x, s);
    lemma_gauss_dist(x, y, z);
    nums::lemma_mod_ops(x.gauss(y).c0, x.gauss(z).c0, p());
    nums::lemma_mod_ops(x.gauss(y).c1, x.gauss(z).c1, p());
}

pub proof fn lemma_times_one(x: El)
    requires
        x.reduced(),
    ensures
        x.times(El::num(1)) == x,
        El::num(1).times(x) == x,
{
    reveal(El::times);
    assert(El::num(1) == El { c0: 1, c1: 0 });
    lemma_red_id(x);
    lemma_times_comm(x, El::num(1));
}

pub proof fn lemma_times_zero(x: El)
    ensures
        x.times(El::num(0)) == El::num(0),
        El::num(0).times(x) == El::num(0),
{
    reveal(El::times);
    assert(El::num(0) == El { c0: 0, c1: 0 });
    lemma_times_comm(x, El::num(0));
}

/// Swaps the inner factors of a product of two products.
pub proof fn lemma_times_swap(a: El, b: El, c: El, d: El)
    ensures
        a.times(b).times(c.times(d)) == a.times(c).times(b.times(d)),
{
    lemma_times_assoc(a, b, c.times(d));
    lemma_times_assoc(b, c, d);
    lemma_times_comm(b, c);
    lemma_times_assoc(c, b, d);
    lemma_times_assoc(a, c, b.times(d));
}

pub proof fn lemma_power_add(x: El, m: nat, n: nat)
    ensures
        x.power(m + n) == x.power(m).times(x.power(n)),
    decreases n,
{
    if n == 0 {
        lemma_power_reduced(x, m);
        lemma_times_one(x.power(m));
    } else {
        lemma_power_add(x, m, (n - 1) as nat);
        assert((m + n - 1) as nat == m + (n - 1) as nat);
        lemma_times_assoc(x.power(m), x.power((n - 1) as nat), x);
    }
}

pub proof fn lemma_power_reduced(x: El, n: nat)
    ensures
        x.power(n).reduced(),
    decreases n,
{
    reveal(El::times);
}

/// Reduction of an integer first changes nothing.
pub proof fn lemma_num_mod(n: int)
    ensures
        El::num(n % p()) == El::num(n),
{
    lemma_mod_twice(n, p());
}

/// The operations on integers taken as elements.
pub proof fn lemma_num_ops(x: int, y: int)
    ensures
        El::num(x).plus(El::num(y)) == El::num(x + y),
        El::num(x).minus(El::num(y)) == El::num(x - y),
        El::num(x).times(El::num(y)) == El::num(x * y),
        El::num(x).opp() == El::num(-x),
        El::num((x + y) % p()) == El::num(x + y),
        El::num((x - y) % p()) == El::num(x - y),
        El::num((x * y) % p()) == El::num(x * y),
        El::num((-x) % p()) == El::num(-x),
{
    reveal(El::plus);
    reveal(El::minus);
    reveal(El::times);
    reveal(El::opp);
    let (e, f) = (El { c0: x, c1: 0 }, El { c0: y, c1: 0 });
    lemma_red_left(e, f.red());
    lemma_red_right(e, f);
    lemma_add_mod_noop(x, y, p());
    lemma_sub_mod_noop(x, y, p());
    lemma_num_mod(x + y);
    lemma_num_mod(x - y);
    lemma_num_mod(x * y);
    lemma_num_mod(-x);
    lemma_sub_mod_noop(0, x, p());
}

/// A product of elements that are not reduced yet.
pub proof fn lemma_times_red(x: El, y: El)
    ensures
        x.red().times(y.red()) == x.gauss(y).red(),
{
    reveal(El::times);
    lemma_red_left(x, y.red());
    lemma_red_right(x, y);
}

/// The operations in components, each taken as an element of `F_p`.
pub proof fn lemma_parts(x: El, y: El)
    ensures
        x.plus(y) == (El {
            c0: El::num(x.c0).plus(El::num(y.c0)).c0,
            c1: El::num(x.c1).plus(El::num(y.c1)).c0,
        }),
        x.minus(y) == (El {
            c0: El::num(x.c0).minus(El::num(y.c0)).c0,
            c1: El::num(x.c1).minus(El::num(y.c1)).c0,
        }),
        x.opp() == (El { c0: El::num(x.c0).opp().c0, c1: El::num(x.c1).opp().c0 }),
        x.times(y) == (El {
            c0: El::num(x.c0).times(El::num(y.c0)).minus(El::num(x.c1).times(El::num(y.c1))).c0,
            c1: El::num(x.c0).times(El::num(y.c1)).plus(El::num(x.c1).times(El::num(y.c0))).c0,
        }),
{
    lemma_ops(x, y, 0);
    lemma_num_ops(x.c0, y.c0);
    lemma_num_ops(x.c1, y.c1);
    lemma_num_ops(x.c0, y.c1);
    lemma_num_ops(x.c1, y.c0);
    lemma_num_ops(x.c0 * y.c0, x.c1 * y.c1);
    lemma_num_ops(x.c0 * y.c1, x.c1 * y.c0);
}

/// `(x − y) + y = x`.
pub proof fn lemma_minus_plus(x: El, y: El)
    requires
        x.reduced(),
    ensures
        x.minus(y).plus(y) == x,
        x.plus(y).minus(y) == x,
{
    reveal(El::plus);
    reveal(El::minus);
    lemma_red_id(x);
    nums::lemma_mod_ops(x.c0 - y.c0, y.c0, p());
    nums::lemma_mod_ops(x.c1 - y.c1, y.c1, p());
    lemma_sub_mod_noop_left(x.c0 + y.c0, y.c0, p());
    lemma_sub_mod_noop_left(x.c1 + y.c1, y.c1, p());
}

proof fn lemma_sub_mod_noop_left(x: int, y: int, m: int)
    requires
        m > 0,
    ensures
        (x % m - y) % m == (x - y) % m,
{
    nums::lemma_mod_ops(x, y, m);
    nums::lemma_mod_ops(x % m, y, m);
}

/// Equal sums with one summand give equal others.
pub proof fn lemma_plus_cancel(x: El, y: El, z: El)
    requires
        x.reduced(),
        y.reduced(),
        x.plus(z) == y.plus(z),
    ensures
        x == y,
{
    lemma_minus_plus(x, z);
    lemma_minus_plus(y, z);
}

/// Swaps the inner terms of a sum of two sums.
pub proof fn lemma_plus_swap(a: El, b: El, c: El, d: El)
    ensures
        a.plus(b).plus(c.plus(d)) == a.plus(c).plus(b.plus(d)),
{
    lemma_plus_assoc(a, b, c.plus(d));
    lemma_plus_assoc(b, c, d);
    lemma_plus_comm(b, c);
    lemma_plus_assoc(c, b, d);
    lemma_plus_assoc(a, c, b.plus(d));
}

/// `x·(−y) = −(x·y)`.
pub proof fn lemma_times_opp(x: El, y: El)
    ensures
        x.times(y.opp()) == x.times(y).opp(),
        y.opp().times(x) == x.times(y).opp(),
{
    reveal(El::times);
    reveal(El::opp);
    let n = El { c0: -y.c0, c1: -y.c1 };
    lemma_red_right(x, n);
    assert(x.gauss(n).c0 == -x.gauss(y).c0) by {
        lemma_mul_unary_negation(x.c0, y.c0);
        lemma_mul_unary_negation(x.c1, y.c1);
    }
    assert(x.gauss(n).c1 == -x.gauss(y).c1) by {
        lemma_mul_unary_negation(x.c0, y.c1);
        lemma_mul_unary_negation(x.c1, y.c0);
    }
    nums::lemma_mod_ops(x.gauss(y).c0, 0, p());
    nums::lemma_mod_ops(x.gauss(y).c1, 0, p());
    lemma_times_comm(x, y.opp());
}

/// One step of a telescoping chain: the offset `b` carried so far cancels.
pub proof fn lemma_telescope(t: El, b: El, x: El, d: El)
    ensures
        t.plus(b).times(x).plus(b.opp().times(x).plus(d)) == t.times(x).plus(d),
{
    lemma_times_comm(t.plus(b), x);
    lemma_times_plus(x, t, b);
    lemma_times_comm(x, t);
    lemma_times_opp(x, b);
    let (tx, xb) = (t.times(x), x.times(b));
    lemma_plus_assoc(tx.plus(xb), xb.opp(), d);
    lemma_plus_assoc(tx, xb, xb.opp());
    lemma_reduced(x, b);
    lemma_plus_zero(xb);
    lemma_reduced(t, x);
    lemma_plus_zero(tx);
}

/// `x·(y − z) = x·y − x·z`.
pub proof fn lemma_times_minus(x: El, y: El, z: El)
    ensures
        x.times(y.minus(z)) == x.times(y).minus(x.times(z)),
{
    lemma_minus_opp(y, z);
    lemma_times_plus(x, y, z.opp());
    lemma_times_opp(x, z);
    lemma_minus_opp(x.times(y), x.times(z));
}

/// `−x = 0 − x`.
pub proof fn lemma_zero_minus(x: El)
    ensures
        x.opp() == El::num(0).minus(x),
{
    reveal(El::minus);
    reveal(El::opp);
}

/// `−(−x) = x`.
pub proof fn lemma_opp_opp(x: El)
    requires
        x.reduced(),
    ensures
        x.opp().opp() == x,
{
    reveal(El::opp);
    nums::lemma_mod_ops(-x.c0, 0, p());
    nums::lemma_mod_ops(-x.c1, 0, p());
    lemma_red_id(x);
}

/// Sums and differences of opposites are the opposites.
pub proof fn lemma_opp_sums(x: El, y: El)
    ensures
        x.opp().plus(y.opp()) == x.plus(y).opp(),
        x.opp().minus(y.opp()) == x.minus(y).opp(),
{
    reveal(El::plus);
    reveal(El::minus);
    reveal(El::opp);
    nums::lemma_mod_ops(-x.c0, -y.c0, p());
    nums::lemma_mod_ops(-x.c1, -y.c1, p());
    nums::lemma_mod_ops(x.c0 + y.c0, 0, p());
    nums::lemma_mod_ops(x.c1 + y.c1, 0, p());
    nums::lemma_mod_ops(x.c0 - y.c0, 0, p());
    nums::lemma_mod_ops(x.c1 - y.c1, 0, p());
}

/// `(x − y)·(x + y) = x² − y²`.
pub proof fn lemma_difference_of_squares(x: El, y: El)
    ensures
        x.minus(y).times(x.plus(y)) == x.times(x).minus(y.times(y)),
{
    let (xx, xy, yy) = (x.times(x), x.times(y), y.times(y));
    let d = x.minus(y);
    lemma_times_plus(d, x, y);
    lemma_times_comm(d, x);
    lemma_times_comm(d, y);
    lemma_times_minus(x, x, y);
    lemma_times_minus(y, x, y);
    lemma_times_comm(y, x);
    // (xx − xy) + (xy − yy)
    lemma_minus_opp(xx, xy);
    lemma_minus_opp(xy, yy);
    lemma_minus_opp(xx, yy);
    lemma_plus_assoc(xx, xy.opp(), xy.plus(yy.opp()));
    lemma_plus_assoc(xy.opp(), xy, yy.opp());
    lemma_plus_comm(xy.opp(), xy);
    lemma_reduced(x, y);
    lemma_reduced(y, y);
    lemma_reduced(yy, yy);
    lemma_plus_zero(xy);
    lemma_plus_zero(yy.opp());
}

/// A sum is zero exactly for opposite elements.
pub proof fn lemma_opposite(x: El, y: El)
    requires
        x.reduced(),
        y.reduced(),
    ensures
        (x.plus(y) == El::num(0)) == (x == y.opp()),
{
    lemma_plus_zero(y);
    lemma_plus_comm(y, y.opp());
    lemma_reduced(y, y);
    if x.plus(y) == El::num(0) {
        lemma_plus_cancel(x, y.opp(), y);
    }
}

/// The arithmetic of `F_{p^2} = F_p[η]` with `η² = −1`, by components modulo `p`.
pub proof fn law_arithmetic_by_components(x: El, y: El)
    ensures
        x.plus(y).c0 == (x.c0 + y.c0) % p() && x.plus(y).c1 == (x.c1 + y.c1) % p(),
        x.minus(y).c0 == (x.c0 - y.c0) % p() && x.minus(y).c1 == (x.c1 - y.c1) % p(),
        x.opp().c0 == (-x.c0) % p() && x.opp().c1 == (-x.c1) % p(),
        x.times(y).c0 == (x.c0 * y.c0 - x.c1 * y.c1) % p(),
        x.times(y).c1 == (x.c0 * y.c1 + x.c1 * y.c0) % p(),
{
    lemma_ops(x, y, 0);
}

} // verus!
