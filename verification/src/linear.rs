//! Equality of sums and of products of elements, up to order and grouping.
//!
//! A [`Sum`] is an expression in `+` and `−` over numbered elements; two sums
//! that hold each element equally often have the same value ([`lemma_sums`]).
//! A [`Prod`] is an expression in `·`, and likewise ([`lemma_prods`]).
use crate::nums;
use crate::ring;
use crate::ring::El;
use vstd::arithmetic::mul::*;
use vstd::prelude::*;

verus! {

/// A sum of numbered elements.
pub enum Sum {
    E(int),
    Plus(Box<Sum>, Box<Sum>),
    Minus(Box<Sum>, Box<Sum>),
}

/// The sum of one element.
pub open spec fn e(i: int) -> Sum {
    Sum::E(i)
}

impl Sum {
    pub open spec fn a(self, o: Sum) -> Sum {
        Sum::Plus(Box::new(self), Box::new(o))
    }

    pub open spec fn s(self, o: Sum) -> Sum {
        Sum::Minus(Box::new(self), Box::new(o))
    }

    /// The value, for the given elements.
    pub open spec fn val(self, env: Seq<El>) -> El
        decreases self,
    {
        match self {
            Sum::E(i) => env[i],
            Sum::Plus(l, r) => l.val(env).plus(r.val(env)),
            Sum::Minus(l, r) => l.val(env).minus(r.val(env)),
        }
    }

    /// How often element `i` occurs, with sign.
    pub open spec fn count(self, i: int) -> int
        decreases self,
    {
        match self {
            Sum::E(j) => if i == j {
                1
            } else {
                0
            },
            Sum::Plus(l, r) => l.count(i) + r.count(i),
            Sum::Minus(l, r) => l.count(i) - r.count(i),
        }
    }

    /// Whether only the first `n` elements occur.
    pub open spec fn within(self, n: int) -> bool
        decreases self,
    {
        match self {
            Sum::E(j) => 0 <= j < n,
            Sum::Plus(l, r) => l.within(n) && r.within(n),
            Sum::Minus(l, r) => l.within(n) && r.within(n),
        }
    }

    /// The counted elements summed before any reduction, over the first `n`.
    spec fn dot(self, env: Seq<El>, n: int) -> (int, int)
        decreases n,
    {
        if n <= 0 {
            (0, 0)
        } else {
            let (x, y) = self.dot(env, n - 1);
            (x + self.count(n - 1) * env[n - 1].c0, y + self.count(n - 1) * env[n - 1].c1)
        }
    }
}

/// Whether two sums hold each of the first `n` elements equally often.
pub open spec fn same_counts(l: Sum, r: Sum, n: int) -> bool
    decreases n,
{
    n <= 0 || (l.count(n - 1) == r.count(n - 1) && same_counts(l, r, n - 1))
}

proof fn lemma_dot_single(i: int, env: Seq<El>, n: int)
    requires
        0 <= i,
    ensures
        Sum::E(i).dot(env, n) == (if i < n {
            (env[i].c0, env[i].c1)
        } else {
            (0, 0)
        }),
    decreases n,
{
    if n > 0 {
        lemma_dot_single(i, env, n - 1);
    }
}

proof fn lemma_dot_pair(s: Sum, l: Sum, r: Sum, sign: int, env: Seq<El>, n: int)
    requires
        sign == 1 || sign == -1,
        forall|i: int| #[trigger] s.count(i) == l.count(i) + sign * r.count(i),
    ensures
        s.dot(env, n).0 == l.dot(env, n).0 + sign * r.dot(env, n).0,
        s.dot(env, n).1 == l.dot(env, n).1 + sign * r.dot(env, n).1,
    decreases n,
{
    if n > 0 {
        lemma_dot_pair(s, l, r, sign, env, n - 1);
        let (a, b, el) = (l.count(n - 1), r.count(n - 1), env[n - 1]);
        assert(s.count(n - 1) == a + sign * b);
        assert((a + sign * b) * el.c0 == a * el.c0 + sign * (b * el.c0)) by (nonlinear_arith)
            requires
                sign == 1 || sign == -1,
        ;
        assert((a + sign * b) * el.c1 == a * el.c1 + sign * (b * el.c1)) by (nonlinear_arith)
            requires
                sign == 1 || sign == -1,
        ;
    }
}

/// A sum is its counted elements.
proof fn lemma_val(s: Sum, env: Seq<El>)
    requires
        s.within(env.len() as int),
        forall|i: int| 0 <= i < env.len() ==> (#[trigger] env[i]).reduced(),
    ensures
        s.val(env) == (El {
            c0: s.dot(env, env.len() as int).0,
            c1: s.dot(env, env.len() as int).1,
        }).red(),
    decreases s,
{
    let n = env.len() as int;
    let m = ring::p();
    match s {
        Sum::E(i) => {
            lemma_dot_single(i, env, n);
            ring::lemma_red_id(env[i]);
        },
        Sum::Plus(l, r) => {
            lemma_val(*l, env);
            lemma_val(*r, env);
            lemma_dot_pair(s, *l, *r, 1, env, n);
            ring::lemma_ops(l.val(env), r.val(env), 0);
            nums::lemma_mod_ops(l.dot(env, n).0, r.dot(env, n).0, m);
            nums::lemma_mod_ops(l.dot(env, n).1, r.dot(env, n).1, m);
        },
        Sum::Minus(l, r) => {
            lemma_val(*l, env);
            lemma_val(*r, env);
            lemma_dot_pair(s, *l, *r, -1, env, n);
            ring::lemma_ops(l.val(env), r.val(env), 0);
            nums::lemma_mod_ops(l.dot(env, n).0, r.dot(env, n).0, m);
            nums::lemma_mod_ops(l.dot(env, n).1, r.dot(env, n).1, m);
        },
    }
}

proof fn lemma_same_dot(l: Sum, r: Sum, env: Seq<El>, n: int)
    requires
        same_counts(l, r, n),
    ensures
        l.dot(env, n) == r.dot(env, n),
    decreases n,
{
    if n > 0 {
        lemma_same_dot(l, r, env, n - 1);
    }
}

/// Sums that hold each element equally often have the same value.
pub proof fn lemma_sums(l: Sum, r: Sum, env: Seq<El>)
    requires
        l.within(env.len() as int),
        r.within(env.len() as int),
        forall|i: int| 0 <= i < env.len() ==> (#[trigger] env[i]).reduced(),
        same_counts(l, r, env.len() as int),
    ensures
        l.val(env) == r.val(env),
{
    lemma_val(l, env);
    lemma_val(r, env);
    lemma_same_dot(l, r, env, env.len() as int);
}

/// The same where element `z`, which is zero, may occur as often as it likes.
pub proof fn lemma_sums_zero(l: Sum, r: Sum, env: Seq<El>, z: int)
    requires
        0 <= z < env.len(),
        env[z] == El::num(0),
        l.within(env.len() as int),
        r.within(env.len() as int),
        forall|i: int| 0 <= i < env.len() ==> (#[trigger] env[i]).reduced(),
        forall|i: int| 0 <= i < env.len() && i != z ==> l.count(i) == #[trigger] r.count(i),
    ensures
        l.val(env) == r.val(env),
{
    lemma_val(l, env);
    lemma_val(r, env);
    lemma_same_dot_zero(l, r, env, z, env.len() as int);
}

proof fn lemma_same_dot_zero(l: Sum, r: Sum, env: Seq<El>, z: int, n: int)
    requires
        0 <= z < env.len(),
        n <= env.len(),
        env[z] == El::num(0),
        forall|i: int| 0 <= i < env.len() && i != z ==> l.count(i) == #[trigger] r.count(i),
    ensures
        l.dot(env, n) == r.dot(env, n),
    decreases n,
{
    if n > 0 {
        lemma_same_dot_zero(l, r, env, z, n - 1);
        assert(n - 1 != z ==> l.count(n - 1) == r.count(n - 1));
        lemma_mul_by_zero_is_zero(l.count(n - 1));
        lemma_mul_by_zero_is_zero(r.count(n - 1));
    }
}

/// The elements of `env`, each times `x`.
pub open spec fn scaled(x: El, env: Seq<El>) -> Seq<El> {
    Seq::new(env.len(), |i: int| x.times(env[i]))
}

/// A factor goes into a sum.
pub proof fn lemma_distribute(x: El, s: Sum, env: Seq<El>)
    requires
        s.within(env.len() as int),
    ensures
        x.times(s.val(env)) == s.val(scaled(x, env)),
    decreases s,
{
    match s {
        Sum::E(i) => {},
        Sum::Plus(l, r) => {
            lemma_distribute(x, *l, env);
            lemma_distribute(x, *r, env);
            ring::lemma_times_plus(x, l.val(env), r.val(env));
        },
        Sum::Minus(l, r) => {
            lemma_distribute(x, *l, env);
            lemma_distribute(x, *r, env);
            ring::lemma_times_minus(x, l.val(env), r.val(env));
        },
    }
}

/// A product of numbered elements.
pub enum Prod {
    F(int),
    Times(Box<Prod>, Box<Prod>),
}

/// The product of one element.
pub open spec fn f(i: int) -> Prod {
    Prod::F(i)
}

impl Prod {
    pub open spec fn m(self, o: Prod) -> Prod {
        Prod::Times(Box::new(self), Box::new(o))
    }

    /// The value, for the given elements.
    pub open spec fn val(self, env: Seq<El>) -> El
        decreases self,
    {
        match self {
            Prod::F(i) => env[i],
            Prod::Times(l, r) => l.val(env).times(r.val(env)),
        }
    }

    /// How often element `i` occurs.
    pub open spec fn count(self, i: int) -> nat
        decreases self,
    {
        match self {
            Prod::F(j) => if i == j {
                1
            } else {
                0
            },
            Prod::Times(l, r) => l.count(i) + r.count(i),
        }
    }

    /// Whether only the first `n` elements occur.
    pub open spec fn within(self, n: int) -> bool
        decreases self,
    {
        match self {
            Prod::F(j) => 0 <= j < n,
            Prod::Times(l, r) => l.within(n) && r.within(n),
        }
    }

    /// The product of the powers of the first `n` elements.
    spec fn powers(self, env: Seq<El>, n: int) -> El
        decreases n,
    {
        if n <= 0 {
            El::num(1)
        } else {
            self.powers(env, n - 1).times(env[n - 1].power(self.count(n - 1)))
        }
    }
}

/// Whether two products hold each of the first `n` elements equally often.
pub open spec fn same_powers(l: Prod, r: Prod, n: int) -> bool
    decreases n,
{
    n <= 0 || (l.count(n - 1) == r.count(n - 1) && same_powers(l, r, n - 1))
}

proof fn lemma_powers_single(i: int, env: Seq<El>, n: int)
    requires
        0 <= i,
        i < n ==> env[i].reduced(),
    ensures
        Prod::F(i).powers(env, n) == (if i < n {
            env[i]
        } else {
            El::num(1)
        }),
    decreases n,
{
    reveal_with_fuel(El::power, 2);
    let one = El::num(1);
    assert(one.reduced());
    ring::lemma_times_one(one);
    if n > 0 {
        if i < n {
            ring::lemma_times_one(env[i]);
        }
        lemma_powers_single(i, env, n - 1);
    }
}

proof fn lemma_powers_pair(p: Prod, l: Prod, r: Prod, env: Seq<El>, n: int)
    requires
        forall|i: int| #[trigger] p.count(i) == l.count(i) + r.count(i),
    ensures
        p.powers(env, n) == l.powers(env, n).times(r.powers(env, n)),
    decreases n,
{
    if n > 0 {
        lemma_powers_pair(p, l, r, env, n - 1);
        let x = env[n - 1];
        ring::lemma_power_add(x, l.count(n - 1), r.count(n - 1));
        ring::lemma_times_swap(
            l.powers(env, n - 1),
            r.powers(env, n - 1),
            x.power(l.count(n - 1)),
            x.power(r.count(n - 1)),
        );
    } else {
        ring::lemma_times_one(El::num(1));
    }
}

proof fn lemma_prod_val(p: Prod, env: Seq<El>)
    requires
        p.within(env.len() as int),
        forall|i: int| 0 <= i < env.len() ==> (#[trigger] env[i]).reduced(),
    ensures
        p.val(env) == p.powers(env, env.len() as int),
    decreases p,
{
    match p {
        Prod::F(i) => {
            assert(env[i].reduced());
            lemma_powers_single(i, env, env.len() as int);
        },
        Prod::Times(l, r) => {
            lemma_prod_val(*l, env);
            lemma_prod_val(*r, env);
            lemma_powers_pair(p, *l, *r, env, env.len() as int);
        },
    }
}

proof fn lemma_same_product(l: Prod, r: Prod, env: Seq<El>, n: int)
    requires
        same_powers(l, r, n),
    ensures
        l.powers(env, n) == r.powers(env, n),
    decreases n,
{
    if n > 0 {
        lemma_same_product(l, r, env, n - 1);
    }
}

/// Products that hold each element equally often have the same value.
pub proof fn lemma_prods(l: Prod, r: Prod, env: Seq<El>)
    requires
        l.within(env.len() as int),
        r.within(env.len() as int),
        forall|i: int| 0 <= i < env.len() ==> (#[trigger] env[i]).reduced(),
        same_powers(l, r, env.len() as int),
    ensures
        l.val(env) == r.val(env),
{
    lemma_prod_val(l, env);
    lemma_prod_val(r, env);
    lemma_same_product(l, r, env, env.len() as int);
}

} // verus!
