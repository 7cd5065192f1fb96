//! The information-theoretic partial garbling of a polynomial in two
//! coordinates `u, v` (a sum of monomials). Each monomial is a chain of affine
//! labels, one per variable occurrence, telescoping to the monomial's value
//! plus an offset; the offsets across monomials sum to the constant term.
//!
//! Label positions are a public [`Layout`], determined by the polynomial's
//! [`Shape`] alone. Only the label coefficients are private.
use crate::draws;
use crate::elems::Field;
use crate::ring;
use crate::ring::El;
use ark_std::rand::rngs::StdRng;
use vstd::prelude::*;

verus! {

/// One of the two coordinates of a point.
#[derive(Clone, Copy, Debug, PartialEq, Eq, Structural)]
pub enum Var {
    /// The `u` coordinate.
    U,
    /// The `v` coordinate.
    V,
}

/// The monomial `u^du · v^dv`, of degree at least one.
#[derive(Clone, Copy, Debug, PartialEq, Eq, Structural)]
pub struct Monomial {
    /// Degree in `u`.
    pub du: u8,
    /// Degree in `v`.
    pub dv: u8,
}

impl Monomial {
    /// `u^du · v^dv`.
    pub fn new(du: u8, dv: u8) -> (res: Self)
        ensures
            res == (Monomial { du, dv }),
    {
        Self { du, dv }
    }

    /// Total degree, as a number.
    pub open spec fn deg(self) -> nat {
        (self.du + self.dv) as nat
    }

    /// Total degree, which is the number of labels the monomial costs.
    pub fn degree(&self) -> (res: usize)
        ensures
            res == self.deg(),
    {
        self.du as usize + self.dv as usize
    }

    /// The variables in chain order: the `u` occurrences, then the `v` occurrences.
    pub open spec fn var_seq(self) -> Seq<Var> {
        Seq::new(
            self.deg(),
            |k: int|
                if k < self.du {
                    Var::U
                } else {
                    Var::V
                },
        )
    }

    /// The variables in chain order: the `u` occurrences, then the `v` occurrences.
    pub fn vars(&self) -> (res: Vec<Var>)
        ensures
            res@ == self.var_seq(),
            res@.len() == self.du + self.dv,
            forall|k: int| 0 <= k < self.du ==> #[trigger] res@[k] == Var::U,
            forall|k: int| self.du <= k < self.du + self.dv ==> #[trigger] res@[k] == Var::V,
    {
        let mut res: Vec<Var> = Vec::new();
        for i in 0..self.du
            invariant
                res@ =~= Seq::new(i as nat, |k: int| Var::U),
        {
            res.push(Var::U);
        }
        for j in 0..self.dv
            invariant
                res@.len() == self.du + j,
                forall|k: int|
                    0 <= k < res@.len() ==> res@[k] == (if k < self.du {
                        Var::U
                    } else {
                        Var::V
                    }),
        {
            res.push(Var::V);
        }
        assert(res@ =~= self.var_seq());
        res
    }
}

/// Labels on `u` of the first `n` monomials.
pub open spec fn sum_u(monomials: Seq<Monomial>, n: int) -> nat
    decreases n,
{
    if n <= 0 {
        0
    } else {
        sum_u(monomials, n - 1) + monomials[n - 1].du as nat
    }
}

/// Labels on `v` of the first `n` monomials.
pub open spec fn sum_v(monomials: Seq<Monomial>, n: int) -> nat
    decreases n,
{
    if n <= 0 {
        0
    } else {
        sum_v(monomials, n - 1) + monomials[n - 1].dv as nat
    }
}

/// The sums do not decrease.
pub proof fn lemma_sums_grow(monomials: Seq<Monomial>, m: int, n: int)
    requires
        m <= n,
    ensures
        sum_u(monomials, m) <= sum_u(monomials, n),
        sum_v(monomials, m) <= sum_v(monomials, n),
    decreases n - m,
{
    if m < n {
        lemma_sums_grow(monomials, m, n - 1);
    }
}

/// The public shape of a polynomial: its non-constant monomials in a fixed order.
/// A constant term is always present and needs no entry.
#[derive(Clone, Debug, PartialEq, Eq)]
pub struct Shape {
    /// The monomials, in the order their chains are laid out.
    pub monomials: Vec<Monomial>,
}

impl View for Shape {
    type V = Seq<Monomial>;

    open spec fn view(&self) -> Seq<Monomial> {
        self.monomials@
    }
}

impl Shape {
    /// Total number of labels on `u` and on `v`.
    pub fn occurrences(&self) -> (res: (usize, usize))
        requires
            sum_u(self@, self@.len() as int) <= usize::MAX,
            sum_v(self@, self@.len() as int) <= usize::MAX,
        ensures
            res.0 == sum_u(self@, self@.len() as int),
            res.1 == sum_v(self@, self@.len() as int),
    {
        let mut u: usize = 0;
        let mut v: usize = 0;
        for i in 0..self.monomials.len()
            invariant
                u == sum_u(self@, i as int),
                v == sum_v(self@, i as int),
                sum_u(self@, self@.len() as int) <= usize::MAX,
                sum_v(self@, self@.len() as int) <= usize::MAX,
        {
            proof {
                lemma_sums_grow(self@, i + 1, self@.len() as int);
            }
            u = u + self.monomials[i].du as usize;
            v = v + self.monomials[i].dv as usize;
        }
        (u, v)
    }
}

// ------------------------------------------------------------- polynomials

/// A polynomial matching a [`Shape`]: one coefficient per monomial, and a constant.
#[derive(Clone, Debug)]
pub struct Poly<F> {
    /// Coefficients, in the shape's order.
    pub coeffs: Vec<F>,
    /// The constant term.
    pub constant: F,
}

/// `c·u^du·v^dv`.
pub open spec fn term(c: El, m: Monomial, u: El, v: El) -> El {
    c.times(u.power(m.du as nat)).times(v.power(m.dv as nat))
}

/// The constant and the first `n` terms of a polynomial, summed.
pub open spec fn poly_sum<F: Field>(
    poly: Poly<F>,
    monomials: Seq<Monomial>,
    u: El,
    v: El,
    n: int,
) -> El
    decreases n,
{
    if n <= 0 {
        poly.constant@
    } else {
        poly_sum(poly, monomials, u, v, n - 1).plus(
            term(poly.coeffs@[n - 1]@, monomials[n - 1], u, v),
        )
    }
}

/// The number of terms: a coefficient without a monomial counts for nothing,
/// nor does a monomial without a coefficient.
pub open spec fn num_terms<F: Field>(poly: Poly<F>, monomials: Seq<Monomial>) -> int {
    if poly.coeffs@.len() < monomials.len() {
        poly.coeffs@.len() as int
    } else {
        monomials.len() as int
    }
}

/// The value of a polynomial.
pub open spec fn poly_value<F: Field>(
    poly: Poly<F>,
    monomials: Seq<Monomial>,
    u: El,
    v: El,
) -> El {
    poly_sum(poly, monomials, u, v, num_terms(poly, monomials))
}

/// `x^n`.
pub fn field_pow<F: Field>(x: F, n: u8) -> (res: F)
    ensures
        res@ == x@.power(n as nat),
{
    let mut res = F::from_u64(1);
    for i in 0..n
        invariant
            res@ == x@.power(i as nat),
    {
        res = res.mul(x);
    }
    res
}

impl<F: Field> Poly<F> {
    /// Evaluate in the clear (for tests and for the correctness argument).
    pub fn eval_clear(&self, shape: &Shape, u: F, v: F) -> (res: F)
        ensures
            res@ == poly_value(*self, shape@, u@, v@),
    {
        let mut acc = self.constant;
        let n: usize = if self.coeffs.len() < shape.monomials.len() {
            self.coeffs.len()
        } else {
            shape.monomials.len()
        };
        for i in 0..n
            invariant
                n <= self.coeffs@.len(),
                n <= shape@.len(),
                acc@ == poly_sum(*self, shape@, u@, v@, i as int),
        {
            let m = shape.monomials[i];
            let t = self.coeffs[i].mul(field_pow(u, m.du)).mul(field_pow(v, m.dv));
            acc = acc.add(t);
        }
        acc
    }
}

// ------------------------------------------------------------------ labels

/// An affine label `a·x + b` on one coordinate: one entry of the affine encoding.
#[derive(Clone, Copy, Debug, PartialEq, Eq)]
pub struct Affine<F> {
    /// The coefficient.
    pub a: F,
    /// The offset.
    pub b: F,
}

impl<F: Field> Affine<F> {
    /// The label's value on coordinate value `x`.
    pub open spec fn value(self, x: El) -> El {
        self.a@.times(x).plus(self.b@)
    }

    /// The label's value on coordinate value `x`.
    pub fn at(&self, x: F) -> (res: F)
        ensures
            res@ == self.value(x@),
            res@ == self.a@.times(x@).plus(self.b@),
    {
        self.a.mul(x).add(self.b)
    }
}

/// Encoding information for the two coordinates of one point: the labels on `u`
/// and on `v`, in layout order. This is the garbler's `(a, b)` data.
#[derive(Clone, Debug)]
pub struct CoordLabels<F> {
    /// Labels on `u`.
    pub u: Vec<Affine<F>>,
    /// Labels on `v`.
    pub v: Vec<Affine<F>>,
}

impl<F> Default for CoordLabels<F> {
    fn default() -> (res: Self)
        ensures
            res.u@.len() == 0,
            res.v@.len() == 0,
    {
        CoordLabels { u: Vec::new(), v: Vec::new() }
    }
}

/// The encoding of one point's coordinates: the label values, in layout order.
#[derive(Clone, Debug)]
pub struct CoordValues<F> {
    /// Values of the labels on `u`.
    pub u: Vec<F>,
    /// Values of the labels on `v`.
    pub v: Vec<F>,
}

impl<F> Default for CoordValues<F> {
    fn default() -> (res: Self)
        ensures
            res.u@.len() == 0,
            res.v@.len() == 0,
    {
        CoordValues { u: Vec::new(), v: Vec::new() }
    }
}

/// The position of a label: a coordinate, and an index into its label vector.
pub type Slot = (Var, usize);

/// Whether a position holds one of `nu` labels on `u` or `nv` labels on `v`.
pub open spec fn in_range(slot: Slot, nu: nat, nv: nat) -> bool {
    match slot.0 {
        Var::U => slot.1 < nu,
        Var::V => slot.1 < nv,
    }
}

impl<F: Field> CoordLabels<F> {
    /// The label at a position.
    pub open spec fn label(self, slot: Slot) -> Affine<F> {
        match slot.0 {
            Var::U => self.u@[slot.1 as int],
            Var::V => self.v@[slot.1 as int],
        }
    }

    /// Whether `self` holds the labels of `old`, each at its position, and
    /// perhaps more.
    pub open spec fn extends(self, old: Self) -> bool {
        &&& old.u@.len() <= self.u@.len()
        &&& old.v@.len() <= self.v@.len()
        &&& forall|i: int| 0 <= i < old.u@.len() ==> #[trigger] self.u@[i] == old.u@[i]
        &&& forall|i: int| 0 <= i < old.v@.len() ==> #[trigger] self.v@[i] == old.v@[i]
    }

    /// Whether `vals` are the labels' values on the coordinates `(u, v)`.
    pub open spec fn encodes(self, vals: CoordValues<F>, u: El, v: El) -> bool {
        &&& vals.u@.len() == self.u@.len()
        &&& vals.v@.len() == self.v@.len()
        &&& forall|i: int| 0 <= i < vals.u@.len() ==> #[trigger] vals.u@[i]@ == self.u@[i].value(u)
        &&& forall|i: int| 0 <= i < vals.v@.len() ==> #[trigger] vals.v@[i]@ == self.v@[i].value(v)
    }
}

impl<F: Field> CoordValues<F> {
    /// The value at a position.
    pub open spec fn value_at(self, slot: Slot) -> El {
        match slot.0 {
            Var::U => self.u@[slot.1 as int]@,
            Var::V => self.v@[slot.1 as int]@,
        }
    }

    /// The value of label `i` on a coordinate.
    pub fn get(&self, var: Var, i: usize) -> (res: F)
        requires
            in_range((var, i), self.u@.len(), self.v@.len()),
        ensures
            res@ == self.value_at((var, i)),
    {
        match var {
            Var::U => self.u[i],
            Var::V => self.v[i],
        }
    }
}

// ------------------------------------------------------------------ layout

/// Where a polynomial's labels sit: one chain per monomial, each a list of
/// `(coordinate, index into that coordinate's label vector)`.
#[derive(Clone, Debug, PartialEq, Eq)]
pub struct Layout {
    /// One chain per monomial, in the shape's order.
    pub chains: Vec<Vec<(Var, usize)>>,
}

/// A cursor over the label positions already allocated on each coordinate.
#[derive(Clone, Copy, Debug, PartialEq, Eq, Structural)]
pub struct Cursor {
    /// Labels allocated on `u` so far.
    pub u: usize,
    /// Labels allocated on `v` so far.
    pub v: usize,
}

impl Default for Cursor {
    fn default() -> (res: Self)
        ensures
            res == (Cursor { u: 0, v: 0 }),
    {
        Cursor { u: 0, v: 0 }
    }
}

impl Cursor {
    /// The next free position on a coordinate, which is then taken.
    pub fn next(&mut self, var: Var) -> (res: usize)
        requires
            var == Var::U ==> old(self).u < usize::MAX,
            var == Var::V ==> old(self).v < usize::MAX,
        ensures
            match var {
                Var::U => res == old(self).u && *final(self) == (Cursor {
                    u: (old(self).u + 1) as usize,
                    v: old(self).v,
                }),
                Var::V => res == old(self).v && *final(self) == (Cursor {
                    u: old(self).u,
                    v: (old(self).v + 1) as usize,
                }),
            },
    {
        match var {
            Var::U => {
                let i: usize = self.u;
                self.u = i + 1;
                i
            },
            Var::V => {
                let i: usize = self.v;
                self.v = i + 1;
                i
            },
        }
    }
}

/// The chain of a monomial laid out after `nu` labels on `u` and `nv` on `v`:
/// the `u` occurrences in turn, then the `v` occurrences.
pub open spec fn is_chain(chain: Seq<Slot>, m: Monomial, nu: nat, nv: nat) -> bool {
    &&& chain.len() == m.deg()
    &&& forall|k: int|
        0 <= k < m.du ==> (#[trigger] chain[k]).0 == Var::U && chain[k].1 == nu + k
    &&& forall|k: int|
        m.du <= k < m.deg() ==> (#[trigger] chain[k]).0 == Var::V && chain[k].1 == nv + k - m.du
}

/// How often a variable occurs in the first `n` positions of a chain.
#[verifier::opaque]
pub open spec fn occurs(chain: Seq<Slot>, var: Var, n: int) -> nat
    decreases n,
{
    if n <= 0 {
        0
    } else {
        occurs(chain, var, n - 1) + (if chain[n - 1].0 == var {
            1nat
        } else {
            0
        })
    }
}

/// One position more.
proof fn lemma_occurs(chain: Seq<Slot>, n: int)
    requires
        0 <= n,
    ensures
        occurs(chain, Var::U, 0) == 0 && occurs(chain, Var::V, 0) == 0,
        occurs(chain, Var::U, n + 1) == occurs(chain, Var::U, n) + (if chain[n].0 == Var::U {
            1int
        } else {
            0
        }),
        occurs(chain, Var::V, n + 1) == occurs(chain, Var::V, n) + (if chain[n].0 == Var::V {
            1int
        } else {
            0
        }),
{
    reveal(occurs);
}

/// One chain more.
proof fn lemma_taken(lay: Layout, n: int)
    requires
        0 <= n,
    ensures
        lay.taken(Var::U, 0) == 0 && lay.taken(Var::V, 0) == 0,
        lay.taken(Var::U, n + 1) == lay.taken(Var::U, n) + occurs(
            lay.chains@[n]@,
            Var::U,
            lay.chains@[n]@.len() as int,
        ),
        lay.taken(Var::V, n + 1) == lay.taken(Var::V, n) + occurs(
            lay.chains@[n]@,
            Var::V,
            lay.chains@[n]@.len() as int,
        ),
{
    reveal(Layout::taken);
}

/// Whether each position of a chain is the next one on its coordinate, after `nu`
/// labels on `u` and `nv` on `v`.
pub open spec fn chain_in_order(chain: Seq<Slot>, nu: nat, nv: nat) -> bool {
    forall|k: int|
        0 <= k < chain.len() ==> (#[trigger] chain[k]).1 == (match chain[k].0 {
            Var::U => nu + occurs(chain, Var::U, k),
            Var::V => nv + occurs(chain, Var::V, k),
        })
}

/// The variables of a laid out chain.
proof fn lemma_chain_occurs(chain: Seq<Slot>, m: Monomial, nu: nat, nv: nat, n: int)
    requires
        is_chain(chain, m, nu, nv),
        0 <= n <= chain.len(),
    ensures
        occurs(chain, Var::U, n) == (if n < m.du {
            n
        } else {
            m.du as int
        }),
        occurs(chain, Var::V, n) == (if n < m.du {
            0
        } else {
            n - m.du
        }),
    decreases n,
{
    lemma_occurs(chain, 0);
    if n > 0 {
        lemma_chain_occurs(chain, m, nu, nv, n - 1);
        lemma_occurs(chain, n - 1);
        if n - 1 < m.du {
            assert(chain[n - 1].0 == Var::U);
        } else {
            assert(chain[n - 1].0 == Var::V);
        }
    }
}

/// A layout takes as many labels as its monomials have variables.
proof fn lemma_layout_taken(lay: Layout, monomials: Seq<Monomial>, nu: nat, nv: nat, n: int)
    requires
        lay.is_layout(monomials, nu, nv),
        0 <= n <= monomials.len(),
    ensures
        lay.taken(Var::U, n) == sum_u(monomials, n),
        lay.taken(Var::V, n) == sum_v(monomials, n),
    decreases n,
{
    lemma_taken(lay, 0);
    if n > 0 {
        lemma_layout_taken(lay, monomials, nu, nv, n - 1);
        lemma_taken(lay, n - 1);
        let chain = lay.chains@[n - 1]@;
        lemma_chain_occurs(
            chain,
            monomials[n - 1],
            nu + sum_u(monomials, n - 1),
            nv + sum_v(monomials, n - 1),
            chain.len() as int,
        );
    }
}

/// A layout is in order.
pub proof fn lemma_layout_in_order(lay: Layout, monomials: Seq<Monomial>, nu: nat, nv: nat)
    requires
        lay.is_layout(monomials, nu, nv),
    ensures
        lay.in_order(monomials, nu, nv),
        lay.taken(Var::U, monomials.len() as int) == sum_u(monomials, monomials.len() as int),
        lay.taken(Var::V, monomials.len() as int) == sum_v(monomials, monomials.len() as int),
{
    lemma_layout_taken(lay, monomials, nu, nv, monomials.len() as int);
    assert forall|j: int|
        #![trigger lay.chains@[j]]
        0 <= j < monomials.len() implies lay.chains@[j]@.len() == monomials[j].deg()
        && chain_in_order(
        lay.chains@[j]@,
        nu + lay.taken(Var::U, j),
        nv + lay.taken(Var::V, j),
    ) by {
        let (chain, m) = (lay.chains@[j]@, monomials[j]);
        let (cu, cv) = (nu + sum_u(monomials, j), nv + sum_v(monomials, j));
        lemma_layout_taken(lay, monomials, nu, nv, j);
        assert(is_chain(chain, m, cu, cv));
        assert forall|k: int| 0 <= k < chain.len() implies (#[trigger] chain[k]).1 == (match chain[k].0 {
            Var::U => cu + occurs(chain, Var::U, k),
            Var::V => cv + occurs(chain, Var::V, k),
        }) by {
            lemma_chain_occurs(chain, m, cu, cv, k);
            if k < m.du {
                assert(chain[k].0 == Var::U);
            } else {
                assert(chain[k].0 == Var::V);
            }
        }
    }
}

impl Layout {
    /// Whether this is the layout of the monomials after `nu` labels on `u` and
    /// `nv` on `v`: one chain after the other, none leaving a gap.
    pub open spec fn is_layout(self, monomials: Seq<Monomial>, nu: nat, nv: nat) -> bool {
        &&& self.chains@.len() == monomials.len()
        &&& forall|j: int|
            #![trigger self.chains@[j]]
            0 <= j < monomials.len() ==> is_chain(
                self.chains@[j]@,
                monomials[j],
                nu + sum_u(monomials, j),
                nv + sum_v(monomials, j),
            )
    }

    /// Labels on a coordinate in the first `n` chains.
    #[verifier::opaque]
    pub open spec fn taken(self, var: Var, n: int) -> nat
        decreases n,
    {
        if n <= 0 {
            0
        } else {
            self.taken(var, n - 1) + occurs(
                self.chains@[n - 1]@,
                var,
                self.chains@[n - 1]@.len() as int,
            )
        }
    }

    /// Whether there is one chain per monomial, as long as its degree, and appending
    /// label after label to `nu` labels on `u` and `nv` on `v` puts each at its
    /// position.
    pub open spec fn in_order(self, monomials: Seq<Monomial>, nu: nat, nv: nat) -> bool {
        &&& self.chains@.len() == monomials.len()
        &&& forall|j: int|
            #![trigger self.chains@[j]]
            0 <= j < monomials.len() ==> self.chains@[j]@.len() == monomials[j].deg()
                && chain_in_order(
                self.chains@[j]@,
                nu + self.taken(Var::U, j),
                nv + self.taken(Var::V, j),
            )
    }

    /// Whether no chain is empty and each position is one of `nu` on `u` or `nv`
    /// on `v`.
    pub open spec fn fits(self, nu: nat, nv: nat) -> bool {
        forall|j: int|
            #![trigger self.chains@[j]]
            0 <= j < self.chains@.len() ==> self.chains@[j]@.len() > 0 && forall|k: int|
                0 <= k < self.chains@[j]@.len() ==> in_range(#[trigger] self.chains@[j]@[k], nu, nv)
    }
}

/// Lay out the labels of a polynomial of the given shape after the cursor.
pub fn layout(shape: &Shape, cur: &mut Cursor) -> (res: Layout)
    requires
        old(cur).u + sum_u(shape@, shape@.len() as int) <= usize::MAX,
        old(cur).v + sum_v(shape@, shape@.len() as int) <= usize::MAX,
    ensures
        res.is_layout(shape@, old(cur).u as nat, old(cur).v as nat),
        final(cur).u == old(cur).u + sum_u(shape@, shape@.len() as int),
        final(cur).v == old(cur).v + sum_v(shape@, shape@.len() as int),
{
    let ghost start = *cur;
    let mut chains: Vec<Vec<(Var, usize)>> = Vec::new();
    for j in 0..shape.monomials.len()
        invariant
            chains@.len() == j,
            start.u + sum_u(shape@, shape@.len() as int) <= usize::MAX,
            start.v + sum_v(shape@, shape@.len() as int) <= usize::MAX,
            cur.u == start.u + sum_u(shape@, j as int),
            cur.v == start.v + sum_v(shape@, j as int),
            forall|i: int|
                #![trigger chains@[i]]
                0 <= i < j ==> is_chain(
                    chains@[i]@,
                    shape@[i],
                    start.u as nat + sum_u(shape@, i),
                    start.v as nat + sum_v(shape@, i),
                ),
    {
        let m = shape.monomials[j];
        let vars = m.vars();
        let mut chain: Vec<(Var, usize)> = Vec::new();
        proof {
            lemma_sums_grow(shape@, j + 1, shape@.len() as int);
        }
        for k in 0..vars.len()
            invariant
                vars@ == m.var_seq(),
                m == shape@[j as int],
                chain@.len() == k,
                k <= m.deg(),
                start.u + sum_u(shape@, j + 1) <= usize::MAX,
                start.v + sum_v(shape@, j + 1) <= usize::MAX,
                j < shape@.len(),
                cur.u == start.u + sum_u(shape@, j as int) + (if k < m.du {
                    k as int
                } else {
                    m.du as int
                }),
                cur.v == start.v + sum_v(shape@, j as int) + (if k < m.du {
                    0int
                } else {
                    k - m.du
                }),
                forall|i: int|
                    0 <= i < k && i < m.du ==> (#[trigger] chain@[i]).0 == Var::U && chain@[i].1
                        == start.u + sum_u(shape@, j as int) + i,
                forall|i: int|
                    m.du <= i < k ==> (#[trigger] chain@[i]).0 == Var::V && chain@[i].1 == start.v
                        + sum_v(shape@, j as int) + i - m.du,
        {
            let var = vars[k];
            let i = cur.next(var);
            chain.push((var, i));
        }
        chains.push(chain);
    }
    Layout { chains }
}

// ---------------------------------------------------------------- garbling

/// The sum of the first `n` elements.
pub open spec fn sum_of<F: Field>(s: Seq<F>, n: int) -> El
    decreases n,
{
    if n <= 0 {
        El::num(0)
    } else {
        sum_of(s, n - 1).plus(s[n - 1]@)
    }
}

/// The chain offset of monomial `j` out of `m`: the sampled one, or for the last
/// monomial what is missing from the constant.
pub open spec fn chain_offset<F: Field>(offsets: Seq<F>, constant: El, m: int, j: int) -> El {
    if j == m - 1 {
        constant.minus(sum_of(offsets, m - 1))
    } else {
        offsets[j]@
    }
}

/// Inner labels of a monomial: all but the last of its chain.
pub open spec fn inner_labels(m: Monomial) -> nat {
    if m.deg() == 0 {
        0
    } else {
        (m.deg() - 1) as nat
    }
}

/// Inner labels of the first `n` monomials.
pub open spec fn sum_inner(monomials: Seq<Monomial>, n: int) -> nat
    decreases n,
{
    if n <= 0 {
        0
    } else {
        sum_inner(monomials, n - 1) + inner_labels(monomials[n - 1])
    }
}

/// The offset of label `k` in a chain of `len` labels that ends at `last` and
/// whose inner offsets start at `rhos[from]`.
pub open spec fn label_b<F: Field>(k: int, len: int, last: El, rhos: Seq<F>, from: int) -> El {
    if k == len - 1 {
        last
    } else {
        rhos[from + k]@
    }
}

/// The coefficient of label `k`: the monomial's at the head, and else what
/// cancels the offset before it.
pub open spec fn label_a<F: Field>(
    k: int,
    len: int,
    c: El,
    last: El,
    rhos: Seq<F>,
    from: int,
) -> El {
    if k == 0 {
        c
    } else {
        label_b(k - 1, len, last, rhos, from).opp()
    }
}

/// Whether the labels of a chain are exactly the ones sampled for it.
pub open spec fn chain_is_garbled<F: Field>(
    ek: CoordLabels<F>,
    chain: Seq<Slot>,
    c: El,
    last: El,
    rhos: Seq<F>,
    from: int,
) -> bool {
    forall|k: int|
        0 <= k < chain.len() ==> {
            &&& in_range(#[trigger] chain[k], ek.u@.len(), ek.v@.len())
            &&& ek.label(chain[k]).a@ == label_a(k, chain.len() as int, c, last, rhos, from)
            &&& ek.label(chain[k]).b@ == label_b(k, chain.len() as int, last, rhos, from)
        }
}

/// Whether the labels of a chain telescope: the head carries the coefficient,
/// and each later label cancels the offset before it.
pub open spec fn chain_telescopes<F: Field>(ek: CoordLabels<F>, chain: Seq<Slot>, c: El) -> bool {
    forall|k: int|
        0 <= k < chain.len() ==> {
            &&& in_range(#[trigger] chain[k], ek.u@.len(), ek.v@.len())
            &&& ek.label(chain[k]).a@ == (if k == 0 {
                c
            } else {
                ek.label(chain[k - 1]).b@.opp()
            })
        }
}

/// The sum of the last offsets of the first `n` chains.
pub open spec fn sum_last<F: Field>(ek: CoordLabels<F>, lay: Layout, n: int) -> El
    decreases n,
{
    if n <= 0 {
        El::num(0)
    } else {
        sum_last(ek, lay, n - 1).plus(ek.label(lay.chains@[n - 1]@.last()).b@)
    }
}

/// Whether the labels at `lay` garble `poly`: each chain telescopes from its
/// coefficient, and the chains' last offsets share the constant.
pub open spec fn garbles<F: Field>(ek: CoordLabels<F>, lay: Layout, poly: Poly<F>) -> bool {
    &&& lay.chains@.len() == poly.coeffs@.len()
    &&& forall|j: int|
        #![trigger lay.chains@[j]]
        0 <= j < lay.chains@.len() ==> chain_telescopes(ek, lay.chains@[j]@, poly.coeffs@[j]@)
    &&& sum_last(ek, lay, lay.chains@.len() as int) == poly.constant@
}

/// Labels that are only added to keep garbling what they garbled.
pub proof fn lemma_extends_chain<F: Field>(
    old_ek: CoordLabels<F>,
    ek: CoordLabels<F>,
    chain: Seq<Slot>,
    c: El,
    last: El,
    rhos: Seq<F>,
    from: int,
)
    requires
        ek.extends(old_ek),
        chain_is_garbled(old_ek, chain, c, last, rhos, from),
    ensures
        chain_is_garbled(ek, chain, c, last, rhos, from),
{
    assert forall|k: int| 0 <= k < chain.len() implies {
        &&& in_range(#[trigger] chain[k], ek.u@.len(), ek.v@.len())
        &&& ek.label(chain[k]).a@ == label_a(k, chain.len() as int, c, last, rhos, from)
        &&& ek.label(chain[k]).b@ == label_b(k, chain.len() as int, last, rhos, from)
    } by {
        assert(in_range(chain[k], old_ek.u@.len(), old_ek.v@.len()));
        assert(ek.label(chain[k]) == old_ek.label(chain[k]));
    }
}

/// Labels that are only added to keep garbling every polynomial they garbled.
pub proof fn lemma_extends_garbles<F: Field>(
    old_ek: CoordLabels<F>,
    ek: CoordLabels<F>,
    lay: Layout,
    poly: Poly<F>,
)
    requires
        ek.extends(old_ek),
        garbles(old_ek, lay, poly),
        forall|j: int|
            #![trigger lay.chains@[j]]
            0 <= j < lay.chains@.len() ==> lay.chains@[j]@.len() > 0,
    ensures
        garbles(ek, lay, poly),
{
    assert forall|j: int|
        #![trigger lay.chains@[j]]
        0 <= j < lay.chains@.len() implies chain_telescopes(
        ek,
        lay.chains@[j]@,
        poly.coeffs@[j]@,
    ) by {
        let chain = lay.chains@[j]@;
        assert forall|k: int| 0 <= k < chain.len() implies {
            &&& in_range(#[trigger] chain[k], ek.u@.len(), ek.v@.len())
            &&& ek.label(chain[k]).a@ == (if k == 0 {
                poly.coeffs@[j]@
            } else {
                ek.label(chain[k - 1]).b@.opp()
            })
        } by {
            assert(in_range(chain[k], old_ek.u@.len(), old_ek.v@.len()));
            assert(ek.label(chain[k]) == old_ek.label(chain[k]));
            if k > 0 {
                assert(in_range(chain[k - 1], old_ek.u@.len(), old_ek.v@.len()));
                assert(ek.label(chain[k - 1]) == old_ek.label(chain[k - 1]));
            }
        }
    }
    lemma_extends_sum_last(old_ek, ek, lay, poly, lay.chains@.len() as int);
}

proof fn lemma_extends_sum_last<F: Field>(
    old_ek: CoordLabels<F>,
    ek: CoordLabels<F>,
    lay: Layout,
    poly: Poly<F>,
    n: int,
)
    requires
        ek.extends(old_ek),
        garbles(old_ek, lay, poly),
        n <= lay.chains@.len(),
        forall|j: int|
            #![trigger lay.chains@[j]]
            0 <= j < lay.chains@.len() ==> lay.chains@[j]@.len() > 0,
    ensures
        sum_last(ek, lay, n) == sum_last(old_ek, lay, n),
    decreases n,
{
    if n > 0 {
        lemma_extends_sum_last(old_ek, ek, lay, poly, n - 1);
        let chain = lay.chains@[n - 1]@;
        assert(chain_telescopes(old_ek, lay.chains@[n - 1]@, poly.coeffs@[n - 1]@));
        assert(in_range(chain[chain.len() - 1], old_ek.u@.len(), old_ek.v@.len()));
        assert(ek.label(chain.last()) == old_ek.label(chain.last()));
    }
}

/// Append the labels of one chain.
fn garble_chain<F: Field>(
    chain: &Vec<(Var, usize)>,
    c: F,
    last: F,
    rhos: &Vec<F>,
    from: usize,
    ek: &mut CoordLabels<F>,
)
    requires
        chain_in_order(chain@, old(ek).u@.len(), old(ek).v@.len()),
        chain@.len() > 0 ==> from + chain@.len() - 1 <= rhos@.len(),
    ensures
        final(ek).extends(*old(ek)),
        final(ek).u@.len() == old(ek).u@.len() + occurs(chain@, Var::U, chain@.len() as int),
        final(ek).v@.len() == old(ek).v@.len() + occurs(chain@, Var::V, chain@.len() as int),
        chain_is_garbled(*final(ek), chain@, c@, last@, rhos@, from as int),
{
    let ghost start = *ek;
    proof {
        lemma_occurs(chain@, 0);
    }
    let mut prev = last;
    let d: usize = chain.len();
    let total: usize = rhos.len();
    for k in 0..d
        invariant
            d == chain@.len(),
            total == rhos@.len(),
            chain_in_order(chain@, start.u@.len(), start.v@.len()),
            d > 0 ==> from + d - 1 <= rhos@.len(),
            ek.extends(start),
            ek.u@.len() == start.u@.len() + occurs(chain@, Var::U, k as int),
            ek.v@.len() == start.v@.len() + occurs(chain@, Var::V, k as int),
            k > 0 ==> prev@ == label_b(k - 1, d as int, last@, rhos@, from as int),
            forall|i: int|
                0 <= i < k ==> {
                    &&& in_range(#[trigger] chain@[i], ek.u@.len(), ek.v@.len())
                    &&& ek.label(chain@[i]).a@ == label_a(
                        i,
                        d as int,
                        c@,
                        last@,
                        rhos@,
                        from as int,
                    )
                    &&& ek.label(chain@[i]).b@ == label_b(i, d as int, last@, rhos@, from as int)
                },
    {
        let ghost before = *ek;
        let a = if k == 0 {
            c
        } else {
            prev.neg()
        };
        let b = if k == d - 1 {
            last
        } else {
            rhos[from + k]
        };
        prev = b;
        let (var, _) = chain[k];
        match var {
            Var::U => {
                ek.u.push(Affine { a, b });
            },
            Var::V => {
                ek.v.push(Affine { a, b });
            },
        }
        proof {
            lemma_occurs(chain@, k as int);
            assert(chain@[k as int].0 == var);
            assert(ek.label(chain@[k as int]) == Affine { a, b });
            assert forall|i: int| 0 <= i < k implies ek.label(chain@[i]) == before.label(
                chain@[i],
            ) && in_range(chain@[i], ek.u@.len(), ek.v@.len()) by {
                assert(in_range(chain@[i], before.u@.len(), before.v@.len()));
            }
        }
    }
}

/// The last offsets of sampled chains share the constant.
proof fn lemma_sum_last<F: Field>(
    ek: CoordLabels<F>,
    lay: Layout,
    offsets: Seq<F>,
    constant: El,
    n: int,
)
    requires
        0 <= n <= lay.chains@.len(),
        offsets.len() == lay.chains@.len() - 1,
        constant.reduced(),
        forall|j: int|
            #![trigger lay.chains@[j]]
            0 <= j < n ==> ek.label(lay.chains@[j]@.last()).b@ == chain_offset(
                offsets,
                constant,
                lay.chains@.len() as int,
                j,
            ),
    ensures
        n < lay.chains@.len() ==> sum_last(ek, lay, n) == sum_of(offsets, n),
        n == lay.chains@.len() ==> sum_last(ek, lay, n) == constant,
    decreases n,
{
    if n > 0 {
        lemma_sum_last(ek, lay, offsets, constant, n - 1);
        assert(lay.chains@[n - 1]@ == lay.chains@[n - 1]@);
        if n == lay.chains@.len() {
            let partial = sum_of(offsets, n - 1);
            ring::lemma_plus_comm(partial, constant.minus(partial));
            ring::lemma_minus_plus(constant, partial);
        }
    }
}

/// Chains that are exactly the sampled ones garble the polynomial.
pub proof fn lemma_sampled_chains_garble<F: Field>(
    ek: CoordLabels<F>,
    lay: Layout,
    poly: Poly<F>,
    monomials: Seq<Monomial>,
    offsets: Seq<F>,
    rhos: Seq<F>,
)
    requires
        monomials.len() >= 1,
        poly.coeffs@.len() == monomials.len(),
        lay.chains@.len() == monomials.len(),
        offsets.len() == monomials.len() - 1,
        forall|j: int|
            #![trigger lay.chains@[j]]
            0 <= j < monomials.len() ==> lay.chains@[j]@.len() > 0,
        sampled(ek, lay, poly, monomials, offsets, rhos),
    ensures
        garbles(ek, lay, poly),
{
    let m = monomials.len() as int;
    assert forall|j: int| #![trigger lay.chains@[j]] 0 <= j < m implies chain_telescopes(
        ek,
        lay.chains@[j]@,
        poly.coeffs@[j]@,
    ) by {
        let chain = lay.chains@[j]@;
        assert forall|k: int| 0 <= k < chain.len() implies {
            &&& in_range(#[trigger] chain[k], ek.u@.len(), ek.v@.len())
            &&& ek.label(chain[k]).a@ == (if k == 0 {
                poly.coeffs@[j]@
            } else {
                ek.label(chain[k - 1]).b@.opp()
            })
        } by {
            if k > 0 {
                assert(in_range(chain[k - 1], ek.u@.len(), ek.v@.len()));
            }
        }
    }
    assert forall|j: int| #![trigger lay.chains@[j]] 0 <= j < m implies ek.label(
        lay.chains@[j]@.last(),
    ).b@ == chain_offset(offsets, poly.constant@, m, j) by {
        let chain = lay.chains@[j]@;
        assert(in_range(chain[chain.len() - 1], ek.u@.len(), ek.v@.len()));
    }
    poly.constant.lemma_view();
    lemma_sum_last(ek, lay, offsets, poly.constant@, m);
}

/// Whether every chain holds exactly the labels sampled for it.
pub open spec fn sampled<F: Field>(
    ek: CoordLabels<F>,
    lay: Layout,
    poly: Poly<F>,
    monomials: Seq<Monomial>,
    offsets: Seq<F>,
    rhos: Seq<F>,
) -> bool {
    forall|j: int|
        #![trigger lay.chains@[j]]
        0 <= j < monomials.len() ==> chain_is_garbled(
            ek,
            lay.chains@[j]@,
            poly.coeffs@[j]@,
            chain_offset(offsets, poly.constant@, monomials.len() as int, j),
            rhos,
            sum_inner(monomials, j) as int,
        )
}

/// Whether the labels are those of the next draws, from one state of the generator to the
/// other: the offsets of all chains but the last, then those of the inner labels.
pub open spec fn garbled_by<F: Field>(
    before: StdRng,
    after: StdRng,
    ek: CoordLabels<F>,
    lay: Layout,
    poly: Poly<F>,
    monomials: Seq<Monomial>,
) -> bool {
    exists|offsets: Seq<F>, rhos: Seq<F>|
        #![trigger sampled(ek, lay, poly, monomials, offsets, rhos)]
        offsets.len() == monomials.len() - 1 && rhos.len() == sum_inner(
            monomials,
            monomials.len() as int,
        ) && draws::draws(before, after, offsets + rhos) && sampled(
            ek,
            lay,
            poly,
            monomials,
            offsets,
            rhos,
        )
}

/// Labels that are only added keep those of the draws.
pub proof fn lemma_extends_garbled_by<F: Field>(
    old_ek: CoordLabels<F>,
    ek: CoordLabels<F>,
    before: StdRng,
    after: StdRng,
    lay: Layout,
    poly: Poly<F>,
    monomials: Seq<Monomial>,
)
    requires
        ek.extends(old_ek),
        garbled_by(before, after, old_ek, lay, poly, monomials),
    ensures
        garbled_by(before, after, ek, lay, poly, monomials),
{
    let (offsets, rhos) = choose|offsets: Seq<F>, rhos: Seq<F>|
        #![trigger sampled(old_ek, lay, poly, monomials, offsets, rhos)]
        offsets.len() == monomials.len() - 1 && rhos.len() == sum_inner(
            monomials,
            monomials.len() as int,
        ) && draws::draws(before, after, offsets + rhos) && sampled(
            old_ek,
            lay,
            poly,
            monomials,
            offsets,
            rhos,
        );
    assert forall|j: int| #![trigger lay.chains@[j]] 0 <= j < monomials.len() implies chain_is_garbled(
        ek,
        lay.chains@[j]@,
        poly.coeffs@[j]@,
        chain_offset(offsets, poly.constant@, monomials.len() as int, j),
        rhos,
        sum_inner(monomials, j) as int,
    ) by {
        lemma_extends_chain(
            old_ek,
            ek,
            lay.chains@[j]@,
            poly.coeffs@[j]@,
            chain_offset(offsets, poly.constant@, monomials.len() as int, j),
            rhos,
            sum_inner(monomials, j) as int,
        );
    }
    assert(sampled(ek, lay, poly, monomials, offsets, rhos));
}

/// The inner labels of the first `n` chains determine what was drawn for them.
proof fn lemma_inner_draws<F: Field>(
    ek: CoordLabels<F>,
    lay: Layout,
    poly: Poly<F>,
    monomials: Seq<Monomial>,
    offsets1: Seq<F>,
    rhos1: Seq<F>,
    offsets2: Seq<F>,
    rhos2: Seq<F>,
    n: int,
)
    requires
        0 <= n <= monomials.len(),
        forall|j: int|
            #![trigger lay.chains@[j]]
            0 <= j < monomials.len() ==> lay.chains@[j]@.len() == monomials[j].deg(),
        sampled(ek, lay, poly, monomials, offsets1, rhos1),
        sampled(ek, lay, poly, monomials, offsets2, rhos2),
    ensures
        forall|i: int| 0 <= i < sum_inner(monomials, n) ==> #[trigger] rhos1[i]@ == rhos2[i]@,
    decreases n,
{
    if n > 0 {
        lemma_inner_draws(
            ek,
            lay,
            poly,
            monomials,
            offsets1,
            rhos1,
            offsets2,
            rhos2,
            n - 1,
        );
        let from = sum_inner(monomials, n - 1) as int;
        let chain = lay.chains@[n - 1]@;
        assert forall|i: int| 0 <= i < sum_inner(monomials, n) implies #[trigger] rhos1[i]@
            == rhos2[i]@ by {
            if i >= from {
                let k = i - from;
                assert(0 <= k < chain.len() - 1);
                assert(in_range(chain[k], ek.u@.len(), ek.v@.len()));
                assert(rhos1[from + k]@ == rhos2[from + k]@);
            }
        }
    }
}

/// The labels determine every draw: labels of chains that are not empty are those of one
/// sequence of elements only, so that no draw is left out of them and none used twice.
pub proof fn law_labels_determine_the_draws<F: Field>(
    ek: CoordLabels<F>,
    lay: Layout,
    poly: Poly<F>,
    monomials: Seq<Monomial>,
    offsets1: Seq<F>,
    rhos1: Seq<F>,
    offsets2: Seq<F>,
    rhos2: Seq<F>,
)
    requires
        forall|j: int|
            #![trigger lay.chains@[j]]
            0 <= j < monomials.len() ==> lay.chains@[j]@.len() == monomials[j].deg()
                && monomials[j].deg() > 0,
        sampled(ek, lay, poly, monomials, offsets1, rhos1),
        sampled(ek, lay, poly, monomials, offsets2, rhos2),
    ensures
        forall|j: int|
            0 <= j < monomials.len() - 1 ==> #[trigger] offsets1[j]@ == offsets2[j]@,
        forall|i: int|
            0 <= i < sum_inner(monomials, monomials.len() as int) ==> #[trigger] rhos1[i]@
                == rhos2[i]@,
{
    lemma_inner_draws(
        ek,
        lay,
        poly,
        monomials,
        offsets1,
        rhos1,
        offsets2,
        rhos2,
        monomials.len() as int,
    );
    assert forall|j: int| 0 <= j < monomials.len() - 1 implies #[trigger] offsets1[j]@
        == offsets2[j]@ by {
        let chain = lay.chains@[j]@;
        let k = chain.len() - 1;
        assert(in_range(chain[k], ek.u@.len(), ek.v@.len()));
    }
}

/// The inner labels do not decrease.
proof fn lemma_inner_grows(monomials: Seq<Monomial>, m: int, n: int)
    requires
        m <= n,
    ensures
        sum_inner(monomials, m) <= sum_inner(monomials, n),
    decreases n - m,
{
    if m < n {
        lemma_inner_grows(monomials, m, n - 1);
    }
}

/// [`garble`] with the random elements given: the offsets of all chains but the
/// last, then the offsets of the inner labels.
pub fn garble_with<F: Field>(
    poly: &Poly<F>,
    shape: &Shape,
    lay: &Layout,
    offsets: &Vec<F>,
    rhos: &Vec<F>,
    ek: &mut CoordLabels<F>,
)
    requires
        shape@.len() >= 1,
        poly.coeffs@.len() == shape@.len(),
        lay.in_order(shape@, old(ek).u@.len(), old(ek).v@.len()),
        offsets@.len() == shape@.len() - 1,
        rhos@.len() == sum_inner(shape@, shape@.len() as int),
    ensures
        final(ek).extends(*old(ek)),
        final(ek).u@.len() == old(ek).u@.len() + lay.taken(Var::U, shape@.len() as int),
        final(ek).v@.len() == old(ek).v@.len() + lay.taken(Var::V, shape@.len() as int),
        sampled(*final(ek), *lay, *poly, shape@, offsets@, rhos@),
{
    let ghost start = *ek;
    let m: usize = shape.monomials.len();
    let total: usize = rhos.len();
    let mut partial = F::from_u64(0);
    for i in 0..offsets.len()
        invariant
            partial@ == sum_of(offsets@, i as int),
    {
        partial = partial.add(offsets[i]);
    }
    let last_offset = poly.constant.sub(partial);
    proof {
        lemma_taken(*lay, 0);
    }
    let mut from: usize = 0;
    for j in 0..m
        invariant
            m == shape@.len(),
            total == rhos@.len(),
            total == sum_inner(shape@, m as int),
            poly.coeffs@.len() == m,
            offsets@.len() == m - 1,
            last_offset@ == poly.constant@.minus(sum_of(offsets@, m - 1)),
            lay.in_order(shape@, start.u@.len(), start.v@.len()),
            from == sum_inner(shape@, j as int),
            ek.extends(start),
            ek.u@.len() == start.u@.len() + lay.taken(Var::U, j as int),
            ek.v@.len() == start.v@.len() + lay.taken(Var::V, j as int),
            forall|i: int|
                #![trigger lay.chains@[i]]
                0 <= i < j ==> chain_is_garbled(
                    *ek,
                    lay.chains@[i]@,
                    poly.coeffs@[i]@,
                    chain_offset(offsets@, poly.constant@, m as int, i),
                    rhos@,
                    sum_inner(shape@, i) as int,
                ),
    {
        let ghost before = *ek;
        let mono = shape.monomials[j];
        proof {
            lemma_inner_grows(shape@, j + 1, m as int);
            lemma_taken(*lay, j as int);
            assert(lay.chains@[j as int]@ == lay.chains@[j as int]@);
        }
        let last = if j == m - 1 {
            last_offset
        } else {
            offsets[j]
        };
        garble_chain(&lay.chains[j], poly.coeffs[j], last, rhos, from, ek);
        proof {
            assert forall|i: int| #![trigger lay.chains@[i]] 0 <= i < j implies chain_is_garbled(
                *ek,
                lay.chains@[i]@,
                poly.coeffs@[i]@,
                chain_offset(offsets@, poly.constant@, m as int, i),
                rhos@,
                sum_inner(shape@, i) as int,
            ) by {
                lemma_extends_chain(
                    before,
                    *ek,
                    lay.chains@[i]@,
                    poly.coeffs@[i]@,
                    chain_offset(offsets@, poly.constant@, m as int, i),
                    rhos@,
                    sum_inner(shape@, i) as int,
                );
            }
        }
        let d: usize = mono.degree();
        if d > 0 {
            from = from + (d - 1);
        }
    }
}

/// Garble `poly` (of shape `shape`, laid out at `lay`), appending its labels to `ek`.
///
/// The labels must be appended in layout order, so the caller garbles polynomials
/// in the order it laid them out. Any chains whose positions are in this order can be
/// garbled, whichever variables they hold.
pub fn garble<F: Field>(
    rng: &mut StdRng,
    poly: &Poly<F>,
    shape: &Shape,
    lay: &Layout,
    ek: &mut CoordLabels<F>,
)
    requires
        shape@.len() >= 1,
        poly.coeffs@.len() == shape@.len(),
        lay.in_order(shape@, old(ek).u@.len(), old(ek).v@.len()),
    ensures
        final(ek).extends(*old(ek)),
        final(ek).u@.len() == old(ek).u@.len() + lay.taken(Var::U, shape@.len() as int),
        final(ek).v@.len() == old(ek).v@.len() + lay.taken(Var::V, shape@.len() as int),
        exists|offsets: Seq<F>, rhos: Seq<F>|
            #![trigger sampled(*final(ek), *lay, *poly, shape@, offsets, rhos)]
            offsets.len() == shape@.len() - 1 && rhos.len() == sum_inner(shape@, shape@.len() as int)
                && draws::draws(*old(rng), *final(rng), offsets + rhos) && sampled(
                *final(ek),
                *lay,
                *poly,
                shape@,
                offsets,
                rhos,
            ),
        garbled_by(*old(rng), *final(rng), *final(ek), *lay, *poly, shape@),
        (forall|j: int| 0 <= j < shape@.len() ==> (#[trigger] shape@[j]).deg() > 0) ==> garbles(
            *final(ek),
            *lay,
            *poly,
        ),
{
    let m: usize = shape.monomials.len();
    let ghost start = *rng;
    let mut offsets: Vec<F> = Vec::new();
    for i in 0..m - 1
        invariant
            offsets@.len() == i,
            draws::draws(start, *rng, offsets@),
    {
        let ghost before = *rng;
        let x = F::rand(rng);
        proof {
            draws::lemma_one_more(start, before, *rng, offsets@, x);
        }
        offsets.push(x);
    }
    let ghost mid = *rng;
    let mut rhos: Vec<F> = Vec::new();
    for j in 0..m
        invariant
            m == shape@.len(),
            rhos@.len() == sum_inner(shape@, j as int),
            draws::draws(mid, *rng, rhos@),
    {
        let d: usize = shape.monomials[j].degree();
        if d > 0 {
            for k in 0..d - 1
                invariant
                    d == shape@[j as int].deg(),
                    rhos@.len() == sum_inner(shape@, j as int) + k,
                    draws::draws(mid, *rng, rhos@),
            {
                let ghost before = *rng;
                let x = F::rand(rng);
                proof {
                    draws::lemma_one_more(mid, before, *rng, rhos@, x);
                }
                rhos.push(x);
            }
        }
    }
    garble_with(poly, shape, lay, &offsets, &rhos, ek);
    proof {
        draws::law_draws_follow_on(start, *rng, offsets@, rhos@);
        assert(sampled(*ek, *lay, *poly, shape@, offsets@, rhos@));
        if forall|j: int| 0 <= j < shape@.len() ==> (#[trigger] shape@[j]).deg() > 0 {
            assert forall|j: int| #![trigger lay.chains@[j]] 0 <= j < m implies lay.chains@[j]@.len()
                > 0 by {
                assert(shape@[j].deg() > 0);
            }
            lemma_sampled_chains_garble(*ek, *lay, *poly, shape@, offsets@, rhos@);
        }
    }
}

/// The encoding of coordinates `(u, v)`: every label's value.
pub fn encode<F: Field>(ek: &CoordLabels<F>, u: F, v: F) -> (res: CoordValues<F>)
    ensures
        ek.encodes(res, u@, v@),
        res.u@.len() == ek.u@.len() && res.v@.len() == ek.v@.len(),
        forall|i: int|
            0 <= i < ek.u@.len() ==> (#[trigger] res.u@[i])@ == ek.u@[i].a@.times(u@).plus(
                ek.u@[i].b@,
            ),
        forall|i: int|
            0 <= i < ek.v@.len() ==> (#[trigger] res.v@[i])@ == ek.v@[i].a@.times(v@).plus(
                ek.v@[i].b@,
            ),
{
    let mut us: Vec<F> = Vec::new();
    for i in 0..ek.u.len()
        invariant
            us@.len() == i,
            forall|k: int| 0 <= k < i ==> #[trigger] us@[k]@ == ek.u@[k].value(u@),
    {
        us.push(ek.u[i].at(u));
    }
    let mut vs: Vec<F> = Vec::new();
    for i in 0..ek.v.len()
        invariant
            vs@.len() == i,
            forall|k: int| 0 <= k < i ==> #[trigger] vs@[k]@ == ek.v@[k].value(v@),
    {
        vs.push(ek.v[i].at(v));
    }
    CoordValues { u: us, v: vs }
}

// -------------------------------------------------------------- evaluation

/// The coordinate that a variable stands for.
pub open spec fn coordinate(var: Var, u: El, v: El) -> El {
    match var {
        Var::U => u,
        Var::V => v,
    }
}

/// A chain evaluated over its first `n` labels, by Horner's rule.
pub open spec fn chain_value<F: Field>(
    chain: Seq<Slot>,
    vals: CoordValues<F>,
    u: El,
    v: El,
    n: int,
) -> El
    decreases n,
{
    if n <= 1 {
        vals.value_at(chain[0])
    } else {
        chain_value(chain, vals, u, v, n - 1).times(coordinate(chain[n - 1].0, u, v)).plus(
            vals.value_at(chain[n - 1]),
        )
    }
}

/// The sum of the first `n` chains.
pub open spec fn chains_sum<F: Field>(
    lay: Layout,
    vals: CoordValues<F>,
    u: El,
    v: El,
    n: int,
) -> El
    decreases n,
{
    if n <= 0 {
        El::num(0)
    } else {
        chains_sum(lay, vals, u, v, n - 1).plus(
            chain_value(lay.chains@[n - 1]@, vals, u, v, lay.chains@[n - 1]@.len() as int),
        )
    }
}

/// What a garbled polynomial evaluates to.
pub open spec fn garbled_value<F: Field>(lay: Layout, vals: CoordValues<F>, u: El, v: El) -> El {
    chains_sum(lay, vals, u, v, lay.chains@.len() as int)
}

/// Evaluate a garbled polynomial from the label values and the public coordinates.
pub fn eval<F: Field>(lay: &Layout, vals: &CoordValues<F>, u: F, v: F) -> (res: F)
    requires
        lay.fits(vals.u@.len(), vals.v@.len()),
    ensures
        res@ == garbled_value(*lay, *vals, u@, v@),
{
    let mut sum = F::from_u64(0);
    for j in 0..lay.chains.len()
        invariant
            lay.fits(vals.u@.len(), vals.v@.len()),
            sum@ == chains_sum(*lay, *vals, u@, v@, j as int),
    {
        let chain = &lay.chains[j];
        proof {
            assert(chain@ == lay.chains@[j as int]@);
            assert(in_range(chain@[0], vals.u@.len(), vals.v@.len()));
        }
        let mut acc = vals.get(chain[0].0, chain[0].1);
        for k in 1..chain.len()
            invariant
                chain@.len() > 0,
                forall|i: int|
                    0 <= i < chain@.len() ==> in_range(
                        #[trigger] chain@[i],
                        vals.u@.len(),
                        vals.v@.len(),
                    ),
                acc@ == chain_value(chain@, *vals, u@, v@, k as int),
        {
            let (var, idx) = chain[k];
            proof {
                assert(in_range(chain@[k as int], vals.u@.len(), vals.v@.len()));
            }
            let x = match var {
                Var::U => u,
                Var::V => v,
            };
            acc = acc.mul(x).add(vals.get(var, idx));
        }
        sum = sum.add(acc);
    }
    sum
}

// -------------------------------------------------------------------- laws

/// The coefficient times the first `n` coordinates of a chain.
spec fn partial_term(c: El, m: Monomial, u: El, v: El, n: int) -> El {
    if n <= m.du {
        c.times(u.power(n as nat)).times(v.power(0))
    } else {
        c.times(u.power(m.du as nat)).times(v.power((n - m.du) as nat))
    }
}

/// One more coordinate.
proof fn lemma_partial_term(c: El, m: Monomial, u: El, v: El, n: int)
    requires
        c.reduced(),
        n >= 1,
    ensures
        partial_term(c, m, u, v, 0) == c,
        partial_term(c, m, u, v, n) == partial_term(c, m, u, v, n - 1).times(
            if n <= m.du {
                u
            } else {
                v
            },
        ),
{
    ring::lemma_times_one(c);
    assert(partial_term(c, m, u, v, 0) == c.times(El::num(1)).times(El::num(1)));
    if n <= m.du {
        let (x0, x1) = (u.power((n - 1) as nat), u.power(n as nat));
        ring::lemma_reduced(c, x0);
        ring::lemma_reduced(c, x1);
        ring::lemma_times_one(c.times(x0));
        ring::lemma_times_one(c.times(x1));
        ring::lemma_times_assoc(c, x0, u);
    } else {
        let k = (n - m.du) as nat;
        let w = c.times(u.power(m.du as nat));
        assert(v.power(k) == v.power((k - 1) as nat).times(v));
        ring::lemma_times_assoc(w, v.power((k - 1) as nat), v);
        assert(n - 1 == m.du ==> (k - 1) as nat == 0);
    }
}

/// After `n` labels a chain is at its coefficient times the coordinates so far,
/// plus the offset of the last label.
proof fn lemma_chain_value<F: Field>(
    ek: CoordLabels<F>,
    chain: Seq<Slot>,
    vals: CoordValues<F>,
    c: El,
    m: Monomial,
    nu: nat,
    nv: nat,
    u: El,
    v: El,
    n: int,
)
    requires
        c.reduced(),
        is_chain(chain, m, nu, nv),
        chain_telescopes(ek, chain, c),
        ek.encodes(vals, u, v),
        1 <= n <= chain.len(),
    ensures
        chain_value(chain, vals, u, v, n) == partial_term(c, m, u, v, n).plus(
            ek.label(chain[n - 1]).b@,
        ),
    decreases n,
{
    let x = coordinate(chain[n - 1].0, u, v);
    let l = ek.label(chain[n - 1]);
    assert(in_range(chain[n - 1], ek.u@.len(), ek.v@.len()));
    assert(vals.value_at(chain[n - 1]) == l.value(x));
    lemma_partial_term(c, m, u, v, n);
    assert(x == (if n <= m.du {
        u
    } else {
        v
    }));
    if n > 1 {
        lemma_chain_value(ek, chain, vals, c, m, nu, nv, u, v, n - 1);
        assert(in_range(chain[n - 2], ek.u@.len(), ek.v@.len()));
        ring::lemma_telescope(
            partial_term(c, m, u, v, n - 1),
            ek.label(chain[n - 2]).b@,
            x,
            l.b@,
        );
    }
}

/// One more chain on the one side, one more term and offset on the other.
proof fn lemma_sum_step(s: El, q: El, z: El, k: El, t: El, b: El)
    requires
        s.plus(k) == q.plus(z),
    ensures
        s.plus(t.plus(b)).plus(k) == q.plus(t).plus(z.plus(b)),
{
    ring::lemma_plus_assoc(s, t.plus(b), k);
    ring::lemma_plus_comm(t.plus(b), k);
    ring::lemma_plus_assoc(s, k, t.plus(b));
    ring::lemma_plus_swap(q, z, t, b);
}

/// A whole chain is at its term plus its last offset.
proof fn lemma_whole_chain<F: Field>(
    ek: CoordLabels<F>,
    chain: Seq<Slot>,
    vals: CoordValues<F>,
    c: El,
    m: Monomial,
    nu: nat,
    nv: nat,
    u: El,
    v: El,
)
    requires
        c.reduced(),
        m.deg() > 0,
        is_chain(chain, m, nu, nv),
        chain_telescopes(ek, chain, c),
        ek.encodes(vals, u, v),
    ensures
        chain_value(chain, vals, u, v, chain.len() as int) == term(c, m, u, v).plus(
            ek.label(chain.last()).b@,
        ),
{
    lemma_chain_value(ek, chain, vals, c, m, nu, nv, u, v, chain.len() as int);
    assert(m.dv == 0 ==> v.power(0) == v.power(m.dv as nat));
}

/// The chains of a garbled polynomial sum to its terms and the shared constant.
proof fn lemma_chains_sum<F: Field>(
    ek: CoordLabels<F>,
    lay: Layout,
    vals: CoordValues<F>,
    poly: Poly<F>,
    monomials: Seq<Monomial>,
    nu: nat,
    nv: nat,
    u: El,
    v: El,
    n: int,
)
    requires
        u.reduced(),
        v.reduced(),
        lay.is_layout(monomials, nu, nv),
        poly.coeffs@.len() == monomials.len(),
        forall|j: int| 0 <= j < monomials.len() ==> (#[trigger] monomials[j]).deg() > 0,
        garbles(ek, lay, poly),
        ek.encodes(vals, u, v),
        0 <= n <= monomials.len(),
    ensures
        chains_sum(lay, vals, u, v, n).plus(poly.constant@) == poly_sum(
            poly,
            monomials,
            u,
            v,
            n,
        ).plus(sum_last(ek, lay, n)),
    decreases n,
{
    let constant = poly.constant@;
    poly.constant.lemma_view();
    if n == 0 {
        ring::lemma_plus_comm(El::num(0), constant);
    } else {
        lemma_chains_sum(ek, lay, vals, poly, monomials, nu, nv, u, v, n - 1);
        let chain = lay.chains@[n - 1]@;
        let m = monomials[n - 1];
        let c = poly.coeffs@[n - 1]@;
        poly.coeffs@[n - 1].lemma_view();
        assert(m.deg() > 0);
        lemma_whole_chain(
            ek,
            chain,
            vals,
            c,
            m,
            nu + sum_u(monomials, n - 1),
            nv + sum_v(monomials, n - 1),
            u,
            v,
        );
        let t = term(c, m, u, v);
        let b = ek.label(chain.last()).b@;
        let (s, q, z) = (
            chains_sum(lay, vals, u, v, n - 1),
            poly_sum(poly, monomials, u, v, n - 1),
            sum_last(ek, lay, n - 1),
        );
        lemma_sum_step(s, q, z, constant, t, b);
    }
}

/// Evaluating the encoding of a garbled polynomial gives the polynomial's value:
/// for every polynomial, every garbling of it and all coordinates.
pub proof fn law_garbling_is_correct<F: Field>(
    ek: CoordLabels<F>,
    lay: Layout,
    vals: CoordValues<F>,
    poly: Poly<F>,
    monomials: Seq<Monomial>,
    nu: nat,
    nv: nat,
    u: El,
    v: El,
)
    requires
        u.reduced(),
        v.reduced(),
        lay.is_layout(monomials, nu, nv),
        poly.coeffs@.len() == monomials.len(),
        forall|j: int| 0 <= j < monomials.len() ==> (#[trigger] monomials[j]).deg() > 0,
        garbles(ek, lay, poly),
        ek.encodes(vals, u, v),
    ensures
        garbled_value(lay, vals, u, v) == poly_value(poly, monomials, u, v),
{
    let n = monomials.len() as int;
    lemma_chains_sum(ek, lay, vals, poly, monomials, nu, nv, u, v, n);
    poly.constant.lemma_view();
    lemma_sum_reduced(lay, vals, poly, monomials, u, v, n);
    ring::lemma_plus_cancel(
        garbled_value(lay, vals, u, v),
        poly_value(poly, monomials, u, v),
        poly.constant@,
    );
}

/// The sums of chains and of terms are reduced elements.
proof fn lemma_sum_reduced<F: Field>(
    lay: Layout,
    vals: CoordValues<F>,
    poly: Poly<F>,
    monomials: Seq<Monomial>,
    u: El,
    v: El,
    n: int,
)
    ensures
        chains_sum(lay, vals, u, v, n).reduced(),
        poly_sum(poly, monomials, u, v, n).reduced(),
{
    poly.constant.lemma_view();
    if n > 0 {
        ring::lemma_reduced(
            chains_sum(lay, vals, u, v, n - 1),
            chain_value(lay.chains@[n - 1]@, vals, u, v, lay.chains@[n - 1]@.len() as int),
        );
        ring::lemma_reduced(
            poly_sum(poly, monomials, u, v, n - 1),
            term(poly.coeffs@[n - 1]@, monomials[n - 1], u, v),
        );
    }
}

/// The shape and the cursor alone determine the layout: two layouts of one
/// shape after the same labels are the same, chain by chain.
pub proof fn law_shape_determines_layout(
    one: Layout,
    two: Layout,
    monomials: Seq<Monomial>,
    nu: nat,
    nv: nat,
)
    requires
        one.is_layout(monomials, nu, nv),
        two.is_layout(monomials, nu, nv),
    ensures
        one.chains@.len() == two.chains@.len(),
        forall|j: int|
            #![trigger one.chains@[j]]
            0 <= j < one.chains@.len() ==> one.chains@[j]@ == two.chains@[j]@,
{
    assert forall|j: int| #![trigger one.chains@[j]] 0 <= j < one.chains@.len() implies one.chains@[j]@
        == two.chains@[j]@ by {
        let (a, b) = (one.chains@[j]@, two.chains@[j]@);
        assert(is_chain(two.chains@[j]@, monomials[j], nu + sum_u(monomials, j), nv + sum_v(monomials, j)));
        assert forall|k: int| 0 <= k < a.len() implies a[k] == b[k] by {
            assert(a[k].0 == b[k].0 && a[k].1 == b[k].1);
        }
        assert(a =~= b);
    }
}

/// Whether two layouts hold the same positions.
pub open spec fn same_chains(one: Layout, two: Layout) -> bool {
    &&& one.chains@.len() == two.chains@.len()
    &&& forall|j: int|
        #![trigger one.chains@[j]]
        #![trigger two.chains@[j]]
        0 <= j < one.chains@.len() ==> one.chains@[j]@ == two.chains@[j]@
}

/// A garbled polynomial evaluates alike at layouts of the same positions.
pub proof fn lemma_same_chains_value<F: Field>(
    one: Layout,
    two: Layout,
    vals: CoordValues<F>,
    u: El,
    v: El,
    n: int,
)
    requires
        same_chains(one, two),
        n <= one.chains@.len(),
    ensures
        chains_sum(one, vals, u, v, n) == chains_sum(two, vals, u, v, n),
    decreases n,
{
    if n > 0 {
        lemma_same_chains_value(one, two, vals, u, v, n - 1);
        assert(one.chains@[n - 1]@ == two.chains@[n - 1]@);
    }
}

/// A polynomial garbled at one layout is garbled at every layout of the same
/// positions.
pub proof fn lemma_same_chains_garble<F: Field>(
    ek: CoordLabels<F>,
    one: Layout,
    two: Layout,
    poly: Poly<F>,
)
    requires
        same_chains(one, two),
        garbles(ek, one, poly),
    ensures
        garbles(ek, two, poly),
{
    lemma_same_chains_last(ek, one, two, one.chains@.len() as int);
    assert forall|j: int|
        #![trigger two.chains@[j]]
        0 <= j < two.chains@.len() implies chain_telescopes(
        ek,
        two.chains@[j]@,
        poly.coeffs@[j]@,
    ) by {
        assert(one.chains@[j]@ == two.chains@[j]@);
    }
}

proof fn lemma_same_chains_last<F: Field>(ek: CoordLabels<F>, one: Layout, two: Layout, n: int)
    requires
        same_chains(one, two),
        n <= one.chains@.len(),
    ensures
        sum_last(ek, one, n) == sum_last(ek, two, n),
    decreases n,
{
    if n > 0 {
        lemma_same_chains_last(ek, one, two, n - 1);
        assert(one.chains@[n - 1]@ == two.chains@[n - 1]@);
    }
}

/// A layout of monomials of positive degree fits the labels up to its end.
pub proof fn lemma_layout_fits(
    lay: Layout,
    monomials: Seq<Monomial>,
    nu: nat,
    nv: nat,
    end_u: nat,
    end_v: nat,
)
    requires
        lay.is_layout(monomials, nu, nv),
        forall|j: int| 0 <= j < monomials.len() ==> (#[trigger] monomials[j]).deg() > 0,
        nu + sum_u(monomials, monomials.len() as int) <= end_u,
        nv + sum_v(monomials, monomials.len() as int) <= end_v,
    ensures
        lay.fits(end_u, end_v),
{
    assert forall|j: int| #![trigger lay.chains@[j]] 0 <= j < lay.chains@.len() implies lay.chains@[j]@.len()
        > 0 && forall|k: int|
        0 <= k < lay.chains@[j]@.len() ==> in_range(#[trigger] lay.chains@[j]@[k], end_u, end_v) by {
        let chain = lay.chains@[j]@;
        let m = monomials[j];
        assert(m.deg() > 0);
        lemma_sums_grow(monomials, j + 1, monomials.len() as int);
        assert forall|k: int| 0 <= k < chain.len() implies in_range(
            #[trigger] chain[k],
            end_u,
            end_v,
        ) by {
            if k < m.du {
                assert(chain[k].0 == Var::U);
            } else {
                assert(chain[k].0 == Var::V);
            }
        }
    }
}

/// The terms of a polynomial over the first monomials are those of it over all of them.
proof fn lemma_poly_sum_prefix<F: Field>(
    poly: Poly<F>,
    monomials: Seq<Monomial>,
    more: Monomial,
    u: El,
    v: El,
    n: int,
)
    requires
        0 <= n <= monomials.len(),
    ensures
        poly_sum(poly, monomials.push(more), u, v, n) == poly_sum(poly, monomials, u, v, n),
    decreases n,
{
    if n > 0 {
        lemma_poly_sum_prefix(poly, monomials, more, u, v, n - 1);
        assert(monomials.push(more)[n - 1] == monomials[n - 1]);
    }
}

/// The value of a polynomial, term by term: without monomials it is the constant, one more
/// monomial that has a coefficient adds `c·u^du·v^dv`, and one that has none adds nothing.
pub proof fn law_value_term_by_term<F: Field>(
    poly: Poly<F>,
    monomials: Seq<Monomial>,
    more: Monomial,
    u: El,
    v: El,
)
    ensures
        poly_value(poly, Seq::empty(), u, v) == poly.constant@,
        monomials.len() < poly.coeffs@.len() ==> poly_value(poly, monomials.push(more), u, v)
            == poly_value(poly, monomials, u, v).plus(
            poly.coeffs@[monomials.len() as int]@.times(u.power(more.du as nat)).times(
                v.power(more.dv as nat),
            ),
        ),
        monomials.len() >= poly.coeffs@.len() ==> poly_value(poly, monomials.push(more), u, v)
            == poly_value(poly, monomials, u, v),
{
    let n = num_terms(poly, monomials);
    lemma_poly_sum_prefix(poly, monomials, more, u, v, n);
    if monomials.len() < poly.coeffs@.len() {
        assert(monomials.push(more)[n] == more);
    }
}

/// The positions of a layout: chain `j` holds its `u` occurrences and then its `v`
/// occurrences, numbered on from those of the chains before it.
pub proof fn law_layout_positions(
    lay: Layout,
    monomials: Seq<Monomial>,
    nu: nat,
    nv: nat,
    j: int,
    k: int,
)
    requires
        lay.is_layout(monomials, nu, nv),
        0 <= j < monomials.len(),
        0 <= k < monomials[j].du + monomials[j].dv,
    ensures
        lay.chains@.len() == monomials.len(),
        lay.chains@[j]@.len() == monomials[j].du + monomials[j].dv,
        k < monomials[j].du ==> lay.chains@[j]@[k].0 == Var::U && lay.chains@[j]@[k].1 == nu
            + sum_u(monomials, j) + k,
        k >= monomials[j].du ==> lay.chains@[j]@[k].0 == Var::V && lay.chains@[j]@[k].1 == nv
            + sum_v(monomials, j) + k - monomials[j].du,
{
    let chain = lay.chains@[j]@;
    let slot = chain[k];
}

/// A chain and what is left of it after its first label.
proof fn lemma_chain_front<F: Field>(
    chain: Seq<Slot>,
    vals: CoordValues<F>,
    u: El,
    v: El,
    n: int,
)
    requires
        1 <= n < chain.len(),
        u.reduced(),
        v.reduced(),
    ensures
        chain_value(chain, vals, u, v, n + 1) == vals.value_at(chain[0]).times(
            u.power(occurs(chain.skip(1), Var::U, n)).times(
                v.power(occurs(chain.skip(1), Var::V, n)),
            ),
        ).plus(chain_value(chain.skip(1), vals, u, v, n)),
    decreases n,
{
    let rest = chain.skip(1);
    let first = vals.value_at(chain[0]);
    let (var, here) = (chain[n].0, vals.value_at(chain[n]));
    let x = coordinate(var, u, v);
    assert(rest[n - 1] == chain[n]);
    lemma_occurs(rest, n - 1);
    let (i, j) = (occurs(rest, Var::U, n - 1), occurs(rest, Var::V, n - 1));
    let w = u.power(i).times(v.power(j));
    // one coordinate more in the weight
    let w1 = u.power(occurs(rest, Var::U, n)).times(v.power(occurs(rest, Var::V, n)));
    assert(w1 == w.times(x)) by {
        match var {
            Var::U => {
                assert(u.power(i + 1) == u.power(i).times(u));
                ring::lemma_times_assoc(u.power(i), u, v.power(j));
                ring::lemma_times_comm(u, v.power(j));
                ring::lemma_times_assoc(u.power(i), v.power(j), u);
            },
            Var::V => {
                assert(v.power(j + 1) == v.power(j).times(v));
                ring::lemma_times_assoc(u.power(i), v.power(j), v);
            },
        }
    }
    if n == 1 {
        ring::lemma_power_reduced(u, 0);
        assert(i == 0 && j == 0);
        assert(u.power(0) == El::num(1) && v.power(0) == El::num(1));
        ring::lemma_times_one(El::num(1));
        assert(w == El::num(1));
        ring::lemma_times_assoc(first, w, x);
        assert(first.times(w1) == first.times(x)) by {
            ring::lemma_times_comm(El::num(1), x);
            ring::lemma_times_one(x);
        }
        assert(chain_value(chain, vals, u, v, 1) == first);
        assert(chain_value(rest, vals, u, v, 1) == here);
    } else {
        lemma_chain_front(chain, vals, u, v, n - 1);
        let (q, r) = (first.times(w), chain_value(rest, vals, u, v, n - 1));
        // (q + r)·x + here
        ring::lemma_times_comm(q.plus(r), x);
        ring::lemma_times_plus(x, q, r);
        ring::lemma_times_comm(x, q);
        ring::lemma_times_comm(x, r);
        ring::lemma_plus_assoc(q.times(x), r.times(x), here);
        ring::lemma_times_assoc(first, w, x);
    }
}

/// Evaluation weighs every label value by the coordinates that follow it in its chain, and
/// sums over the chains: without chains it gives zero, a chain more adds what that chain
/// gives alone, a chain of one label gives the label's value, and a label in front of a chain
/// adds its value times `u^m·v^n`, for the `m` labels on `u` and the `n` labels on `v` after
/// it.
pub proof fn law_evaluation_weighs_the_labels<F: Field>(
    lay: Layout,
    short: Layout,
    alone: Layout,
    rest: Layout,
    vals: CoordValues<F>,
    u: El,
    v: El,
)
    requires
        u.reduced(),
        v.reduced(),
        lay.chains@.len() > 0,
        short.chains@ == lay.chains@.drop_last(),
        alone.chains@.len() == 1 && alone.chains@[0]@ == lay.chains@.last()@,
        rest.chains@.len() == 1 && rest.chains@[0]@ == lay.chains@.last()@.skip(1),
        lay.chains@.last()@.len() > 0,
    ensures
        lay.chains@.len() == 1 ==> garbled_value(short, vals, u, v) == El::num(0),
        garbled_value(lay, vals, u, v) == garbled_value(short, vals, u, v).plus(
            garbled_value(alone, vals, u, v),
        ),
        alone.chains@[0]@.len() == 1 ==> garbled_value(alone, vals, u, v) == match alone.chains@[0]@[0].0 {
            Var::U => vals.u@[alone.chains@[0]@[0].1 as int]@,
            Var::V => vals.v@[alone.chains@[0]@[0].1 as int]@,
        },
        alone.chains@[0]@.len() > 1 ==> garbled_value(alone, vals, u, v) == (match alone.chains@[0]@[0].0 {
            Var::U => vals.u@[alone.chains@[0]@[0].1 as int]@,
            Var::V => vals.v@[alone.chains@[0]@[0].1 as int]@,
        }).times(
            u.power(occurs(rest.chains@[0]@, Var::U, rest.chains@[0]@.len() as int)).times(
                v.power(occurs(rest.chains@[0]@, Var::V, rest.chains@[0]@.len() as int)),
            ),
        ).plus(garbled_value(rest, vals, u, v)),
{
    let (n, chain) = (lay.chains@.len() as int, lay.chains@.last()@);
    let size = chain.len() as int;
    lemma_chains_sum_prefix(lay, short, vals, u, v, n - 1);
    let (x, y) = (
        chain_value(chain, vals, u, v, size),
        chain_value(chain.skip(1), vals, u, v, size - 1),
    );
    lemma_one_chain(alone, vals, u, v);
    lemma_one_chain(rest, vals, u, v);
    lemma_chain_reduced(chain, vals, u, v, size);
    ring::lemma_plus_zero(x);
    if size > 1 {
        lemma_chain_front(chain, vals, u, v, size - 1);
        lemma_chain_reduced(chain.skip(1), vals, u, v, size - 1);
        ring::lemma_plus_zero(y);
    }
}

/// A chain's value is a reduced element.
proof fn lemma_chain_reduced<F: Field>(
    chain: Seq<Slot>,
    vals: CoordValues<F>,
    u: El,
    v: El,
    n: int,
)
    ensures
        chain_value(chain, vals, u, v, n).reduced(),
{
    if n <= 1 {
        match chain[0].0 {
            Var::U => vals.u@[chain[0].1 as int].lemma_view(),
            Var::V => vals.v@[chain[0].1 as int].lemma_view(),
        }
    } else {
        ring::lemma_reduced(
            chain_value(chain, vals, u, v, n - 1).times(coordinate(chain[n - 1].0, u, v)),
            vals.value_at(chain[n - 1]),
        );
    }
}

/// The value of one chain.
proof fn lemma_one_chain<F: Field>(lay: Layout, vals: CoordValues<F>, u: El, v: El)
    requires
        lay.chains@.len() == 1,
    ensures
        garbled_value(lay, vals, u, v) == El::num(0).plus(
            chain_value(lay.chains@[0]@, vals, u, v, lay.chains@[0]@.len() as int),
        ),
{
    assert(chains_sum(lay, vals, u, v, 0) == El::num(0));
}

/// The first chains give what they give without the last.
proof fn lemma_chains_sum_prefix<F: Field>(
    lay: Layout,
    short: Layout,
    vals: CoordValues<F>,
    u: El,
    v: El,
    n: int,
)
    requires
        short.chains@ == lay.chains@.drop_last(),
        n < lay.chains@.len(),
    ensures
        chains_sum(lay, vals, u, v, n) == chains_sum(short, vals, u, v, n),
    decreases n,
{
    if n > 0 {
        lemma_chains_sum_prefix(lay, short, vals, u, v, n - 1);
        assert(short.chains@[n - 1] == lay.chains@[n - 1]);
    }
}

/// What a garbled polynomial evaluates to is a reduced element.
pub proof fn lemma_value_reduced<F: Field>(
    lay: Layout,
    vals: CoordValues<F>,
    u: El,
    v: El,
    n: int,
)
    ensures
        chains_sum(lay, vals, u, v, n).reduced(),
{
    if n > 0 {
        ring::lemma_reduced(
            chains_sum(lay, vals, u, v, n - 1),
            chain_value(lay.chains@[n - 1]@, vals, u, v, lay.chains@[n - 1]@.len() as int),
        );
    }
}

/// The labels of a garbling, one by one: the head of chain `j` carries the coefficient of
/// monomial `j` and each later label what cancels the offset before it; the last label of a
/// chain is offset by the draw for the chain, for the last chain by what is then missing from
/// the constant, and each other label by a draw of its own.
pub proof fn law_labels_one_by_one<F: Field>(
    ek: CoordLabels<F>,
    lay: Layout,
    poly: Poly<F>,
    monomials: Seq<Monomial>,
    offsets: Seq<F>,
    rhos: Seq<F>,
    j: int,
    k: int,
)
    requires
        sampled(ek, lay, poly, monomials, offsets, rhos),
        0 <= j < monomials.len(),
        0 <= k < lay.chains@[j]@.len(),
    ensures
        ({
            let chain = lay.chains@[j]@;
            let label = ek.label(chain[k]);
            &&& k == 0 ==> label.a@ == poly.coeffs@[j]@
            &&& k > 0 ==> label.a@ == ek.label(chain[k - 1]).b@.opp()
            &&& k == chain.len() - 1 && j < monomials.len() - 1 ==> label.b@ == offsets[j]@
            &&& k == chain.len() - 1 && j == monomials.len() - 1 ==> label.b@
                == poly.constant@.minus(sum_of(offsets, j))
            &&& k < chain.len() - 1 ==> label.b@ == rhos[sum_inner(monomials, j) + k]@
        }),
{
    let chain = lay.chains@[j]@;
    assert(in_range(chain[k], ek.u@.len(), ek.v@.len()));
    if k > 0 {
        assert(in_range(chain[k - 1], ek.u@.len(), ek.v@.len()));
    }
}

} // verus!
