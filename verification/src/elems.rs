//! The fields `F_p`, `F_{p^2}` and `F_r` as plain limbs, with their arithmetic
//! from ark-ff and ark-bn254.
//!
//! An [`Fq`] is any four little-endian limbs; it stands for their integer
//! modulo `p`, so every value is valid. The arithmetic returns the limbs of the
//! least representative.
use crate::draws::Drawn;
use crate::nums;
use crate::ring;
use crate::ring::El;
use ark_ff::{BigInteger, Field as _, PrimeField, UniformRand};
use ark_std::rand::rngs::StdRng;
use ark_std::rand::RngCore;
use vstd::prelude::*;

verus! {

/// The generator that every sampler draws from.
#[verifier::external_type_specification]
#[verifier::external_body]
pub struct ExStdRng(StdRng);

// ------------------------------------------------------------ outside calls

/// `PrimeField::from_le_bytes_mod_order` of ark-ff, on `ark_bn254::Fq`: the
/// limbs of the bytes' integer modulo `p`.
#[verifier::external_body]
fn ark_fq_from_bytes(bytes: &[u8]) -> (res: [u64; 4])
    ensures
        nums::limbs_val(res@) == nums::bytes_val(bytes@) % ring::p(),
{
    ark_bn254::Fq::from_le_bytes_mod_order(bytes).into_bigint().0
}

/// `BigInteger::to_bytes_le` of ark-ff: the 32 bytes of the limbs' integer.
#[verifier::external_body]
fn ark_to_bytes(limbs: [u64; 4]) -> (res: Vec<u8>)
    ensures
        res@.len() == 32,
        nums::bytes_val(res@) == nums::limbs_val(limbs@),
{
    ark_ff::BigInt::<4>(limbs).to_bytes_le()
}

/// `BigInteger::to_bits_le` of ark-ff: the 256 binary digits of the limbs'
/// integer.
#[verifier::external_body]
fn ark_to_bits(limbs: [u64; 4]) -> (res: Vec<bool>)
    ensures
        res@.len() == 256,
        nums::bits_val(res@) == nums::limbs_val(limbs@),
{
    ark_ff::BigInt::<4>(limbs).to_bits_le()
}

/// `+` on `ark_bn254::Fq`: the sum modulo `p`.
#[verifier::external_body]
fn ark_fq_add(a: [u64; 4], b: [u64; 4]) -> (res: [u64; 4])
    ensures
        nums::limbs_val(res@) == (nums::limbs_val(a@) + nums::limbs_val(b@)) % ring::p(),
{
    let x = ark_bn254::Fq::from_le_bytes_mod_order(&ark_ff::BigInt::<4>(a).to_bytes_le());
    let y = ark_bn254::Fq::from_le_bytes_mod_order(&ark_ff::BigInt::<4>(b).to_bytes_le());
    (x + y).into_bigint().0
}

/// `-` on `ark_bn254::Fq`: the difference modulo `p`.
#[verifier::external_body]
fn ark_fq_sub(a: [u64; 4], b: [u64; 4]) -> (res: [u64; 4])
    ensures
        nums::limbs_val(res@) == (nums::limbs_val(a@) - nums::limbs_val(b@)) % ring::p(),
{
    let x = ark_bn254::Fq::from_le_bytes_mod_order(&ark_ff::BigInt::<4>(a).to_bytes_le());
    let y = ark_bn254::Fq::from_le_bytes_mod_order(&ark_ff::BigInt::<4>(b).to_bytes_le());
    (x - y).into_bigint().0
}

/// `*` on `ark_bn254::Fq`: the product modulo `p`.
#[verifier::external_body]
fn ark_fq_mul(a: [u64; 4], b: [u64; 4]) -> (res: [u64; 4])
    ensures
        nums::limbs_val(res@) == (nums::limbs_val(a@) * nums::limbs_val(b@)) % ring::p(),
{
    let x = ark_bn254::Fq::from_le_bytes_mod_order(&ark_ff::BigInt::<4>(a).to_bytes_le());
    let y = ark_bn254::Fq::from_le_bytes_mod_order(&ark_ff::BigInt::<4>(b).to_bytes_le());
    (x * y).into_bigint().0
}

/// Unary `-` on `ark_bn254::Fq`: the negation modulo `p`.
#[verifier::external_body]
fn ark_fq_neg(a: [u64; 4]) -> (res: [u64; 4])
    ensures
        nums::limbs_val(res@) == (-nums::limbs_val(a@)) % ring::p(),
{
    let x = ark_bn254::Fq::from_le_bytes_mod_order(&ark_ff::BigInt::<4>(a).to_bytes_le());
    (-x).into_bigint().0
}

/// `Field::inverse` of ark-ff on `ark_bn254::Fq`: nothing for a multiple of
/// `p`, and else the limbs of the inverse.
#[verifier::external_body]
fn ark_fq_inverse(a: [u64; 4]) -> (res: Option<[u64; 4]>)
    ensures
        res is None <==> nums::limbs_val(a@) % ring::p() == 0,
        res matches Some(y) ==> (nums::limbs_val(a@) * nums::limbs_val(y@)) % ring::p() == 1,
{
    let x = ark_bn254::Fq::from_le_bytes_mod_order(&ark_ff::BigInt::<4>(a).to_bytes_le());
    x.inverse().map(|y| y.into_bigint().0)
}

/// `Field::inverse` of ark-ff on `ark_bn254::Fq2`: nothing for zero, and else
/// the components of the inverse.
#[verifier::external_body]
fn ark_fq2_inverse(a: ([u64; 4], [u64; 4])) -> (res: Option<([u64; 4], [u64; 4])>)
    ensures
        res is None <==> (nums::limbs_val(a.0@) % ring::p() == 0 && nums::limbs_val(a.1@)
            % ring::p() == 0),
        res matches Some(y) ==> {
            &&& (nums::limbs_val(a.0@) * nums::limbs_val(y.0@) - nums::limbs_val(a.1@)
                * nums::limbs_val(y.1@)) % ring::p() == 1
            &&& (nums::limbs_val(a.0@) * nums::limbs_val(y.1@) + nums::limbs_val(a.1@)
                * nums::limbs_val(y.0@)) % ring::p() == 0
        },
{
    let c0 = ark_bn254::Fq::from_le_bytes_mod_order(&ark_ff::BigInt::<4>(a.0).to_bytes_le());
    let c1 = ark_bn254::Fq::from_le_bytes_mod_order(&ark_ff::BigInt::<4>(a.1).to_bytes_le());
    let y = ark_bn254::Fq2::new(c0, c1).inverse();
    y.map(|y| (y.c0.into_bigint().0, y.c1.into_bigint().0))
}

/// Whether `y0 + y1·η` squares to `a0 + a1·η`.
pub open spec fn squares_to(y0: int, y1: int, a0: int, a1: int) -> bool {
    &&& (y0 * y0 - y1 * y1) % ring::p() == a0 % ring::p()
    &&& (y0 * y1 + y1 * y0) % ring::p() == a1 % ring::p()
}

/// `Field::sqrt` of ark-ff on `ark_bn254::Fq2`: the components of a square root,
/// if one exists.
#[verifier::external_body]
fn ark_fq2_sqrt(a: ([u64; 4], [u64; 4])) -> (res: Option<([u64; 4], [u64; 4])>)
    ensures
        res matches Some(y) ==> squares_to(
            nums::limbs_val(y.0@),
            nums::limbs_val(y.1@),
            nums::limbs_val(a.0@),
            nums::limbs_val(a.1@),
        ),
        res is None ==> forall|y0: int, y1: int|
            !#[trigger] squares_to(y0, y1, nums::limbs_val(a.0@), nums::limbs_val(a.1@)),
{
    let c0 = ark_bn254::Fq::from_le_bytes_mod_order(&ark_ff::BigInt::<4>(a.0).to_bytes_le());
    let c1 = ark_bn254::Fq::from_le_bytes_mod_order(&ark_ff::BigInt::<4>(a.1).to_bytes_le());
    let y = ark_bn254::Fq2::new(c0, c1).sqrt();
    y.map(|y| (y.c0.into_bigint().0, y.c1.into_bigint().0))
}

/// `UniformRand::rand` of ark-ff for `ark_bn254::Fq`: the limbs of a random
/// element.
#[verifier::external_body]
fn ark_fq_rand(rng: &mut StdRng) -> (res: [u64; 4])
    ensures
        nums::limbs_val(res@) < ring::p(),
{
    ark_bn254::Fq::rand(rng).into_bigint().0
}

/// `UniformRand::rand` of ark-ff for `ark_bn254::Fq2`: the limbs of the two
/// components of a random element.
#[verifier::external_body]
fn ark_fq2_rand(rng: &mut StdRng) -> (res: ([u64; 4], [u64; 4]))
    ensures
        nums::limbs_val(res.0@) < ring::p(),
        nums::limbs_val(res.1@) < ring::p(),
{
    let x = ark_bn254::Fq2::rand(rng);
    (x.c0.into_bigint().0, x.c1.into_bigint().0)
}

/// `UniformRand::rand` of ark-ff for `ark_bn254::Fr`: the limbs of a random
/// scalar.
#[verifier::external_body]
fn ark_fr_rand(rng: &mut StdRng) -> (res: [u64; 4])
    ensures
        nums::limbs_val(res@) < ring::r(),
{
    ark_bn254::Fr::rand(rng).into_bigint().0
}

/// Unary `-` on `ark_bn254::Fr`: the negation modulo `r`.
#[verifier::external_body]
fn ark_fr_neg(a: [u64; 4]) -> (res: [u64; 4])
    ensures
        nums::limbs_val(res@) == (-nums::limbs_val(a@)) % ring::r(),
{
    let x = ark_bn254::Fr::from_le_bytes_mod_order(&ark_ff::BigInt::<4>(a).to_bytes_le());
    (-x).into_bigint().0
}

/// `+` on `ark_bn254::Fr`: the sum modulo `r`.
#[verifier::external_body]
fn ark_fr_add(a: [u64; 4], b: [u64; 4]) -> (res: [u64; 4])
    ensures
        nums::limbs_val(res@) == (nums::limbs_val(a@) + nums::limbs_val(b@)) % ring::r(),
{
    let x = ark_bn254::Fr::from_le_bytes_mod_order(&ark_ff::BigInt::<4>(a).to_bytes_le());
    let y = ark_bn254::Fr::from_le_bytes_mod_order(&ark_ff::BigInt::<4>(b).to_bytes_le());
    (x + y).into_bigint().0
}

/// `RngCore::next_u32` of rand.
#[verifier::external_body]
pub(crate) fn next_u32(rng: &mut StdRng) -> (res: u32) {
    rng.next_u32()
}

/// `RngCore::next_u64` of rand.
#[verifier::external_body]
pub(crate) fn next_u64(rng: &mut StdRng) -> (res: u64) {
    rng.next_u64()
}

// ------------------------------------------------------------------- draws

impl Drawn for u32 {
    /// The word came from the generator in the first state.
    closed spec fn drawn(before: StdRng, after: StdRng, x: u32) -> bool {
        exists|g: &mut StdRng|
            *g == before && #[trigger] call_ensures(next_u32, (g,), x)
    }
}

impl Drawn for u64 {
    /// The word came from the generator in the first state.
    closed spec fn drawn(before: StdRng, after: StdRng, x: u64) -> bool {
        exists|g: &mut StdRng|
            *g == before && #[trigger] call_ensures(next_u64, (g,), x)
    }
}

impl Drawn for Fq {
    /// The limbs are those of a random element, from the generator in the first state.
    closed spec fn drawn(before: StdRng, after: StdRng, x: Fq) -> bool {
        exists|g: &mut StdRng|
            *g == before && #[trigger] call_ensures(
                ark_fq_rand,
                (g,),
                x.limbs,
            )
    }
}

impl Drawn for Fq2 {
    /// The limbs of both components are those of a random element, from the generator in
    /// the first state.
    closed spec fn drawn(before: StdRng, after: StdRng, x: Fq2) -> bool {
        exists|g: &mut StdRng|
            *g == before && #[trigger] call_ensures(
                ark_fq2_rand,
                (g,),
                (x.c0.limbs, x.c1.limbs),
            )
    }
}

impl Drawn for Fr {
    /// The limbs are those of a random scalar, from the generator in the first state.
    closed spec fn drawn(before: StdRng, after: StdRng, x: Fr) -> bool {
        exists|g: &mut StdRng|
            *g == before && #[trigger] call_ensures(
                ark_fr_rand,
                (g,),
                x.limbs,
            )
    }
}

/// The generator's next 32 bits.
pub(crate) fn draw_u32(rng: &mut StdRng) -> (res: u32)
    ensures
        u32::drawn(*old(rng), *final(rng), res),
{
    next_u32(rng)
}

/// The generator's next 64 bits.
pub(crate) fn draw_u64(rng: &mut StdRng) -> (res: u64)
    ensures
        u64::drawn(*old(rng), *final(rng), res),
{
    next_u64(rng)
}

// ------------------------------------------------------------------- limbs

/// Whether two lists of limbs are the same.
fn same_limbs(a: &[u64; 4], b: &[u64; 4]) -> (res: bool)
    ensures
        res == (nums::limbs_val(a@) == nums::limbs_val(b@)),
{
    let res = a[0] == b[0] && a[1] == b[1] && a[2] == b[2] && a[3] == b[3];
    proof {
        if res {
            assert(a@ =~= b@);
        } else if nums::limbs_val(a@) == nums::limbs_val(b@) {
            nums::lemma_limbs_unique(a@, b@);
        }
    }
    res
}

// ---------------------------------------------------------------- the trait

/// The arithmetic of a coordinate field.
pub trait Field: View<V = El> + Copy + Drawn {
    /// Every value is a reduced element.
    proof fn lemma_view(self)
        ensures
            self@.reduced(),
    ;

    /// `self + y`.
    fn add(self, y: Self) -> (res: Self)
        ensures
            res@ == self@.plus(y@),
    ;

    /// `self − y`.
    fn sub(self, y: Self) -> (res: Self)
        ensures
            res@ == self@.minus(y@),
    ;

    /// `self·y`.
    fn mul(self, y: Self) -> (res: Self)
        ensures
            res@ == self@.times(y@),
    ;

    /// `−self`.
    fn neg(self) -> (res: Self)
        ensures
            res@ == self@.opp(),
    ;

    /// The inverse, or nothing for zero.
    fn inverse(self) -> (res: Option<Self>)
        ensures
            res is None <==> self@ == El::num(0),
            res matches Some(y) ==> self@.times(y@) == El::num(1),
    ;

    /// The integer `n` in the field.
    fn from_u64(n: u64) -> (res: Self)
        ensures
            res@ == El::num(n as int),
    ;

    /// Whether the element is zero.
    fn is_zero(&self) -> (res: bool)
        ensures
            res == (self@ == El::num(0)),
    ;

    /// Whether two elements are equal.
    fn equals(&self, y: &Self) -> (res: bool)
        ensures
            res == (self@ == y@),
    ;

    /// A random element: the next draw.
    fn rand(rng: &mut StdRng) -> (res: Self)
        ensures
            Self::drawn(*old(rng), *final(rng), res),
    ;
}

// ---------------------------------------------------------------------- Fq

/// An element of `F_p`: the integer of the limbs modulo `p`.
#[derive(Clone, Copy, Debug)]
pub struct Fq {
    /// Little-endian limbs.
    pub limbs: [u64; 4],
}

impl View for Fq {
    type V = El;

    open spec fn view(&self) -> El {
        El::num(nums::limbs_val(self.limbs@))
    }
}

impl Fq {
    /// The element with the given little-endian limbs.
    pub fn from_limbs(limbs: [u64; 4]) -> (res: Fq)
        ensures
            res@ == El::num(nums::limbs_val(limbs@)),
    {
        Fq { limbs }
    }

    /// The bytes' integer modulo `p`.
    pub fn from_le_bytes_mod_order(bytes: &[u8]) -> (res: Fq)
        ensures
            res@ == El::num(nums::bytes_val(bytes@)),
    {
        let limbs = ark_fq_from_bytes(bytes);
        proof {
            ring::lemma_num_mod(nums::bytes_val(bytes@));
        }
        Fq { limbs }
    }

    /// The 32 bytes of the least representative.
    pub fn to_bytes_le(self) -> (res: Vec<u8>)
        ensures
            res@.len() == 32,
            nums::bytes_val(res@) == self@.c0,
    {
        ark_to_bytes(self.reduce())
    }

    /// The limbs of the least representative.
    pub fn reduce(self) -> (res: [u64; 4])
        ensures
            nums::limbs_val(res@) == self@.c0,
    {
        let bytes = ark_to_bytes(self.limbs);
        ark_fq_from_bytes(bytes.as_slice())
    }

    /// Zero.
    pub fn zero() -> (res: Fq)
        ensures
            res@ == El::num(0),
    {
        <Fq as Field>::from_u64(0)
    }

    /// One.
    pub fn one() -> (res: Fq)
        ensures
            res@ == El::num(1),
    {
        <Fq as Field>::from_u64(1)
    }
}

impl Field for Fq {
    proof fn lemma_view(self) {
        ring::lemma_reduced(El { c0: nums::limbs_val(self.limbs@), c1: 0 }, self@);
    }

    fn add(self, y: Fq) -> (res: Fq) {
        proof {
            ring::lemma_num_ops(nums::limbs_val(self.limbs@), nums::limbs_val(y.limbs@));
        }
        Fq { limbs: ark_fq_add(self.limbs, y.limbs) }
    }

    fn sub(self, y: Fq) -> (res: Fq) {
        proof {
            ring::lemma_num_ops(nums::limbs_val(self.limbs@), nums::limbs_val(y.limbs@));
        }
        Fq { limbs: ark_fq_sub(self.limbs, y.limbs) }
    }

    fn mul(self, y: Fq) -> (res: Fq) {
        proof {
            ring::lemma_num_ops(nums::limbs_val(self.limbs@), nums::limbs_val(y.limbs@));
        }
        Fq { limbs: ark_fq_mul(self.limbs, y.limbs) }
    }

    fn neg(self) -> (res: Fq) {
        proof {
            ring::lemma_num_ops(nums::limbs_val(self.limbs@), 0);
        }
        Fq { limbs: ark_fq_neg(self.limbs) }
    }

    fn inverse(self) -> (res: Option<Fq>) {
        match ark_fq_inverse(self.limbs) {
            Some(limbs) => {
                proof {
                    let (x, y) = (nums::limbs_val(self.limbs@), nums::limbs_val(limbs@));
                    ring::lemma_num_ops(x, y);
                    ring::lemma_num_mod(x * y);
                }
                Some(Fq { limbs })
            },
            None => None,
        }
    }

    fn from_u64(n: u64) -> (res: Fq) {
        let limbs: [u64; 4] = [n, 0, 0, 0];
        proof {
            nums::lemma_limbs4(limbs@);
        }
        Fq { limbs }
    }

    fn is_zero(&self) -> (res: bool) {
        let limbs = self.reduce();
        let zero: [u64; 4] = [0, 0, 0, 0];
        proof {
            nums::lemma_limbs4(zero@);
        }
        same_limbs(&limbs, &zero)
    }

    fn equals(&self, y: &Fq) -> (res: bool) {
        same_limbs(&self.reduce(), &y.reduce())
    }

    /// A random element, as its least representative.
    fn rand(rng: &mut StdRng) -> (res: Fq)
        ensures
            nums::limbs_val(res.limbs@) < ring::p(),
    {
        let limbs = ark_fq_rand(rng);
        let res = Fq { limbs };
        assert(res.limbs == limbs);
        res
    }
}

impl PartialEq for Fq {
    fn eq(&self, other: &Fq) -> (res: bool) {
        self.equals(other)
    }
}

impl Eq for Fq {

}

impl vstd::std_specs::cmp::PartialEqSpecImpl for Fq {
    open spec fn obeys_eq_spec() -> bool {
        true
    }

    open spec fn eq_spec(&self, other: &Fq) -> bool {
        self@ == other@
    }
}

// --------------------------------------------------------------------- Fq2

/// The element `c0 + c1·η` of `F_{p^2}`, with `η² = −1`.
#[derive(Clone, Copy, Debug)]
pub struct Fq2 {
    /// The component `c0`.
    pub c0: Fq,
    /// The component `c1`.
    pub c1: Fq,
}

impl View for Fq2 {
    type V = El;

    open spec fn view(&self) -> El {
        El { c0: self.c0@.c0, c1: self.c1@.c0 }
    }
}

impl Fq2 {
    /// `c0 + c1·η`.
    pub fn new(c0: Fq, c1: Fq) -> (res: Fq2)
        ensures
            res@ == (El { c0: c0@.c0, c1: c1@.c0 }),
    {
        Fq2 { c0, c1 }
    }

    /// A square root, if one exists.
    pub(crate) fn sqrt(self) -> (res: Option<Fq2>)
        ensures
            res matches Some(y) ==> y@.times(y@) == self@,
            res is None ==> forall|y: El| #[trigger] y.reduced() ==> y.times(y) != self@,
    {
        let a = (self.c0.limbs, self.c1.limbs);
        match ark_fq2_sqrt(a) {
            Some(y) => {
                proof {
                    let e = El { c0: nums::limbs_val(y.0@), c1: nums::limbs_val(y.1@) };
                    ring::lemma_times_red(e, e);
                }
                Some(Fq2 { c0: Fq { limbs: y.0 }, c1: Fq { limbs: y.1 } })
            },
            None => {
                assert forall|y: El| #[trigger] y.reduced() implies y.times(y) != self@ by {
                    reveal(El::times);
                    assert(!squares_to(y.c0, y.c1, nums::limbs_val(a.0@), nums::limbs_val(a.1@)));
                }
                None
            },
        }
    }
}

impl Field for Fq2 {
    proof fn lemma_view(self) {
        self.c0.lemma_view();
        self.c1.lemma_view();
    }

    fn add(self, y: Fq2) -> (res: Fq2) {
        proof {
            ring::lemma_parts(self@, y@);
        }
        Fq2 { c0: self.c0.add(y.c0), c1: self.c1.add(y.c1) }
    }

    fn sub(self, y: Fq2) -> (res: Fq2) {
        proof {
            ring::lemma_parts(self@, y@);
        }
        Fq2 { c0: self.c0.sub(y.c0), c1: self.c1.sub(y.c1) }
    }

    fn mul(self, y: Fq2) -> (res: Fq2) {
        proof {
            ring::lemma_parts(self@, y@);
        }
        Fq2 {
            c0: self.c0.mul(y.c0).sub(self.c1.mul(y.c1)),
            c1: self.c0.mul(y.c1).add(self.c1.mul(y.c0)),
        }
    }

    fn neg(self) -> (res: Fq2) {
        proof {
            ring::lemma_parts(self@, self@);
        }
        Fq2 { c0: self.c0.neg(), c1: self.c1.neg() }
    }

    fn inverse(self) -> (res: Option<Fq2>) {
        match ark_fq2_inverse((self.c0.limbs, self.c1.limbs)) {
            Some(y) => {
                proof {
                    let e = El {
                        c0: nums::limbs_val(self.c0.limbs@),
                        c1: nums::limbs_val(self.c1.limbs@),
                    };
                    let f = El { c0: nums::limbs_val(y.0@), c1: nums::limbs_val(y.1@) };
                    ring::lemma_times_red(e, f);
                }
                Some(Fq2 { c0: Fq { limbs: y.0 }, c1: Fq { limbs: y.1 } })
            },
            None => None,
        }
    }

    fn from_u64(n: u64) -> (res: Fq2) {
        Fq2 { c0: Fq::from_u64(n), c1: Fq::from_u64(0) }
    }

    fn is_zero(&self) -> (res: bool) {
        proof {
            self.c0.lemma_view();
            self.c1.lemma_view();
        }
        self.c0.is_zero() && self.c1.is_zero()
    }

    fn equals(&self, y: &Fq2) -> (res: bool) {
        self.c0.equals(&y.c0) && self.c1.equals(&y.c1)
    }

    /// A random element, each component as its least representative.
    fn rand(rng: &mut StdRng) -> (res: Fq2)
        ensures
            nums::limbs_val(res.c0.limbs@) < ring::p(),
            nums::limbs_val(res.c1.limbs@) < ring::p(),
    {
        let limbs = ark_fq2_rand(rng);
        let res = Fq2 { c0: Fq { limbs: limbs.0 }, c1: Fq { limbs: limbs.1 } };
        assert((res.c0.limbs, res.c1.limbs) == limbs);
        res
    }
}

impl PartialEq for Fq2 {
    fn eq(&self, other: &Fq2) -> (res: bool) {
        self.equals(other)
    }
}

impl Eq for Fq2 {

}

impl vstd::std_specs::cmp::PartialEqSpecImpl for Fq2 {
    open spec fn obeys_eq_spec() -> bool {
        true
    }

    open spec fn eq_spec(&self, other: &Fq2) -> bool {
        self@ == other@
    }
}

// ---------------------------------------------------------------------- Fr

/// A scalar: the integer of the limbs modulo `r`.
#[derive(Clone, Copy, Debug)]
pub struct Fr {
    /// Little-endian limbs.
    pub limbs: [u64; 4],
}

impl View for Fr {
    type V = int;

    open spec fn view(&self) -> int {
        nums::limbs_val(self.limbs@) % ring::r()
    }
}

impl Fr {
    /// The scalar with the given little-endian limbs.
    pub fn from_limbs(limbs: [u64; 4]) -> (res: Fr)
        ensures
            res@ == nums::limbs_val(limbs@) % ring::r(),
    {
        Fr { limbs }
    }

    /// The integer `n` as a scalar.
    pub fn from_u64(n: u64) -> (res: Fr)
        ensures
            res@ == n,
    {
        let limbs: [u64; 4] = [n, 0, 0, 0];
        proof {
            nums::lemma_limbs4(limbs@);
        }
        Fr { limbs }
    }

    /// One.
    pub fn one() -> (res: Fr)
        ensures
            res@ == 1,
    {
        Fr::from_u64(1)
    }

    /// `self + y`.
    pub fn add(self, y: Fr) -> (res: Fr)
        ensures
            res@ == (self@ + y@) % ring::r(),
    {
        proof {
            nums::lemma_mod_ops(nums::limbs_val(self.limbs@), nums::limbs_val(y.limbs@), ring::r());
        }
        Fr { limbs: ark_fr_add(self.limbs, y.limbs) }
    }

    /// `−self`.
    pub fn neg(self) -> (res: Fr)
        ensures
            res@ == (-self@) % ring::r(),
    {
        proof {
            nums::lemma_mod_ops(nums::limbs_val(self.limbs@), 0, ring::r());
        }
        Fr { limbs: ark_fr_neg(self.limbs) }
    }

    /// Whether the scalar is zero.
    pub fn is_zero(&self) -> (res: bool)
        ensures
            res == (self@ == 0),
    {
        let limbs = ark_fr_neg(self.limbs);
        let zero: [u64; 4] = [0, 0, 0, 0];
        proof {
            nums::lemma_limbs4(zero@);
            let v = nums::limbs_val(self.limbs@);
            nums::lemma_mod_ops(v, 0, ring::r());
            nums::lemma_mod_ops(-v, 0, ring::r());
            assert(-(-v) == v);
        }
        same_limbs(&limbs, &zero)
    }

    /// The 256 binary digits of `−self`, least significant first.
    pub(crate) fn neg_bits(self) -> (res: Vec<bool>)
        ensures
            res@.len() == 256,
            nums::bits_val(res@) == (-self@) % ring::r(),
    {
        proof {
            nums::lemma_mod_ops(nums::limbs_val(self.limbs@), 0, ring::r());
        }
        ark_to_bits(ark_fr_neg(self.limbs))
    }

    /// A random scalar, as its least representative.
    pub fn rand(rng: &mut StdRng) -> (res: Fr)
        ensures
            Fr::drawn(*old(rng), *final(rng), res),
            nums::limbs_val(res.limbs@) < ring::r(),
    {
        let limbs = ark_fr_rand(rng);
        let res = Fr { limbs };
        assert(res.limbs == limbs);
        res
    }
}

/// Only a call of the generator shows a draw of 32 bits.
proof fn law_draw_is_a_call_u32(before: StdRng, after: StdRng, x: u32)
    requires
        u32::drawn(before, after, x),
    ensures
        exists|g: &mut StdRng| *g == before && #[trigger] call_ensures(next_u32, (g,), x),
{
}

/// Only a call of the generator shows a draw of 64 bits.
proof fn law_draw_is_a_call_u64(before: StdRng, after: StdRng, x: u64)
    requires
        u64::drawn(before, after, x),
    ensures
        exists|g: &mut StdRng| *g == before && #[trigger] call_ensures(next_u64, (g,), x),
{
}

/// Only a call of the generator shows a draw of an element of `F_p`.
proof fn law_draw_is_a_call_fq(before: StdRng, after: StdRng, x: Fq)
    requires
        Fq::drawn(before, after, x),
    ensures
        exists|g: &mut StdRng| *g == before && #[trigger] call_ensures(ark_fq_rand, (g,), x.limbs),
{
}

/// Only a call of the generator shows a draw of an element of `F_{p^2}`.
proof fn law_draw_is_a_call_fq2(before: StdRng, after: StdRng, x: Fq2)
    requires
        Fq2::drawn(before, after, x),
    ensures
        exists|g: &mut StdRng| *g == before && #[trigger] call_ensures(ark_fq2_rand, (g,), (x.c0.limbs, x.c1.limbs)),
{
}

/// Only a call of the generator shows a draw of a scalar.
proof fn law_draw_is_a_call_fr(before: StdRng, after: StdRng, x: Fr)
    requires
        Fr::drawn(before, after, x),
    ensures
        exists|g: &mut StdRng| *g == before && #[trigger] call_ensures(ark_fr_rand, (g,), x.limbs),
{
}

} // verus!
