//! `Π_bin`: the scheme over bits.
//!
//! The evaluator's input is eight 256-bit blocks: two each for `A` and `C`,
//! four for `B` (the two `F_p` components of each `F_{p^2}` coordinate). The
//! map `ι_bin` reads each block as an integer and reduces it modulo `p`,
//! so an out-of-range block is reduced rather than rejected.
//!
//! `Π_2` garbles the field-layer encoding function, a vector of affine maps
//! `a·x + b`: one Duty-Free Bits instance per `F_p` coordinate. An
//! `F_{p^2}`-affine label `a·(x_0 + η x_1) + b` (`η² = −1`) splits as
//! `(a x_0 + T) + ((aη) x_1 + (b − T))` for uniform `T`, giving two `F_p`-affine
//! labels per component, which the evaluator adds back together.
//!
//! Each instance computes `a·X + b` over the CRT ring `Z_M`. To hide the
//! integer quotient `⌊(a·X + b)/p⌋ < 2^256`, the garbler smudges every offset
//! as `b + μ·p` for uniform `μ ∈ [0, 2^MU_BITS)`; the evaluator reduces the
//! reconstructed integer mod `p`. This hides the quotient to distance `2^-ρ`
//! per label, `ρ = MU_BITS − W` ([`RHO`]). The no-wrap bound is
//! `p·(2^MU_BITS + 2^W + 1) < M` ([`law_no_wrap`]).
//!
//! This module holds what goes into the instances ([`BitEncoder::block_maps`],
//! [`BitEncoder::residues`]) and what becomes of the integers that come out
//! ([`BitEncoder::decode`], [`BitEncoder::assemble`]).
//!
//! `ι_bin` reads each block least-significant-bit first; a deployed verifier's
//! own serialization convention is a proof-format concern, not this scheme's.
use crate::curve;
use crate::curve::{block_to_fq, fq_limbs, fq_to_block, p_limbs, Secret};
use crate::draws;
use crate::elems::{draw_u64, Field, Fq, Fq2};
use crate::field::{FieldEncoding, FieldEncodingInfo, FieldLayout, FieldScheme, ProofCoords};
use crate::group;
use crate::group::GroupProgram;
use crate::groups;
use crate::itpg::{Affine, CoordValues};
use crate::nums;
use crate::pgs::{Pgs, PublicMap};
use crate::points;
use crate::points::Pt;
use crate::primorial;
use crate::ring;
use crate::ring::El;
use ark_ff::BigInteger;
use ark_std::rand::rngs::StdRng;
use vstd::array::array_as_slice;
use vstd::prelude::*;

pub use crate::primorial::FIRST_82_PRIMES;

verus! {

/// Bits per block, `w = 256 ≥ ⌈lg p⌉`.
pub const W: usize = 256;

/// Bits of the smudging factor `μ`. The sampler masks the top limb of a five-limb
/// `μ`, which takes a range between `2^256` and `2^320`.
pub const MU_BITS: usize = 310;

/// The statistical smudging parameter `ρ = MU_BITS − W`: the integer quotient of
/// each label is hidden up to statistical distance `2^-ρ`.
pub const RHO: usize = MU_BITS - W;

/// The base-field entry count of the field layer's encoding,
/// `N_base = 12n + 60κ + 30`, computed from the same `n`, `κ` constants that the
/// group layer uses, so the two cannot silently drift apart.
pub const N_BASE: usize = 12 * group::N + 60 * group::KAPPA + 30;

/// Number of blocks.
pub const NUM_BLOCKS: usize = 8;

// ------------------------------------------------------------------- blocks

/// The eight blocks, in the order used throughout this module.
#[derive(Clone, Copy, Debug, PartialEq, Eq, Structural)]
pub enum Block {
    /// `A_u`.
    AU,
    /// `A_v`.
    AV,
    /// The `F_p` component `c_0` of `B_u`.
    BU0,
    /// The component `c_1` of `B_u`.
    BU1,
    /// `c_0` of `B_v`.
    BV0,
    /// `c_1` of `B_v`.
    BV1,
    /// `C_u`.
    CU,
    /// `C_v`.
    CV,
}

/// A proof as bits: eight little-endian 256-bit blocks.
#[derive(Clone, Copy, Debug, PartialEq, Eq)]
pub struct ProofBits {
    /// The blocks, indexed by [`Block`].
    pub blocks: [[u8; 32]; 8],
}

/// The number with the given binary words, least significant first.
pub open spec fn words_val(s: Seq<u64>) -> int
    decreases s.len(),
{
    if s.len() == 0 {
        0
    } else {
        s[0] as int + 2 * words_val(s.skip(1))
    }
}

/// Eight more words on top, of a byte.
proof fn lemma_words_append(s: Seq<u64>, t: Seq<u64>)
    ensures
        words_val(s + t) == words_val(s) + nums::pow(2, s.len()) * words_val(t),
    decreases s.len(),
{
    if s.len() == 0 {
        assert(s + t =~= t);
    } else {
        lemma_words_append(s.skip(1), t);
        assert((s + t).skip(1) =~= s.skip(1) + t);
        assert((s + t)[0] == s[0]);
        let q = nums::pow(2, s.skip(1).len());
        vstd::arithmetic::mul::lemma_mul_is_associative(2, q, words_val(t));
        vstd::arithmetic::mul::lemma_mul_is_distributive_add(
            2,
            words_val(s.skip(1)),
            q * words_val(t),
        );
    }
}

/// The eight words of a byte.
pub open spec fn byte_words(b: u8) -> Seq<u64> {
    Seq::new(8, |j: int| ((b >> (j as u8)) & 1) as u64)
}

proof fn lemma_byte_words(b: u8)
    ensures
        words_val(byte_words(b)) == b,
{
    let s = byte_words(b);
    let (b0, b1, b2, b3, b4, b5, b6, b7) = (
        (b >> 0u8) & 1,
        (b >> 1u8) & 1,
        (b >> 2u8) & 1,
        (b >> 3u8) & 1,
        (b >> 4u8) & 1,
        (b >> 5u8) & 1,
        (b >> 6u8) & 1,
        (b >> 7u8) & 1,
    );
    assert(b == b0 + 2 * b1 + 4 * b2 + 8 * b3 + 16 * b4 + 32 * b5 + 64 * b6 + 128 * b7)
        by (bit_vector)
        requires
            b0 == (b >> 0u8) & 1,
            b1 == (b >> 1u8) & 1,
            b2 == (b >> 2u8) & 1,
            b3 == (b >> 3u8) & 1,
            b4 == (b >> 4u8) & 1,
            b5 == (b >> 5u8) & 1,
            b6 == (b >> 6u8) & 1,
            b7 == (b >> 7u8) & 1,
    ;
    let t1 = s.skip(1);
    let t2 = t1.skip(1);
    let t3 = t2.skip(1);
    let t4 = t3.skip(1);
    let t5 = t4.skip(1);
    let t6 = t5.skip(1);
    let t7 = t6.skip(1);
    reveal_with_fuel(words_val, 9);
    assert(t7.skip(1).len() == 0);
    assert(t1[0] == s[1] && t2[0] == s[2] && t3[0] == s[3] && t4[0] == s[4] && t5[0] == s[5]
        && t6[0] == s[6] && t7[0] == s[7]);
}

impl ProofBits {
    /// The canonical blocks of a proof given as coordinates.
    pub fn from_coords(x: &ProofCoords) -> (res: Self)
        ensures
            res.holds(*x),
            nums::bytes_val(res.blocks@[0]@) == x.a.0@.c0,
            nums::bytes_val(res.blocks@[1]@) == x.a.1@.c0,
            nums::bytes_val(res.blocks@[2]@) == x.b.0@.c0,
            nums::bytes_val(res.blocks@[3]@) == x.b.0@.c1,
            nums::bytes_val(res.blocks@[4]@) == x.b.1@.c0,
            nums::bytes_val(res.blocks@[5]@) == x.b.1@.c1,
            nums::bytes_val(res.blocks@[6]@) == x.c.0@.c0,
            nums::bytes_val(res.blocks@[7]@) == x.c.1@.c0,
    {
        Self {
            blocks: [
                fq_to_block(x.a.0),
                fq_to_block(x.a.1),
                fq_to_block(x.b.0.c0),
                fq_to_block(x.b.0.c1),
                fq_to_block(x.b.1.c0),
                fq_to_block(x.b.1.c1),
                fq_to_block(x.c.0),
                fq_to_block(x.c.1),
            ],
        }
    }

    /// The integer of block `i`.
    pub open spec fn block_val(self, i: int) -> int {
        nums::bytes_val(self.blocks@[i]@)
    }

    /// Whether the blocks are the canonical ones of the coordinates.
    pub open spec fn holds(self, x: ProofCoords) -> bool {
        &&& self.block_val(0) == x.a.0@.c0
        &&& self.block_val(1) == x.a.1@.c0
        &&& self.block_val(2) == x.b.0@.c0
        &&& self.block_val(3) == x.b.0@.c1
        &&& self.block_val(4) == x.b.1@.c0
        &&& self.block_val(5) == x.b.1@.c1
        &&& self.block_val(6) == x.c.0@.c0
        &&& self.block_val(7) == x.c.1@.c0
    }

    /// The bits of block `i`, least significant first, as `0`/`1` words.
    pub fn bits(&self, i: usize) -> (res: Vec<u64>)
        requires
            i < NUM_BLOCKS,
        ensures
            res@.len() == W,
            forall|n: int|
                0 <= n < W ==> #[trigger] res@[n] == ((self.blocks@[i as int]@[n / 8] >> ((n % 8) as u8))
                    & 1) as u64,
            words_val(res@) == self.block_val(i as int),
    {
        let block = self.blocks[i];
        let mut res: Vec<u64> = Vec::new();
        for k in 0..32
            invariant
                block@ == self.blocks@[i as int]@,
                res@.len() == 8 * k,
                forall|n: int|
                    0 <= n < 8 * k ==> #[trigger] res@[n] == ((block@[n / 8] >> ((n % 8) as u8))
                        & 1) as u64,
                words_val(res@) == nums::bytes_val(block@.take(k as int)),
        {
            let ghost before = res@;
            let byte = block[k];
            for j in 0..8
                invariant
                    block@ == self.blocks@[i as int]@,
                    byte == block@[k as int],
                    k < 32,
                    before.len() == 8 * k,
                    res@ =~= before + byte_words(byte).take(j as int),
            {
                let bit: u8 = (byte >> (j as u8)) & 1;
                res.push(bit as u64);
            }
            proof {
                let words = byte_words(byte);
                assert(words.take(8) =~= words);
                lemma_words_append(before, words);
                lemma_byte_words(byte);
                let now = block@.take(k + 1);
                nums::lemma_bytes_split(now, k as int);
                assert(now.take(k as int) =~= block@.take(k as int));
                assert(now.skip(k as int) =~= seq![byte]);
                assert(nums::bytes_val(seq![byte]) == byte) by {
                    reveal_with_fuel(nums::bytes_val, 2);
                    assert(seq![byte].skip(1).len() == 0);
                }
                lemma_pow_bytes(k as nat);
                assert forall|n: int| 0 <= n < 8 * (k + 1) implies #[trigger] res@[n] == ((block@[n
                    / 8] >> ((n % 8) as u8)) & 1) as u64 by {
                    if n >= 8 * k {
                        assert(n / 8 == k && n % 8 == n - 8 * k);
                        assert(res@[n] == words[n - 8 * k]);
                    } else {
                        assert(res@[n] == before[n]);
                    }
                }
            }
        }
        assert(block@.take(32) =~= block@);
        res
    }
}

/// `256^k = 2^(8k)`.
proof fn lemma_pow_bytes(k: nat)
    ensures
        nums::pow(256, k) == nums::pow(2, 8 * k),
    decreases k,
{
    if k > 0 {
        lemma_pow_bytes((k - 1) as nat);
        assert(8 * k == 8 + 8 * (k - 1) as nat);
        nums::lemma_pow_add(2, 8, 8 * (k - 1) as nat);
        assert(nums::pow(2, 8) == 256) by {
            reveal_with_fuel(nums::pow, 9);
        }
    }
}

/// The map `ι_bin`: blocks to coordinates, reducing each block modulo `p`.
#[derive(Clone, Copy, Debug)]
pub struct BinToField;

impl Default for BinToField {
    fn default() -> (res: Self)
        ensures
            res == BinToField,
    {
        BinToField
    }
}

impl PublicMap<ProofBits, ProofCoords> for BinToField {
    open spec fn maps(&self, x: ProofBits, y: ProofCoords) -> bool {
        &&& y.a.0@ == El::num(x.block_val(0))
        &&& y.a.1@ == El::num(x.block_val(1))
        &&& y.b.0.c0@ == El::num(x.block_val(2))
        &&& y.b.0.c1@ == El::num(x.block_val(3))
        &&& y.b.1.c0@ == El::num(x.block_val(4))
        &&& y.b.1.c1@ == El::num(x.block_val(5))
        &&& y.c.0@ == El::num(x.block_val(6))
        &&& y.c.1@ == El::num(x.block_val(7))
    }

    fn apply(&self, x: &ProofBits) -> (res: ProofCoords) {
        ProofCoords {
            a: (block_to_fq(&x.blocks[0]), block_to_fq(&x.blocks[1])),
            b: (
                Fq2::new(block_to_fq(&x.blocks[2]), block_to_fq(&x.blocks[3])),
                Fq2::new(block_to_fq(&x.blocks[4]), block_to_fq(&x.blocks[5])),
            ),
            c: (block_to_fq(&x.blocks[6]), block_to_fq(&x.blocks[7])),
        }
    }
}

/// Whether two proofs have the same coordinates.
pub open spec fn same_coords(x: ProofCoords, y: ProofCoords) -> bool {
    &&& x.a.0@ == y.a.0@ && x.a.1@ == y.a.1@
    &&& x.b.0@ == y.b.0@ && x.b.1@ == y.b.1@
    &&& x.c.0@ == y.c.0@ && x.c.1@ == y.c.1@
}

/// `ι_bin` takes the canonical blocks of a proof back to it.
pub proof fn law_bits_round_trip(x: ProofCoords, bits: ProofBits, y: ProofCoords)
    requires
        bits.holds(x),
        BinToField.maps(bits, y),
    ensures
        same_coords(x, y),
{
    x.a.0.lemma_view();
    x.a.1.lemma_view();
    x.b.0.c0.lemma_view();
    x.b.0.c1.lemma_view();
    x.b.1.c0.lemma_view();
    x.b.1.c1.lemma_view();
    x.c.0.lemma_view();
    x.c.1.lemma_view();
    ring::lemma_red_id(x.a.0@);
    ring::lemma_red_id(x.a.1@);
    ring::lemma_red_id(x.b.0@);
    ring::lemma_red_id(x.b.1@);
    ring::lemma_red_id(x.c.0@);
    ring::lemma_red_id(x.c.1@);
}

// ------------------------------------------------------------- small moduli

/// `limbs` (little-endian) modulo a small prime.
pub fn mod_small(limbs: &[u64], p: u64) -> (res: u64)
    requires
        p > 0,
    ensures
        res == nums::limbs_val(limbs@) % (p as int),
{
    let m: u128 = p as u128;
    let mut acc: u128 = 0;
    let mut i: usize = limbs.len();
    proof {
        assert(limbs@.skip(i as int) =~= Seq::empty());
        vstd::arithmetic::div_mod::lemma_small_mod(0, p as nat);
    }
    while i > 0
        invariant
            m == p,
            p > 0,
            i <= limbs@.len(),
            acc == nums::limbs_val(limbs@.skip(i as int)) % (p as int),
            acc < p,
        decreases i,
    {
        i = i - 1;
        proof {
            let (rest, now) = (limbs@.skip(i + 1), limbs@.skip(i as int));
            let b = 0x1_0000_0000_0000_0000int;
            assert(now.skip(1) =~= rest);
            assert(now[0] == limbs@[i as int]);
            nums::lemma_mod_ops(b, nums::limbs_val(rest), p as int);
            nums::lemma_mod_ops(limbs@[i as int] as int, b * nums::limbs_val(rest), p as int);
            nums::lemma_mod_ops(limbs@[i as int] as int, b * (acc as int), p as int);
            vstd::arithmetic::mul::lemma_mul_is_commutative(b, acc as int);
            nums::lemma_mod_ops(b, acc as int, p as int);
        }
        acc = (acc * 0x1_0000_0000_0000_0000u128 + limbs[i] as u128) % m;
    }
    assert(limbs@.skip(0) =~= limbs@);
    acc as u64
}

// --------------------------------------------------------------- affine maps

/// The affine maps `(a_j, b_j)` of one instance.
pub type Maps = Vec<(Fq, Fq)>;

/// The affine maps `(a, b)` of `F_p` labels.
pub fn maps_fq(labels: &[Affine<Fq>]) -> (res: Maps)
    ensures
        are_maps_of(res@, labels@),
{
    let mut res: Maps = Vec::new();
    for j in 0..labels.len()
        invariant
            res@.len() == j,
            forall|i: int| 0 <= i < j ==> #[trigger] res@[i] == (labels@[i].a, labels@[i].b),
    {
        res.push((labels[j].a, labels[j].b));
    }
    res
}

/// Whether these are the maps of `F_p` labels, one each.
pub open spec fn are_maps_of(maps: Seq<(Fq, Fq)>, labels: Seq<Affine<Fq>>) -> bool {
    &&& maps.len() == labels.len()
    &&& forall|i: int| 0 <= i < labels.len() ==> #[trigger] maps[i] == (labels[i].a, labels[i].b)
}

/// Whether these are the maps of `F_{p^2}` labels, split by `T_j`: on `x_0` the
/// components of `a·x_0 + T`, on `x_1` those of `(a·η)·x_1 + (b − T)`.
pub open spec fn are_halves_of(
    on_x0: Seq<(Fq, Fq)>,
    on_x1: Seq<(Fq, Fq)>,
    labels: Seq<Affine<Fq2>>,
    ts: Seq<Fq2>,
) -> bool {
    &&& on_x0.len() == 2 * labels.len()
    &&& on_x1.len() == 2 * labels.len()
    &&& forall|j: int|
        #![trigger labels[j]]
        0 <= j < labels.len() ==> {
            let (l, t) = (labels[j], ts[j]);
            let rest = l.b@.minus(t@);
            &&& on_x0[2 * j] == (l.a.c0, t.c0)
            &&& on_x0[2 * j + 1] == (l.a.c1, t.c1)
            &&& on_x1[2 * j].0@ == l.a.c1@.opp()
            &&& on_x1[2 * j].1@ == El::num(rest.c0)
            &&& on_x1[2 * j + 1].0 == l.a.c0
            &&& on_x1[2 * j + 1].1@ == El::num(rest.c1)
        }
}

/// [`split_fq2`] with the random elements given.
pub fn split_fq2_with(labels: &[Affine<Fq2>], ts: &[Fq2]) -> (res: (Maps, Maps))
    requires
        ts@.len() == labels@.len(),
    ensures
        are_halves_of(res.0@, res.1@, labels@, ts@),
        res.0@.len() == 2 * labels@.len() && res.1@.len() == 2 * labels@.len(),
        forall|j: int|
            #![trigger labels@[j]]
            0 <= j < labels@.len() ==> {
                &&& res.0@[2 * j].0@ == labels@[j].a.c0@
                &&& res.0@[2 * j + 1].0@ == labels@[j].a.c1@
                &&& res.0@[2 * j].1@ == ts@[j].c0@
                &&& res.0@[2 * j + 1].1@ == ts@[j].c1@
            },
{
    let mut on_x0: Maps = Vec::new();
    let mut on_x1: Maps = Vec::new();
    for j in 0..labels.len()
        invariant
            ts@.len() == labels@.len(),
            on_x0@.len() == 2 * j,
            on_x1@.len() == 2 * j,
            forall|i: int|
                #![trigger labels@[i]]
                0 <= i < j ==> {
                    let (l, t) = (labels@[i], ts@[i]);
                    let rest = l.b@.minus(t@);
                    &&& on_x0@[2 * i] == (l.a.c0, t.c0)
                    &&& on_x0@[2 * i + 1] == (l.a.c1, t.c1)
                    &&& on_x1@[2 * i].0@ == l.a.c1@.opp()
                    &&& on_x1@[2 * i].1@ == El::num(rest.c0)
                    &&& on_x1@[2 * i + 1].0 == l.a.c0
                    &&& on_x1@[2 * i + 1].1@ == El::num(rest.c1)
                },
    {
        let l = labels[j];
        let t = ts[j];
        let rest = l.b.sub(t);
        proof {
            rest.c0.lemma_view();
            rest.c1.lemma_view();
            ring::lemma_red_id(rest.c0@);
            ring::lemma_red_id(rest.c1@);
        }
        // a·x_0 + T, in components.
        on_x0.push((l.a.c0, t.c0));
        on_x0.push((l.a.c1, t.c1));
        // (a·η)·x_1 + (b − T), with a·η = −a_1 + a_0·η since η² = −1.
        on_x1.push((l.a.c1.neg(), rest.c0));
        on_x1.push((l.a.c0, rest.c1));
    }
    (on_x0, on_x1)
}

/// Whether the halves are those that the next draws give, one for each label.
pub open spec fn split_by(
    before: StdRng,
    after: StdRng,
    on_x0: Seq<(Fq, Fq)>,
    on_x1: Seq<(Fq, Fq)>,
    labels: Seq<Affine<Fq2>>,
) -> bool {
    exists|ts: Seq<Fq2>|
        ts.len() == labels.len() && #[trigger] are_halves_of(on_x0, on_x1, labels, ts)
            && draws::draws(before, after, ts)
}

/// Split `F_{p^2}` labels into `F_p` maps on the components `x_0` and `x_1`.
/// Label `j` becomes maps `2j, 2j+1` on each component (the two components of each half).
pub fn split_fq2(rng: &mut StdRng, labels: &[Affine<Fq2>]) -> (res: (Maps, Maps))
    ensures
        exists|ts: Seq<Fq2>|
            ts.len() == labels@.len() && #[trigger] are_halves_of(res.0@, res.1@, labels@, ts),
        split_by(*old(rng), *final(rng), res.0@, res.1@, labels@),
        exists|ts: Seq<Fq2>|
            {
                &&& #[trigger] draws::draws(*old(rng), *final(rng), ts)
                &&& ts.len() == labels@.len()
                &&& are_halves_of(res.0@, res.1@, labels@, ts)
            },
{
    let ghost start = *rng;
    let mut ts: Vec<Fq2> = Vec::new();
    for j in 0..labels.len()
        invariant
            ts@.len() == j,
            draws::draws(start, *rng, ts@),
    {
        let ghost before = *rng;
        let t = Fq2::rand(rng);
        proof {
            draws::lemma_one_more(start, before, *rng, ts@, t);
        }
        ts.push(t);
    }
    split_fq2_with(labels, ts.as_slice())
}

/// The halves of a split label sum to it: on `x = x_0 + η·x_1`, the value of the
/// label is that of its maps on `x_0` plus that of its maps on `x_1`, in components.
pub proof fn law_halves_sum_to_the_label(
    on_x0: Seq<(Fq, Fq)>,
    on_x1: Seq<(Fq, Fq)>,
    labels: Seq<Affine<Fq2>>,
    ts: Seq<Fq2>,
    j: int,
    x: El,
)
    requires
        are_halves_of(on_x0, on_x1, labels, ts),
        0 <= j < labels.len(),
        x.reduced(),
    ensures
        ({
            let half0 = |k: int| on_x0[k].0@.times(El::num(x.c0)).plus(on_x0[k].1@);
            let half1 = |k: int| on_x1[k].0@.times(El::num(x.c1)).plus(on_x1[k].1@);
            labels[j].value(x) == (El {
                c0: half0(2 * j).plus(half1(2 * j)).c0,
                c1: half0(2 * j + 1).plus(half1(2 * j + 1)).c0,
            })
        }),
{
    let (l, t) = (labels[j], ts[j]);
    let (a, b) = (l.a@, l.b@);
    let rest = b.minus(t@);
    l.a.c0.lemma_view();
    l.a.c1.lemma_view();
    t.c0.lemma_view();
    t.c1.lemma_view();
    l.b.c0.lemma_view();
    l.b.c1.lemma_view();
    let (a0, a1) = (l.a.c0@, l.a.c1@);
    let (x0, x1) = (El::num(x.c0), El::num(x.c1));
    // the label by components
    ring::lemma_parts(a, x);
    ring::lemma_parts(a.times(x), b);
    ring::lemma_parts(b, t@);
    ring::lemma_red_id(a0);
    ring::lemma_red_id(a1);
    ring::lemma_red_id(t.c0@);
    ring::lemma_red_id(t.c1@);
    ring::lemma_red_id(l.b.c0@);
    ring::lemma_red_id(l.b.c1@);
    assert(El::num(a.c0) == a0 && El::num(a.c1) == a1);
    let (t0, t1, b0, b1) = (t.c0@, t.c1@, l.b.c0@, l.b.c1@);
    let (r0, r1) = (El::num(rest.c0), El::num(rest.c1));
    lemma_real_part(b0, t0);
    lemma_real_part(b1, t1);
    assert(r0 == b0.minus(t0) && r1 == b1.minus(t1));
    // first components: a0·x0 − a1·x1 + b0
    let (p, q) = (a0.times(x0), a1.times(x1));
    ring::lemma_times_opp(x1, a1);
    ring::lemma_times_comm(x1, a1);
    lemma_halves(p, q.opp(), t0, b0);
    ring::lemma_minus_opp(p, q);
    lemma_real_product(a0, x0);
    lemma_real_product(a1, x1);
    lemma_real_part(p, q);
    lemma_real_sum(p.minus(q), b0);
    // second components: a1·x0 + a0·x1 + b1
    let (u, v) = (a1.times(x0), a0.times(x1));
    lemma_halves(u, v, t1, b1);
    lemma_real_product(a1, x0);
    lemma_real_product(a0, x1);
    ring::lemma_plus_comm(u, v);
    lemma_real_sum(v, u);
    lemma_real_sum(v.plus(u), b1);
}

/// `(p + t) + (q + (b − t)) = (p + q) + b`.
proof fn lemma_halves(p: El, q: El, t: El, b: El)
    requires
        b.reduced(),
    ensures
        p.plus(t).plus(q.plus(b.minus(t))) == p.plus(q).plus(b),
{
    ring::lemma_plus_swap(p, t, q, b.minus(t));
    ring::lemma_plus_comm(t, b.minus(t));
    ring::lemma_minus_plus(b, t);
}

/// A difference of elements of `F_p` is one.
proof fn lemma_real_part(x: El, y: El)
    requires
        x.reduced(),
        y.reduced(),
        x.c1 == 0,
        y.c1 == 0,
    ensures
        x.minus(y).c1 == 0,
        El::num(x.minus(y).c0) == x.minus(y),
{
    ring::lemma_ops(x, y, 0);
    ring::lemma_reduced(x, y);
    ring::lemma_red_id(x.minus(y));
}

/// A sum of elements of `F_p` is one.
proof fn lemma_real_sum(x: El, y: El)
    requires
        x.reduced(),
        y.reduced(),
        x.c1 == 0,
        y.c1 == 0,
    ensures
        x.plus(y).c1 == 0,
        x.plus(y).reduced(),
        El::num(x.plus(y).c0) == x.plus(y),
{
    ring::lemma_ops(x, y, 0);
    ring::lemma_reduced(x, y);
    ring::lemma_red_id(x.plus(y));
}

/// A product of elements of `F_p` is one.
proof fn lemma_real_product(x: El, y: El)
    requires
        x.reduced(),
        y.reduced(),
        x.c1 == 0,
        y.c1 == 0,
    ensures
        x.times(y).c1 == 0,
        x.times(y).reduced(),
        El::num(x.times(y).c0) == x.times(y),
{
    ring::lemma_ops(x, y, 0);
    ring::lemma_reduced(x, y);
    ring::lemma_red_id(x.times(y));
    vstd::arithmetic::mul::lemma_mul_by_zero_is_zero(x.c0);
    vstd::arithmetic::mul::lemma_mul_by_zero_is_zero(y.c0);
}

// ----------------------------------------------------------------- smudging

/// Whether the smudging factors are those of the next draws: five words each, least
/// significant first, cut to `MU_BITS` bits.
pub open spec fn mus_drawn(before: StdRng, after: StdRng, mus: Seq<[u64; 5]>) -> bool {
    exists|words: Seq<u64>|
        {
            &&& #[trigger] draws::draws(before, after, words)
            &&& words.len() == 5 * mus.len()
            &&& forall|j: int|
                0 <= j < mus.len() ==> nums::limbs_val((#[trigger] mus[j])@) == nums::limbs_val(
                    words.subrange(5 * j, 5 * j + 5),
                ) % nums::pow(2, MU_BITS as nat)
        }
}

/// A random smudging factor per map: five limbs, the top one cut to `ρ` bits.
pub fn sample_mus(rng: &mut StdRng, n: usize) -> (res: Vec<[u64; 5]>)
    ensures
        res@.len() == n,
        forall|j: int| 0 <= j < n ==> is_smudging_factor(#[trigger] res@[j]),
        mus_drawn(*old(rng), *final(rng), res@),
        exists|words: Seq<u64>|
            {
                &&& #[trigger] draws::draws(*old(rng), *final(rng), words)
                &&& words.len() == 5 * n
                &&& forall|j: int|
                    0 <= j < n ==> nums::limbs_val((#[trigger] res@[j])@) == nums::limbs_val(
                        words.subrange(5 * j, 5 * j + 5),
                    ) % nums::pow(2, 310)
            },
{
    let ghost start = *rng;
    let ghost mut words: Seq<u64> = Seq::empty();
    let mut mus: Vec<[u64; 5]> = Vec::new();
    for j in 0..n
        invariant
            mus@.len() == j,
            forall|i: int| 0 <= i < j ==> is_smudging_factor(#[trigger] mus@[i]),
            words.len() == 5 * j,
            draws::draws(start, *rng, words),
            forall|i: int|
                0 <= i < j ==> nums::limbs_val((#[trigger] mus@[i])@) == nums::limbs_val(
                    words.subrange(5 * i, 5 * i + 5),
                ) % nums::pow(2, MU_BITS as nat),
    {
        let ghost (g0, before) = (*rng, words);
        let l0: u64 = draw_u64(rng);
        let ghost g1 = *rng;
        let l1: u64 = draw_u64(rng);
        let ghost g2 = *rng;
        let l2: u64 = draw_u64(rng);
        let ghost g3 = *rng;
        let l3: u64 = draw_u64(rng);
        let ghost g4 = *rng;
        let l4: u64 = draw_u64(rng);
        let limbs = [l0, l1, l2, l3, l4];
        let ghost earlier = mus@;
        mus.push(cut_mu(limbs));
        proof {
            draws::lemma_one_more(start, g0, g1, words, l0);
            draws::lemma_one_more(start, g1, g2, words.push(l0), l1);
            draws::lemma_one_more(start, g2, g3, words.push(l0).push(l1), l2);
            draws::lemma_one_more(start, g3, g4, words.push(l0).push(l1).push(l2), l3);
            draws::lemma_one_more(start, g4, *rng, words.push(l0).push(l1).push(l2).push(l3), l4);
            words = words.push(l0).push(l1).push(l2).push(l3).push(l4);
            assert(words.subrange(5 * j, 5 * j + 5) =~= limbs@);
            assert forall|i: int| 0 <= i <= j implies nums::limbs_val((#[trigger] mus@[i])@)
                == nums::limbs_val(words.subrange(5 * i, 5 * i + 5)) % nums::pow(
                2,
                MU_BITS as nat,
            ) by {
                if i < j {
                    assert(mus@[i] == earlier[i]);
                    assert(words.subrange(5 * i, 5 * i + 5) =~= before.subrange(
                        5 * i,
                        5 * i + 5,
                    ));
                }
            }
        }
    }
    assert(draws::draws(start, *rng, words));
    mus
}

/// Whether the limbs hold a number below `2^MU_BITS`.
pub open spec fn is_smudging_factor(mu: [u64; 5]) -> bool {
    0 <= nums::limbs_val(mu@) < nums::pow(2, MU_BITS as nat)
}

/// Keep the `ρ` low bits of the top limb.
pub fn cut_mu(mu: [u64; 5]) -> (res: [u64; 5])
    ensures
        is_smudging_factor(res),
        nums::limbs_val(res@) == nums::limbs_val(mu@) % nums::pow(2, MU_BITS as nat),
        nums::limbs_val(res@) == nums::limbs_val(mu@) % nums::pow(2, 310),
{
    let top: u64 = mu[4];
    let cut: u64 = top & 0x3f_ffff_ffff_ffffu64;
    let res = [mu[0], mu[1], mu[2], mu[3], cut];
    proof {
        assert(cut == top % 0x40_0000_0000_0000u64) by (bit_vector)
            requires
                cut == top & 0x3f_ffff_ffff_ffffu64,
        ;
        lemma_limbs5(mu@);
        lemma_limbs5(res@);
        nums::lemma_limbs4(mu@.take(4));
        assert(mu@.take(4) =~= res@.take(4));
        lemma_pow_310();
        let low = nums::limbs_val(mu@.take(4));
        let b = 0x1_0000_0000_0000_0000_0000_0000_0000_0000_0000_0000_0000_0000_0000_0000_0000_0000int;
        let q = (top / 0x40_0000_0000_0000u64) as int;
        // low + b·top = (low + b·cut) + q·(2^54·b)
        assert(low + b * top == (low + b * cut) + q * (0x40_0000_0000_0000int * b))
            by (nonlinear_arith)
            requires
                top == 0x40_0000_0000_0000int * q + cut,
        ;
        vstd::arithmetic::div_mod::lemma_mod_multiples_vanish(
            q,
            low + b * cut,
            0x40_0000_0000_0000int * b,
        );
        vstd::arithmetic::mul::lemma_mul_is_commutative(q, 0x40_0000_0000_0000int * b);
        assert(low + b * cut < 0x40_0000_0000_0000int * b);
        vstd::arithmetic::div_mod::lemma_small_mod(
            (low + b * cut) as nat,
            (0x40_0000_0000_0000int * b) as nat,
        );
    }
    res
}

/// Five limbs as four and one.
proof fn lemma_limbs5(s: Seq<u64>)
    requires
        s.len() == 5,
    ensures
        nums::limbs_val(s) == nums::limbs_val(s.take(4))
            + 0x1_0000_0000_0000_0000_0000_0000_0000_0000_0000_0000_0000_0000_0000_0000_0000_0000int
            * s[4],
{
    nums::lemma_limbs4(s.take(4));
    let s1 = s.skip(1);
    let s2 = s1.skip(1);
    let s3 = s2.skip(1);
    let s4 = s3.skip(1);
    reveal_with_fuel(nums::limbs_val, 6);
    assert(s4.skip(1).len() == 0);
    assert(s1[0] == s[1] && s2[0] == s[2] && s3[0] == s[3] && s4[0] == s[4]);
    assert(nums::limbs_val(s4) == s[4] as int);
}

/// `2^256`, `2^310` as numbers.
proof fn lemma_pow_310()
    ensures
        nums::pow(2, 256)
            == 0x1_0000_0000_0000_0000_0000_0000_0000_0000_0000_0000_0000_0000_0000_0000_0000_0000int,
        nums::pow(2, 310) == 0x40_0000_0000_0000int
            * 0x1_0000_0000_0000_0000_0000_0000_0000_0000_0000_0000_0000_0000_0000_0000_0000_0000int,
{
    nums::lemma_pow256();
    lemma_pow_bytes(32);
    nums::lemma_pow_add(2, 54, 256);
    assert(nums::pow(2, 54) == 0x40_0000_0000_0000int) by {
        assert(nums::pow(2, 27) == 0x800_0000int) by {
            reveal_with_fuel(nums::pow, 28);
        }
        nums::lemma_pow_add(2, 27, 27);
        assert(0x800_0000int * 0x800_0000int == 0x40_0000_0000_0000int);
    }
}

/// The bound on the smudged integers, for a number of bits of the factor.
pub open spec fn smudging_bound(mu_bits: nat) -> int {
    ring::p() * (nums::pow(2, mu_bits) + nums::pow(2, W as nat) + 1)
}

/// No smudged integer wraps: for `a, b < p`, `X < 2^W` and `μ < 2^MU_BITS`, the
/// integer `a·X + b + μ·p` lies below the product of the primes.
pub proof fn law_no_wrap(a: int, x: int, b: int, mu: int)
    requires
        0 <= a < ring::p(),
        0 <= b < ring::p(),
        0 <= x < nums::pow(2, W as nat),
        0 <= mu < nums::pow(2, MU_BITS as nat),
    ensures
        0 <= a * x + b + mu * ring::p() < smudging_bound(MU_BITS as nat) < primorial::primorial(),
{
    let (p, q, t) = (ring::p(), nums::pow(2, W as nat), nums::pow(2, MU_BITS as nat));
    lemma_pow_310();
    primorial::lemma_primorial();
    assert(0 <= a * x <= p * q) by (nonlinear_arith)
        requires
            0 <= a < p,
            0 <= x < q,
    ;
    assert(0 <= mu * p <= t * p) by (nonlinear_arith)
        requires
            0 <= mu < t,
            0 < p,
    ;
    assert(p * (t + q + 1) == t * p + p * q + p) by (nonlinear_arith);
    law_smudging_ceiling();
}

/// The ring admits `ρ = 60`, and no more.
pub proof fn law_smudging_ceiling()
    ensures
        smudging_bound(MU_BITS as nat) < primorial::primorial(),
        smudging_bound((W + 60) as nat) < primorial::primorial(),
        smudging_bound((W + 61) as nat) >= primorial::primorial(),
{
    let b = 0x1_0000_0000_0000_0000_0000_0000_0000_0000_0000_0000_0000_0000_0000_0000_0000_0000int;
    lemma_pow_310();
    primorial::lemma_primorial();
    assert(nums::pow(2, 60) == 0x1000_0000_0000_0000int) by {
        assert(nums::pow(2, 30) == 0x4000_0000int) by {
            reveal_with_fuel(nums::pow, 31);
        }
        nums::lemma_pow_add(2, 30, 30);
        assert(0x4000_0000int * 0x4000_0000int == 0x1000_0000_0000_0000int);
    }
    nums::lemma_pow_add(2, 256, 60);
    nums::lemma_pow_add(2, 316, 1);
    assert(nums::pow(2, 1) == 2) by {
        reveal_with_fuel(nums::pow, 2);
    }
    assert(18014398509481984int * b == 2085924839766513752338888384931203236916703635113918720651407820138886450957656787131798913024int);
    assert(ring::p() * (2085924839766513752338888384931203236916703635113918720651407820138886450957656787131798913024int + b + 1) == 45657229505211879512124844253952189671597731783345211519994265845690130588031759858487706097010760590014433150289143059246545088123007048432634968200544727503146548264263int);
    assert(1152921504606846976int * b == 133499189745056880149688856635597007162669032647290798121690100488888732861290034376435130433536int);
    assert(ring::p() * (133499189745056880149688856635597007162669032647290798121690100488888732861290034376435130433536int + b + 1) == 2922062688333560129103411604816941334826042853036816842247465207488618683320035091703808827697180528719364720666027158234244122025133639843004243870016097102541820803218759int);
    assert(2305843009213693952int * b == 266998379490113760299377713271194014325338065294581596243380200977777465722580068752870260867072int);
    assert(ring::p() * (266998379490113760299377713271194014325338065294581596243380200977777465722580068752870260867072int + b + 1) == 5844125376667120255672337837769819196570241071453041990922991243443339752762070222467309649640210134438069774650268951427892454151620631888283338627416023324803331157458247int);
}

// -------------------------------------------------------------- wide integers

/// `BigInteger::add_with_carry` of ark-ff on `BigInt<10>`: the sum modulo `2^640`.
#[verifier::external_body]
fn ark_wide_add(a: [u64; 10], b: [u64; 10]) -> (res: [u64; 10])
    ensures
        nums::limbs_val(res@) == (nums::limbs_val(a@) + nums::limbs_val(b@)) % nums::pow(
            0x1_0000_0000_0000_0000,
            10,
        ),
{
    let mut x = ark_ff::BigInt::<10>(a);
    x.add_with_carry(&ark_ff::BigInt::<10>(b));
    x.0
}

/// `BigInteger::mul_low` of ark-ff on `BigInt<10>`: the product modulo `2^640`.
#[verifier::external_body]
fn ark_wide_mul(a: [u64; 10], b: [u64; 10]) -> (res: [u64; 10])
    ensures
        nums::limbs_val(res@) == (nums::limbs_val(a@) * nums::limbs_val(b@)) % nums::pow(
            0x1_0000_0000_0000_0000,
            10,
        ),
{
    ark_ff::BigInt::<10>(a).mul_low(&ark_ff::BigInt::<10>(b)).0
}

/// `<` of ark-ff on `BigInt<10>`: the order of the integers.
#[verifier::external_body]
fn ark_wide_less(a: [u64; 10], b: [u64; 10]) -> (res: bool)
    ensures
        res == (nums::limbs_val(a@) < nums::limbs_val(b@)),
{
    ark_ff::BigInt::<10>(a) < ark_ff::BigInt::<10>(b)
}

/// The limbs of zeros.
proof fn lemma_zero_limbs(s: Seq<u64>)
    requires
        forall|i: int| 0 <= i < s.len() ==> s[i] == 0,
    ensures
        nums::limbs_val(s) == 0,
    decreases s.len(),
{
    if s.len() > 0 {
        assert forall|i: int| 0 <= i < s.skip(1).len() implies s.skip(1)[i] == 0 by {
            assert(s.skip(1)[i] == s[i + 1]);
        }
        lemma_zero_limbs(s.skip(1));
    }
}

/// The value of limbs that are zero but at `i`.
proof fn lemma_one_limb(s: Seq<u64>, i: int)
    requires
        0 <= i < s.len(),
        forall|j: int| 0 <= j < s.len() && j != i ==> s[j] == 0,
    ensures
        nums::limbs_val(s) == nums::pow(0x1_0000_0000_0000_0000, i as nat) * s[i],
    decreases i,
{
    let rest = s.skip(1);
    assert forall|j: int| 0 <= j < rest.len() implies rest[j] == s[j + 1] by {}
    if i == 0 {
        lemma_zero_limbs(rest);
    } else {
        lemma_one_limb(rest, i - 1);
        vstd::arithmetic::mul::lemma_mul_is_associative(
            0x1_0000_0000_0000_0000,
            nums::pow(0x1_0000_0000_0000_0000, (i - 1) as nat),
            s[i] as int,
        );
    }
}

/// Longer limbs with zeros on top.
proof fn lemma_widened(s: Seq<u64>, t: Seq<u64>)
    requires
        s.len() <= t.len(),
        forall|i: int| 0 <= i < s.len() ==> t[i] == s[i],
        forall|i: int| s.len() <= i < t.len() ==> t[i] == 0,
    ensures
        nums::limbs_val(t) == nums::limbs_val(s),
    decreases s.len(),
{
    if s.len() == 0 {
        lemma_zero_limbs(t);
    } else {
        assert forall|i: int| 0 <= i < t.skip(1).len() implies t.skip(1)[i] == t[i + 1] by {}
        assert forall|i: int| 0 <= i < s.skip(1).len() implies s.skip(1)[i] == s[i + 1] by {}
        lemma_widened(s.skip(1), t.skip(1));
    }
}

/// `2^k`, in ten limbs.
pub fn pow2(k: usize) -> (res: [u64; 10])
    requires
        k < 640,
    ensures
        nums::limbs_val(res@) == nums::pow(2, k as nat),
{
    let mut limb: u64 = 1;
    for j in 0..k % 64
        invariant
            k < 640,
            limb == nums::pow(2, j as nat),
            limb < 0x1_0000_0000_0000_0000,
            j <= 63,
    {
        proof {
            lemma_pow_below_limb((j + 1) as nat);
        }
        limb = limb * 2;
    }
    let mut x: [u64; 10] = [0u64;10];
    let i: usize = k / 64;
    x[i] = limb;
    proof {
        lemma_one_limb(x@, i as int);
        lemma_pow_bytes((8 * i) as nat);
        nums::lemma_pow_limbs(i as nat);
        nums::lemma_pow_add(2, (64 * i) as nat, (k % 64) as nat);
        assert(8 * (8 * i) as nat == (64 * i) as nat);
    }
    x
}

/// `2^j` fits a limb for `j < 64`.
proof fn lemma_pow_below_limb(j: nat)
    requires
        j < 64,
    ensures
        nums::pow(2, j) < 0x1_0000_0000_0000_0000,
{
    let rest = (64 - j) as nat;
    nums::lemma_pow_add(2, j, rest);
    lemma_pow_bytes(8);
    assert(nums::pow(256, 8) == 0x1_0000_0000_0000_0000int) by {
        reveal_with_fuel(nums::pow, 9);
    }
    nums::lemma_pow_pos(2, j);
    nums::lemma_pow_pos(2, (rest - 1) as nat);
    let (x, y) = (nums::pow(2, j), nums::pow(2, rest));
    assert(y == 2 * nums::pow(2, (rest - 1) as nat));
    assert(x < x * y) by (nonlinear_arith)
        requires
            x > 0,
            y >= 2,
    ;
}

/// Whether `p·(2^mu_bits + 2^W + 1) < m` (exact 640-bit arithmetic).
pub fn smudging_fits_at(mu_bits: usize, m: &[u64; 9]) -> (res: bool)
    requires
        mu_bits <= 384,
    ensures
        res == (smudging_bound(mu_bits as nat) < nums::limbs_val(m@)),
        res == (ring::p() * (nums::pow(2, mu_bits as nat) + nums::pow(2, 256) + 1)
            < nums::limbs_val(m@)),
{
    let one: [u64; 10] = [1, 0, 0, 0, 0, 0, 0, 0, 0, 0];
    let sum = ark_wide_add(one, pow2(mu_bits));
    let factor = ark_wide_add(sum, pow2(W));
    let limbs = p_limbs();
    let p: [u64; 10] = [limbs[0], limbs[1], limbs[2], limbs[3], 0, 0, 0, 0, 0, 0];
    let bound = ark_wide_mul(p, factor);
    let wide: [u64; 10] = [m[0], m[1], m[2], m[3], m[4], m[5], m[6], m[7], m[8], 0];
    proof {
        lemma_one_limb(one@, 0);
        lemma_widened(limbs@, p@);
        lemma_widened(m@, wide@);
        lemma_bound_fits(mu_bits as nat);
        let q = nums::pow(0x1_0000_0000_0000_0000, 10);
        let (t, w) = (nums::pow(2, mu_bits as nat), nums::pow(2, W as nat));
        vstd::arithmetic::div_mod::lemma_small_mod((1 + t) as nat, q as nat);
        vstd::arithmetic::div_mod::lemma_small_mod((1 + t + w) as nat, q as nat);
        vstd::arithmetic::div_mod::lemma_small_mod(smudging_bound(mu_bits as nat) as nat, q as nat);
        assert(1 + t + w == t + w + 1);
    }
    ark_wide_less(bound, wide)
}

/// The bound and its factor stay below `2^640`.
proof fn lemma_bound_fits(mu_bits: nat)
    requires
        mu_bits <= 384,
    ensures
        0 < nums::pow(2, mu_bits),
        0 < nums::pow(2, W as nat),
        nums::pow(2, mu_bits) + nums::pow(2, W as nat) + 1 < nums::pow(0x1_0000_0000_0000_0000, 10),
        0 <= smudging_bound(mu_bits) < nums::pow(0x1_0000_0000_0000_0000, 10),
{
    let (t, w) = (nums::pow(2, mu_bits), nums::pow(2, W as nat));
    let big = nums::pow(2, 384);
    nums::lemma_pow_pos(2, mu_bits);
    nums::lemma_pow_pos(2, (384 - mu_bits) as nat);
    nums::lemma_pow_add(2, mu_bits, (384 - mu_bits) as nat);
    assert(t <= big) by (nonlinear_arith)
        requires
            big == t * nums::pow(2, (384 - mu_bits) as nat),
            nums::pow(2, (384 - mu_bits) as nat) >= 1,
            t > 0,
    ;
    lemma_pow_310();
    nums::lemma_pow_add(2, 256, 128);
    lemma_pow_bytes(16);
    nums::lemma_pow256();
    nums::lemma_pow_add(2, 384, 256);
    nums::lemma_pow_limbs(10);
    lemma_pow_bytes(80);
    let f = t + w + 1;
    let p = ring::p();
    assert(nums::pow(2, 640) == big * w);
    assert(w < big);
    assert(f <= 3 * big);
    assert(p * f <= p * (3 * big)) by (nonlinear_arith)
        requires
            f <= 3 * big,
            p > 0,
    ;
    assert(p * (3 * big) == (3 * p) * big) by (nonlinear_arith);
    assert((3 * p) * big < w * big) by (nonlinear_arith)
        requires
            3 * p < w,
            big > 0,
    ;
    vstd::arithmetic::mul::lemma_mul_is_commutative(w, big);
    assert(p * f >= 0) by (nonlinear_arith)
        requires
            p > 0,
            f > 0,
    ;
    assert(3 * big < w * big) by (nonlinear_arith)
        requires
            3 < w,
            big > 0,
    ;
}

/// Whether `p·(2^MU_BITS + 2^W + 1) < m`, which bounds every smudged integer
/// `a·X + b + μ·p` below `m` (exact 640-bit arithmetic).
pub fn smudging_fits(m: &[u64; 9]) -> (res: bool)
    ensures
        res == (smudging_bound(MU_BITS as nat) < nums::limbs_val(m@)),
        res == (ring::p() * (nums::pow(2, 310) + nums::pow(2, 256) + 1) < nums::limbs_val(m@)),
{
    smudging_fits_at(MU_BITS, m)
}

// --------------------------------------------------------------- bit encoder

/// `Π_2`: the projectivization of the field-layer encoding function, but for the
/// instances themselves.
#[derive(Clone, Debug)]
pub struct BitEncoder {
    /// The CRT primes of every instance.
    pub primes: Vec<u64>,
}

/// What one instance is garbled from: for each prime, the residues of the
/// coefficients and of the smudged offsets.
#[derive(Clone, Debug)]
pub struct Residues {
    /// Residues of the coefficients `a_j`, by prime.
    pub a: Vec<Vec<u64>>,
    /// Residues of the offsets `b_j + μ_j·p`, by prime.
    pub b: Vec<Vec<u64>>,
}

/// Whether these are the residues by one prime `q`: `a_j mod q` and
/// `(b_j + μ_j·p) mod q`.
pub open spec fn are_residues_by(
    a: Seq<u64>,
    b: Seq<u64>,
    maps: Seq<(Fq, Fq)>,
    mus: Seq<[u64; 5]>,
    q: int,
) -> bool {
    &&& a.len() == maps.len()
    &&& b.len() == maps.len()
    &&& forall|j: int| 0 <= j < maps.len() ==> #[trigger] a[j] == maps[j].0@.c0 % q
    &&& forall|j: int|
        0 <= j < maps.len() ==> #[trigger] b[j] == (maps[j].1@.c0 + nums::limbs_val(mus[j]@)
            * ring::p()) % q
}

/// The integer that map `j` takes on block value `x`: `a_j·x + b_j + μ_j·p`.
pub open spec fn smudged(map: (Fq, Fq), mu: [u64; 5], x: int) -> int {
    map.0@.c0 * x + map.1@.c0 + nums::limbs_val(mu@) * ring::p()
}

/// The encoding without any value.
pub open spec fn is_empty_encoding(enc: FieldEncoding) -> bool {
    &&& enc.a.u@.len() == 0 && enc.a.v@.len() == 0
    &&& enc.b.u@.len() == 0 && enc.b.v@.len() == 0
    &&& enc.c.u@.len() == 0 && enc.c.v@.len() == 0
}

impl BitEncoder {
    /// Whether the primes are positive and their squares fit a word.
    pub open spec fn wf(self) -> bool {
        forall|i: int| 0 <= i < self.primes@.len() ==> 0 < #[trigger] self.primes@[i] < 0x1_0000_0000
    }

    /// The 82 primes. The smudging range fits below their product.
    pub fn new() -> (res: Self)
        ensures
            res.primes@ == FIRST_82_PRIMES@,
            res.wf(),
            smudging_bound(MU_BITS as nat) < primorial::product(
                res.primes@,
                res.primes@.len() as int,
            ),
    {
        let mut primes: Vec<u64> = Vec::new();
        let all: [u64; 82] = FIRST_82_PRIMES;
        for i in 0..82
            invariant
                all@ == FIRST_82_PRIMES@,
                primes@ =~= all@.take(i as int),
        {
            primes.push(all[i]);
        }
        proof {
            assert(primes@ =~= FIRST_82_PRIMES@);
            primorial::lemma_primes_are_small();
            law_smudging_ceiling();
        }
        BitEncoder { primes }
    }

    /// Whether these are the residues of smudged maps: by prime `q`, `a_j mod q` and
    /// `(b_j + μ_j·p) mod q`.
    pub open spec fn are_residues(
        self,
        res: Residues,
        maps: Seq<(Fq, Fq)>,
        mus: Seq<[u64; 5]>,
    ) -> bool {
        &&& res.a@.len() == self.primes@.len()
        &&& res.b@.len() == self.primes@.len()
        &&& forall|i: int|
            0 <= i < self.primes@.len() ==> are_residues_by(
                (#[trigger] res.a@[i])@,
                res.b@[i]@,
                maps,
                mus,
                self.primes@[i] as int,
            )
    }

    /// The residues of the maps `a_j·x + b_j` over `F_p`, with the offsets smudged
    /// by given factors.
    pub fn residues(&self, maps: &[(Fq, Fq)], mus: &[[u64; 5]]) -> (res: Residues)
        requires
            self.wf(),
            maps@.len() == mus@.len(),
        ensures
            self.are_residues(res, maps@, mus@),
            res.a@.len() == self.primes@.len() && res.b@.len() == self.primes@.len(),
            forall|i: int, j: int|
                0 <= i < self.primes@.len() && 0 <= j < maps@.len() ==> #[trigger] res.a@[i]@[j]
                    == maps@[j].0@.c0 % (self.primes@[i] as int),
            forall|i: int, j: int|
                0 <= i < self.primes@.len() && 0 <= j < maps@.len() ==> #[trigger] res.b@[i]@[j]
                    == (maps@[j].1@.c0 + nums::limbs_val(mus@[j]@) * ring::p()) % (
                self.primes@[i] as int),
    {
        let p = p_limbs();
        let mut a: Vec<Vec<u64>> = Vec::new();
        let mut b: Vec<Vec<u64>> = Vec::new();
        for i in 0..self.primes.len()
            invariant
                self.wf(),
                maps@.len() == mus@.len(),
                nums::limbs_val(p@) == ring::p(),
                a@.len() == i,
                b@.len() == i,
                forall|k: int|
                    0 <= k < i ==> are_residues_by(
                        (#[trigger] a@[k])@,
                        b@[k]@,
                        maps@,
                        mus@,
                        self.primes@[k] as int,
                    ),
        {
            let q: u64 = self.primes[i];
            let p_mod = mod_small(array_as_slice(&p), q);
            let mut a_row: Vec<u64> = Vec::new();
            let mut b_row: Vec<u64> = Vec::new();
            for j in 0..maps.len()
                invariant
                    maps@.len() == mus@.len(),
                    0 < q < 0x1_0000_0000,
                    p_mod == ring::p() % (q as int),
                    a_row@.len() == j,
                    b_row@.len() == j,
                    forall|k: int|
                        0 <= k < j ==> #[trigger] a_row@[k] == maps@[k].0@.c0 % (q as int),
                    forall|k: int|
                        0 <= k < j ==> #[trigger] b_row@[k] == (maps@[k].1@.c0 + nums::limbs_val(
                            mus@[k]@,
                        ) * ring::p()) % (q as int),
            {
                let (x, y) = (fq_limbs(maps[j].0), fq_limbs(maps[j].1));
                a_row.push(mod_small(array_as_slice(&x), q));
                let y_mod = mod_small(array_as_slice(&y), q);
                let mu_mod = mod_small(array_as_slice(&mus[j]), q);
                proof {
                    let (m, v, w) = (
                        q as int,
                        nums::limbs_val(y@),
                        nums::limbs_val(mus@[j as int]@),
                    );
                    assert(mu_mod * p_mod <= 0xffff_fffe * 0xffff_fffe) by (nonlinear_arith)
                        requires
                            0 <= mu_mod <= 0xffff_fffe,
                            0 <= p_mod <= 0xffff_fffe,
                    ;
                    nums::lemma_mod_ops(w, ring::p(), m);
                    nums::lemma_mod_ops(v, mu_mod * p_mod, m);
                    nums::lemma_mod_ops(v, w * ring::p(), m);
                }
                b_row.push((y_mod + mu_mod * p_mod) % q);
            }
            assert(are_residues_by(a_row@, b_row@, maps@, mus@, q as int));
            a.push(a_row);
            b.push(b_row);
        }
        let res = Residues { a, b };
        proof {
            assert forall|i: int, j: int|
                0 <= i < self.primes@.len() && 0 <= j < maps@.len() implies #[trigger] res.b@[i]@[j]
                == (maps@[j].1@.c0 + nums::limbs_val(mus@[j]@) * ring::p()) % (
            self.primes@[i] as int) by {
                assert(are_residues_by(
                    res.a@[i]@,
                    res.b@[i]@,
                    maps@,
                    mus@,
                    self.primes@[i] as int,
                ));
            }
        }
        res
    }

    /// Whether these are the maps of the eight blocks.
    pub open spec fn are_block_maps(self, maps: Seq<Maps>, ek: FieldEncodingInfo) -> bool {
        &&& maps.len() == NUM_BLOCKS
        &&& are_maps_of(maps[0]@, ek.a.u@)
        &&& are_maps_of(maps[1]@, ek.a.v@)
        &&& exists|ts: Seq<Fq2>|
            ts.len() == ek.b.u@.len() && #[trigger] are_halves_of(
                maps[2]@,
                maps[3]@,
                ek.b.u@,
                ts,
            )
        &&& exists|ts: Seq<Fq2>|
            ts.len() == ek.b.v@.len() && #[trigger] are_halves_of(
                maps[4]@,
                maps[5]@,
                ek.b.v@,
                ts,
            )
        &&& are_maps_of(maps[6]@, ek.c.u@)
        &&& are_maps_of(maps[7]@, ek.c.v@)
    }

    /// The affine maps of the eight blocks, the labels on `B` split in halves.
    pub fn block_maps(&self, rng: &mut StdRng, ek: &FieldEncodingInfo) -> (res: Vec<Maps>)
        ensures
            self.are_block_maps(res@, *ek),
            exists|mid: StdRng| #[trigger]
                split_by(*old(rng), mid, res@[2]@, res@[3]@, ek.b.u@) && split_by(
                    mid,
                    *final(rng),
                    res@[4]@,
                    res@[5]@,
                    ek.b.v@,
                ),
    {
        let ghost start = *rng;
        let (bu0, bu1) = split_fq2(rng, ek.b.u.as_slice());
        let ghost mid = *rng;
        let (bv0, bv1) = split_fq2(rng, ek.b.v.as_slice());
        let res = vec![
            maps_fq(ek.a.u.as_slice()),
            maps_fq(ek.a.v.as_slice()),
            bu0,
            bu1,
            bv0,
            bv1,
            maps_fq(ek.c.u.as_slice()),
            maps_fq(ek.c.v.as_slice()),
        ];
        assert(res@[2] == bu0 && res@[3] == bu1 && res@[4] == bv0 && res@[5] == bv1);
        assert(split_by(start, mid, res@[2]@, res@[3]@, ek.b.u@));
        res
    }

    /// Reduce the reconstructed integers of one instance modulo `p`.
    pub fn decode(&self, values: &[[u64; 9]]) -> (res: Vec<Fq>)
        ensures
            res@.len() == values@.len(),
            forall|j: int|
                0 <= j < values@.len() ==> (#[trigger] res@[j])@ == El::num(
                    nums::limbs_val(values@[j]@),
                ),
    {
        let mut res: Vec<Fq> = Vec::new();
        for j in 0..values.len()
            invariant
                res@.len() == j,
                forall|i: int|
                    0 <= i < j ==> (#[trigger] res@[i])@ == El::num(nums::limbs_val(values@[i]@)),
        {
            let bytes = limbs_to_bytes(array_as_slice(&values[j]));
            res.push(Fq::from_le_bytes_mod_order(bytes.as_slice()));
        }
        res
    }

    /// Whether `enc` is put together from the eight instances' values: those of the
    /// labels on `A` and `C` as they are, those of the labels on `B` as
    /// `(half on x_0) + (half on x_1)`, componentwise.
    pub open spec fn assembled(self, out: Seq<Vec<Fq>>, enc: FieldEncoding) -> bool {
        &&& same_elems(enc.a.u@, out[0]@)
        &&& same_elems(enc.a.v@, out[1]@)
        &&& joined(enc.b.u@, out[2]@, out[3]@)
        &&& joined(enc.b.v@, out[4]@, out[5]@)
        &&& same_elems(enc.c.u@, out[6]@)
        &&& same_elems(enc.c.v@, out[7]@)
    }

    /// Put the field-layer encoding together from the instances' values. With any
    /// other number of instances than eight it is the empty encoding, which
    /// evaluates to nothing.
    pub fn assemble(&self, out: &[Vec<Fq>]) -> (res: FieldEncoding)
        requires
            out@.len() == NUM_BLOCKS ==> out@[2]@.len() == out@[3]@.len() && out@[4]@.len()
                == out@[5]@.len(),
        ensures
            out@.len() == NUM_BLOCKS ==> self.assembled(out@, res),
            out@.len() != NUM_BLOCKS ==> is_empty_encoding(res),
    {
        if out.len() != NUM_BLOCKS {
            return FieldEncoding::default();
        }
        FieldEncoding {
            a: CoordValues { u: copy_elems(&out[0]), v: copy_elems(&out[1]) },
            b: CoordValues { u: join(&out[2], &out[3]), v: join(&out[4], &out[5]) },
            c: CoordValues { u: copy_elems(&out[6]), v: copy_elems(&out[7]) },
        }
    }
}

impl Default for BitEncoder {
    fn default() -> (res: Self)
        ensures
            res.primes@ == FIRST_82_PRIMES@,
            res.wf(),
            smudging_bound(MU_BITS as nat) < primorial::product(
                res.primes@,
                res.primes@.len() as int,
            ),
    {
        Self::new()
    }
}

/// Whether two lists hold the same elements.
pub open spec fn same_elems(s: Seq<Fq>, t: Seq<Fq>) -> bool {
    s.len() == t.len() && forall|i: int| 0 <= i < s.len() ==> (#[trigger] s[i])@ == t[i]@
}

/// Whether value `j` has the components `x0_{2j} + x1_{2j}` and
/// `x0_{2j+1} + x1_{2j+1}`.
pub open spec fn joined(s: Seq<Fq2>, x0: Seq<Fq>, x1: Seq<Fq>) -> bool {
    &&& s.len() == x0.len() / 2
    &&& forall|j: int|
        0 <= j < s.len() ==> (#[trigger] s[j])@ == (El {
            c0: x0[2 * j]@.plus(x1[2 * j]@).c0,
            c1: x0[2 * j + 1]@.plus(x1[2 * j + 1]@).c0,
        })
}

fn copy_elems(s: &Vec<Fq>) -> (res: Vec<Fq>)
    ensures
        same_elems(res@, s@),
{
    let mut res: Vec<Fq> = Vec::new();
    for i in 0..s.len()
        invariant
            res@.len() == i,
            forall|k: int| 0 <= k < i ==> (#[trigger] res@[k])@ == s@[k]@,
    {
        res.push(s[i]);
    }
    res
}

/// Reassemble `F_{p^2}` values: label `j` is the half on `x_0` plus the half on
/// `x_1`, componentwise.
pub fn join(x0: &Vec<Fq>, x1: &Vec<Fq>) -> (res: Vec<Fq2>)
    requires
        x0@.len() == x1@.len(),
    ensures
        joined(res@, x0@, x1@),
        res@.len() == x0@.len() / 2,
        forall|j: int|
            0 <= j < res@.len() ==> (#[trigger] res@[j])@ == (El {
                c0: x0@[2 * j]@.plus(x1@[2 * j]@).c0,
                c1: x0@[2 * j + 1]@.plus(x1@[2 * j + 1]@).c0,
            }),
{
    let mut res: Vec<Fq2> = Vec::new();
    for j in 0..x0.len() / 2
        invariant
            x0@.len() == x1@.len(),
            res@.len() == j,
            forall|k: int|
                0 <= k < j ==> (#[trigger] res@[k])@ == (El {
                    c0: x0@[2 * k]@.plus(x1@[2 * k]@).c0,
                    c1: x0@[2 * k + 1]@.plus(x1@[2 * k + 1]@).c0,
                }),
    {
        res.push(Fq2::new(x0[2 * j].add(x1[2 * j]), x0[2 * j + 1].add(x1[2 * j + 1])));
    }
    res
}

/// The little-endian bytes of limbs.
fn limbs_to_bytes(limbs: &[u64]) -> (res: Vec<u8>)
    ensures
        nums::bytes_val(res@) == nums::limbs_val(limbs@),
{
    let mut res: Vec<u8> = Vec::new();
    assert(limbs@.take(0).len() == 0);
    for i in 0..limbs.len()
        invariant
            res@.len() == 8 * i,
            nums::bytes_val(res@) == nums::limbs_val(limbs@.take(i as int)),
    {
        let ghost before = res@;
        let l: u64 = limbs[i];
        crate::curve::push_u64(&mut res, l);
        proof {
            assert(nums::pow(256, 8) == 0x1_0000_0000_0000_0000int) by {
                reveal_with_fuel(nums::pow, 9);
            }
            nums::lemma_le_bytes(l as int, 8);
            nums::lemma_bytes_append(before, nums::le_bytes(l as int, 8));
            nums::lemma_limbs_append(limbs@.take(i as int), l);
            nums::lemma_pow_limbs(i as nat);
            assert(limbs@.take(i as int).push(l) =~= limbs@.take(i + 1));
        }
    }
    assert(limbs@.take(limbs@.len() as int) =~= limbs@);
    res
}

// --------------------------------------------------------------------- sizes

/// Size of a garbled program of the scheme over bits, in bits.
///
/// `group_bits` is measured from the compressed serialization of the bases (64
/// bytes each: a sign bit and an infinity flag on top of the 32-byte-per-coordinate
/// minimum), plus the literal byte lengths of the commitments and the pad.
/// `dfb_ciphertext_bits` and `dfb_output_decoding_bits` are the accounting of the
/// Duty-Free Bits programs, which have no serialized form to check against.
/// [`SizeReport::total_bits`] is concrete communication accounting, not a
/// serialized byte length.
#[derive(Clone, Copy, Debug, PartialEq, Eq, Structural)]
pub struct SizeReport {
    /// `f~_G`: `κ` compressed `G_2` elements, `κ` commitments, one pad.
    /// Measured from the actual serializer, not a hard-coded per-point width.
    pub group_bits: usize,
    /// Duty-Free Bits ciphertexts (the scaling material), excluding output
    /// masks. Named to distinguish it from the masks below, which are also
    /// part of the total: neither is folded into the other.
    pub dfb_ciphertext_bits: usize,
    /// Bits of the Duty-Free Bits output-decoding masks, which the evaluator
    /// subtracts to decode. Kept as an explicit addend of the total, not
    /// absorbed into the outer affine offsets.
    pub dfb_output_decoding_bits: usize,
}

impl SizeReport {
    /// Everything the garbler sends besides the input labels.
    pub fn total_bits(&self) -> (res: usize)
        requires
            self.group_bits + self.dfb_ciphertext_bits + self.dfb_output_decoding_bits
                <= usize::MAX,
        ensures
            res == self.group_bits + self.dfb_ciphertext_bits + self.dfb_output_decoding_bits,
    {
        self.group_bits + self.dfb_ciphertext_bits + self.dfb_output_decoding_bits
    }
}

/// Measures a garbled program of the scheme over bits: its group program, and the
/// accounting of its Duty-Free Bits programs. See [`SizeReport`].
pub fn size_report(
    g: &GroupProgram,
    dfb_ciphertext_bits: usize,
    dfb_output_decoding_bits: usize,
) -> (res: SizeReport)
    requires
        (64 * g.bases@.len() + 32 * g.commits@.len() + 16) * 8 <= usize::MAX,
    ensures
        res.group_bits == (64 * g.bases@.len() + 32 * g.commits@.len() + 16) * 8,
        res.dfb_ciphertext_bits == dfb_ciphertext_bits,
        res.dfb_output_decoding_bits == dfb_output_decoding_bits,
{
    let mut bases_bytes: usize = 0;
    for t in 0..g.bases.len()
        invariant
            (64 * g.bases@.len() + 32 * g.commits@.len() + 16) * 8 <= usize::MAX,
            bases_bytes == 64 * t,
    {
        bases_bytes = bases_bytes + g.bases[t].to_compressed_bytes().len();
    }
    let commits_bytes: usize = g.commits.len() * 32;
    let ct_bytes: usize = 16;
    SizeReport {
        group_bits: (bases_bytes + commits_bytes + ct_bytes) * 8,
        dfb_ciphertext_bits,
        dfb_output_decoding_bits,
    }
}

// --------------------------------------------------------------------- laws

/// The residues compute the smudged integers: by every prime `q`, the residue of
/// the coefficient times `x` plus that of the offset is congruent to
/// `a_j·x + b_j + μ_j·p`.
pub proof fn law_residues_compute(
    a: Seq<u64>,
    b: Seq<u64>,
    maps: Seq<(Fq, Fq)>,
    mus: Seq<[u64; 5]>,
    q: int,
    j: int,
    x: int,
)
    requires
        q > 0,
        are_residues_by(a, b, maps, mus, q),
        0 <= j < maps.len(),
    ensures
        (a[j] * x + b[j]) % q == smudged(maps[j], mus[j], x) % q,
{
    let (u, v) = (maps[j].0@.c0, maps[j].1@.c0 + nums::limbs_val(mus[j]@) * ring::p());
    nums::lemma_mod_ops(u, x, q);
    nums::lemma_mod_ops(u * x, v, q);
    nums::lemma_mod_ops((u % q) * x, v % q, q);
    nums::lemma_mod_ops((u % q) * x, v, q);
}

/// A smudged integer reduces modulo `p` to the value of its map on the reduced
/// block.
proof fn lemma_smudged(map: (Fq, Fq), mu: [u64; 5], x: int)
    ensures
        El::num(smudged(map, mu, x)) == map.0@.times(El::num(x)).plus(map.1@),
{
    let (a, b, t) = (map.0@.c0, map.1@.c0, nums::limbs_val(mu@));
    map.0.lemma_view();
    map.1.lemma_view();
    ring::lemma_red_id(map.0@);
    ring::lemma_red_id(map.1@);
    assert(map.0@ == El::num(a) && map.1@ == El::num(b));
    ring::lemma_num_ops(a, x);
    ring::lemma_num_ops(a * x, b);
    vstd::arithmetic::mul::lemma_mul_is_commutative(t, ring::p());
    vstd::arithmetic::div_mod::lemma_mod_multiples_vanish(t, a * x + b, ring::p());
}

/// Whether the values of one block are the smudged integers of its maps, reduced.
pub open spec fn block_values(
    out: Seq<Fq>,
    maps: Seq<(Fq, Fq)>,
    mus: Seq<[u64; 5]>,
    x: int,
) -> bool {
    &&& out.len() == maps.len()
    &&& forall|j: int|
        0 <= j < maps.len() ==> (#[trigger] out[j])@ == El::num(smudged(maps[j], mus[j], x))
}

/// An instance computes its maps: values that are its smudged integers, reduced, are
/// `a_j·(X mod p) + b_j`, for every block value `X` and whatever the smudging factors.
pub proof fn law_instance_computes_its_maps(
    out: Seq<Fq>,
    maps: Seq<(Fq, Fq)>,
    mus: Seq<[u64; 5]>,
    x: int,
)
    requires
        block_values(out, maps, mus, x),
    ensures
        out.len() == maps.len(),
        forall|j: int|
            0 <= j < maps.len() ==> (#[trigger] out[j])@ == maps[j].0@.times(El::num(x)).plus(
                maps[j].1@,
            ),
{
    assert forall|j: int| 0 <= j < maps.len() implies (#[trigger] out[j])@ == maps[j].0@.times(
        El::num(x),
    ).plus(maps[j].1@) by {
        lemma_smudged(maps[j], mus[j], x);
    }
}

/// The values of `F_p` labels.
proof fn lemma_plain_values(
    labels: Seq<Affine<Fq>>,
    maps: Seq<(Fq, Fq)>,
    mus: Seq<[u64; 5]>,
    x: int,
    out: Seq<Fq>,
    vals: Seq<Fq>,
    y: El,
)
    requires
        are_maps_of(maps, labels),
        block_values(out, maps, mus, x),
        same_elems(vals, out),
        y == El::num(x),
    ensures
        vals.len() == labels.len(),
        forall|i: int| 0 <= i < vals.len() ==> (#[trigger] vals[i])@ == labels[i].value(y),
{
    assert forall|i: int| 0 <= i < vals.len() implies (#[trigger] vals[i])@ == labels[i].value(
        y,
    ) by {
        assert(out[i]@ == El::num(smudged(maps[i], mus[i], x)));
        assert(maps[i] == (labels[i].a, labels[i].b));
        lemma_smudged(maps[i], mus[i], x);
    }
}

/// The values of split `F_{p^2}` labels.
proof fn lemma_joined_values(
    labels: Seq<Affine<Fq2>>,
    ts: Seq<Fq2>,
    maps0: Seq<(Fq, Fq)>,
    maps1: Seq<(Fq, Fq)>,
    mus0: Seq<[u64; 5]>,
    mus1: Seq<[u64; 5]>,
    x0: int,
    x1: int,
    out0: Seq<Fq>,
    out1: Seq<Fq>,
    vals: Seq<Fq2>,
    y: El,
)
    requires
        are_halves_of(maps0, maps1, labels, ts),
        block_values(out0, maps0, mus0, x0),
        block_values(out1, maps1, mus1, x1),
        joined(vals, out0, out1),
        y == (El { c0: El::num(x0).c0, c1: El::num(x1).c0 }),
    ensures
        vals.len() == labels.len(),
        forall|i: int| 0 <= i < vals.len() ==> (#[trigger] vals[i])@ == labels[i].value(y),
{
    assert forall|j: int| 0 <= j < vals.len() implies (#[trigger] vals[j])@ == labels[j].value(
        y,
    ) by {
        let (m0, m1) = (maps0[2 * j], maps0[2 * j + 1]);
        let (n0, n1) = (maps1[2 * j], maps1[2 * j + 1]);
        assert(out0[2 * j]@ == El::num(smudged(m0, mus0[2 * j], x0)));
        assert(out0[2 * j + 1]@ == El::num(smudged(m1, mus0[2 * j + 1], x0)));
        assert(out1[2 * j]@ == El::num(smudged(n0, mus1[2 * j], x1)));
        assert(out1[2 * j + 1]@ == El::num(smudged(n1, mus1[2 * j + 1], x1)));
        lemma_smudged(m0, mus0[2 * j], x0);
        lemma_smudged(m1, mus0[2 * j + 1], x0);
        lemma_smudged(n0, mus1[2 * j], x1);
        lemma_smudged(n1, mus1[2 * j + 1], x1);
        ring::lemma_num_mod(x0);
        ring::lemma_num_mod(x1);
        assert(El::num(y.c0) == El::num(x0) && El::num(y.c1) == El::num(x1));
        law_halves_sum_to_the_label(maps0, maps1, labels, ts, j, y);
    }
}

impl BitEncoder {
    /// Whether an encoding is assembled from instances that come out at the integers
    /// `a_j·X + b_j + μ_j·p` of their maps and their block of `x`.
    pub open spec fn honest_values(
        self,
        ek: FieldEncodingInfo,
        maps: Seq<Maps>,
        mus: Seq<Seq<[u64; 5]>>,
        x: ProofBits,
        out: Seq<Vec<Fq>>,
        enc: FieldEncoding,
    ) -> bool {
        &&& self.are_block_maps(maps, ek)
        &&& out.len() == NUM_BLOCKS
        &&& forall|i: int|
            0 <= i < NUM_BLOCKS ==> block_values(
                (#[trigger] out[i])@,
                maps[i]@,
                mus[i],
                x.block_val(i),
            )
        &&& self.assembled(out, enc)
    }

    /// The projectivization is correct: if each instance comes out at the integers
    /// `a_j·X + b_j + μ_j·p` of its maps and its block, whatever the smudging
    /// factors, the assembled values are the field-layer encoding of `ι_bin(x)`.
    pub proof fn law_bit_encoding_is_correct(
        self,
        ek: FieldEncodingInfo,
        maps: Seq<Maps>,
        mus: Seq<Seq<[u64; 5]>>,
        x: ProofBits,
        out: Seq<Vec<Fq>>,
        enc: FieldEncoding,
        y: ProofCoords,
    )
        requires
            self.honest_values(ek, maps, mus, x, out, enc),
            BinToField.maps(x, y),
        ensures
            ek.a.encodes(enc.a, y.a.0@, y.a.1@),
            ek.b.encodes(enc.b, y.b.0@, y.b.1@),
            ek.c.encodes(enc.c, y.c.0@, y.c.1@),
    {
        let tsu = choose|ts: Seq<Fq2>|
            ts.len() == ek.b.u@.len() && #[trigger] are_halves_of(
                maps[2]@,
                maps[3]@,
                ek.b.u@,
                ts,
            );
        let tsv = choose|ts: Seq<Fq2>|
            ts.len() == ek.b.v@.len() && #[trigger] are_halves_of(
                maps[4]@,
                maps[5]@,
                ek.b.v@,
                ts,
            );
        assert(out[0]@ == out[0]@ && out[1]@ == out[1]@ && out[2]@ == out[2]@ && out[3]@
            == out[3]@ && out[4]@ == out[4]@ && out[5]@ == out[5]@ && out[6]@ == out[6]@
            && out[7]@ == out[7]@);
        lemma_plain_values(
            ek.a.u@,
            maps[0]@,
            mus[0],
            x.block_val(0),
            out[0]@,
            enc.a.u@,
            y.a.0@,
        );
        lemma_plain_values(
            ek.a.v@,
            maps[1]@,
            mus[1],
            x.block_val(1),
            out[1]@,
            enc.a.v@,
            y.a.1@,
        );
        lemma_joined_values(
            ek.b.u@,
            tsu,
            maps[2]@,
            maps[3]@,
            mus[2],
            mus[3],
            x.block_val(2),
            x.block_val(3),
            out[2]@,
            out[3]@,
            enc.b.u@,
            y.b.0@,
        );
        lemma_joined_values(
            ek.b.v@,
            tsv,
            maps[4]@,
            maps[5]@,
            mus[4],
            mus[5],
            x.block_val(4),
            x.block_val(5),
            out[4]@,
            out[5]@,
            enc.b.v@,
            y.b.1@,
        );
        lemma_plain_values(
            ek.c.u@,
            maps[6]@,
            mus[6],
            x.block_val(6),
            out[6]@,
            enc.c.u@,
            y.c.0@,
        );
        lemma_plain_values(
            ek.c.v@,
            maps[7]@,
            mus[7],
            x.block_val(7),
            out[7]@,
            enc.c.v@,
            y.c.1@,
        );
    }
}

impl FieldScheme {
    /// The bits of a valid proof seal: evaluation gives nothing, whatever the
    /// instances come out at. Blocks that are not reduced count as their residues.
    pub proof fn law_valid_bits_seal(
        self,
        program: GroupProgram,
        x: ProofBits,
        y: ProofCoords,
        enc: FieldEncoding,
        res: Option<Secret>,
    )
        requires
            BinToField.maps(x, y),
            self.valid_coords(y),
            self.evaluated(program, enc, y, res),
        ensures
            res is None,
    {
        self.law_valid_proof_seals(program, y, enc, res);
    }

    /// The bits of a point off its curve disclose: if the instances come out at
    /// their integers, evaluation gives the secret.
    pub proof fn law_off_curve_bits_disclose(
        self,
        encoder: BitEncoder,
        s: Secret,
        program: GroupProgram,
        ek: FieldEncodingInfo,
        maps: Seq<Maps>,
        mus: Seq<Seq<[u64; 5]>>,
        x: ProofBits,
        y: ProofCoords,
        out: Seq<Vec<Fq>>,
        enc: FieldEncoding,
        res: Option<Secret>,
    )
        requires
            self.garbled(s, program, ek),
            encoder.honest_values(ek, maps, mus, x, out, enc),
            BinToField.maps(x, y),
            !y.on_curves(),
            self.evaluated(program, enc, y, res),
        ensures
            res matches Some(t) && t@ == s@,
    {
        encoder.law_bit_encoding_is_correct(ek, maps, mus, x, out, enc, y);
        self.law_off_curve_discloses(s, program, ek, y, enc, res);
    }

    /// What evaluating any eight blocks gives, if the instances come out at their
    /// integers: nothing exactly for the bits of a valid proof, and else the secret, as
    /// long as no hash collides on the values compared.
    pub proof fn law_honest_bits_outcome(
        self,
        encoder: BitEncoder,
        s: Secret,
        program: GroupProgram,
        ek: FieldEncodingInfo,
        maps: Seq<Maps>,
        mus: Seq<Seq<[u64; 5]>>,
        x: ProofBits,
        y: ProofCoords,
        out: Seq<Vec<Fq>>,
        enc: FieldEncoding,
        res: Option<Secret>,
    )
        requires
            self.group.vk.wf(),
            self.garbled(s, program, ek),
            encoder.honest_values(ek, maps, mus, x, out, enc),
            BinToField.maps(x, y),
            self.evaluated(program, enc, y, res),
            self.no_collision(program, enc, y),
        ensures
            res is None <==> self.valid_coords(y),
            !self.valid_coords(y) ==> (res matches Some(t) && t@ == s@),
    {
        encoder.law_bit_encoding_is_correct(ek, maps, mus, x, out, enc, y);
        self.law_honest_outcome(s, program, ek, y, enc, res);
    }

    /// A program or encoding with any other number of instances than eight gives
    /// nothing: its values assemble to the empty encoding.
    pub proof fn law_truncated_instances_give_nothing(
        self,
        program: GroupProgram,
        y: ProofCoords,
        enc: FieldEncoding,
        res: Option<Secret>,
    )
        requires
            is_empty_encoding(enc),
            self.evaluated(program, enc, y, res),
        ensures
            res is None,
    {
        self.law_wrong_lengths_give_nothing(program, y, enc, res);
    }
}

/// `N_base` is the number of base-field entries of the field layer's layout.
pub proof fn law_n_base_matches_the_layout(layout: FieldLayout)
    requires
        layout.wf(),
    ensures
        N_BASE == layout.a.total.u + layout.a.total.v + 4 * (layout.b.total.u + layout.b.total.v)
            + layout.c.total.u + layout.c.total.v,
        N_BASE == 10_758,
{
}

/// The blocks of a proof stand for its coordinates in order: `A`, then `B` with each
/// coordinate by its two components, then `C`, each block reduced modulo `p`.
pub proof fn law_blocks_stand_for_coordinates(x: ProofBits, y: ProofCoords)
    requires
        BinToField.maps(x, y),
    ensures
        y.a.0@ == El::num(nums::bytes_val(x.blocks@[0]@)),
        y.a.1@ == El::num(nums::bytes_val(x.blocks@[1]@)),
        y.b.0.c0@ == El::num(nums::bytes_val(x.blocks@[2]@)),
        y.b.0.c1@ == El::num(nums::bytes_val(x.blocks@[3]@)),
        y.b.1.c0@ == El::num(nums::bytes_val(x.blocks@[4]@)),
        y.b.1.c1@ == El::num(nums::bytes_val(x.blocks@[5]@)),
        y.c.0@ == El::num(nums::bytes_val(x.blocks@[6]@)),
        y.c.1@ == El::num(nums::bytes_val(x.blocks@[7]@)),
{
}

/// The first halves of split labels carry the coefficient and the drawn element, the second
/// halves what is missing from the offset: label by label, and for every label.
pub proof fn law_halves_carry_the_draws(
    on_x0: Seq<(Fq, Fq)>,
    on_x1: Seq<(Fq, Fq)>,
    labels: Seq<Affine<Fq2>>,
    ts: Seq<Fq2>,
    j: int,
)
    requires
        are_halves_of(on_x0, on_x1, labels, ts),
        0 <= j < labels.len(),
    ensures
        on_x0.len() == 2 * labels.len() && on_x1.len() == 2 * labels.len(),
        on_x0[2 * j].0@ == labels[j].a.c0@,
        on_x0[2 * j + 1].0@ == labels[j].a.c1@,
        on_x0[2 * j].1@ == ts[j].c0@,
        on_x0[2 * j + 1].1@ == ts[j].c1@,
        on_x1[2 * j].0@ == labels[j].a.c1@.opp(),
        on_x1[2 * j + 1].0@ == labels[j].a.c0@,
        on_x1[2 * j].1@ == El::num(labels[j].b@.minus(ts[j]@).c0),
        on_x1[2 * j + 1].1@ == El::num(labels[j].b@.minus(ts[j]@).c1),
{
    let l = labels[j];
}

impl FieldScheme {
    /// Eight blocks seal exactly where each pair of their coordinates is on its curve, `B`
    /// lies in `G_2` and `log A · log B + log C · log H_1 − log D` is zero modulo `r`: if the
    /// instances come out at their integers, evaluation gives nothing there, and everywhere
    /// else the secret, as long as SHA-256 tells the different messages apart that it compares.
    pub proof fn law_bits_seal_exactly_at_zero(
        self,
        encoder: BitEncoder,
        s: Secret,
        program: GroupProgram,
        ek: FieldEncodingInfo,
        maps: Seq<Maps>,
        mus: Seq<Seq<[u64; 5]>>,
        x: ProofBits,
        y: ProofCoords,
        out: Seq<Vec<Fq>>,
        enc: FieldEncoding,
        res: Option<Secret>,
    )
        requires
            self.group.vk.wf(),
            self.garbled(s, program, ek),
            encoder.honest_values(ek, maps, mus, x, out, enc),
            BinToField.maps(x, y),
            self.evaluated(program, enc, y, res),
            self.digests_told_apart(program, enc, y),
        ensures
            res is None <==> (points::on_curve(y.a.0@, y.a.1@, groups::beta1()) && points::on_curve(
                y.b.0@,
                y.b.1@,
                groups::beta2(),
            ) && points::on_curve(y.c.0@, y.c.1@, groups::beta1()) && groups::in_subgroup(
                Pt::At(y.b.0@, y.b.1@),
            ) && (groups::g1_log(Pt::At(y.a.0@, y.a.1@)) * groups::g2_log(Pt::At(y.b.0@, y.b.1@))
                + groups::g1_log(Pt::At(y.c.0@, y.c.1@)) * groups::g2_log(self.group.vk.h1@)
                - groups::gt_log(self.group.vk.d@)) % ring::r() == 0),
            !(points::on_curve(y.a.0@, y.a.1@, groups::beta1()) && points::on_curve(
                y.b.0@,
                y.b.1@,
                groups::beta2(),
            ) && points::on_curve(y.c.0@, y.c.1@, groups::beta1()) && groups::in_subgroup(
                Pt::At(y.b.0@, y.b.1@),
            ) && (groups::g1_log(Pt::At(y.a.0@, y.a.1@)) * groups::g2_log(Pt::At(y.b.0@, y.b.1@))
                + groups::g1_log(Pt::At(y.c.0@, y.c.1@)) * groups::g2_log(self.group.vk.h1@)
                - groups::gt_log(self.group.vk.d@)) % ring::r() == 0) ==> (res matches Some(t) && t@ == s@),
    {
        encoder.law_bit_encoding_is_correct(ek, maps, mus, x, out, enc, y);
        self.law_seals_exactly_at_zero(s, program, ek, y, enc, res);
    }
}

} // verus!
