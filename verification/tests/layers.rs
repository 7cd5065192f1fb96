//! Correctness of the layers on synthetic instances: valid proofs seal,
//! invalid proofs disclose, and every malformed input discloses through the
//! check that catches it.

use ark_bn254::Bn254;
use ark_ff::{BigInteger, PrimeField};
use ark_groth16::Groth16;
use ark_relations::r1cs::{ConstraintSynthesizer, ConstraintSystemRef, SynthesisError};
use ark_snark::SNARK;
use ark_std::rand::rngs::StdRng;
use ark_std::rand::SeedableRng;
use grover::bits::{
    sample_mus, size_report, BinToField, BitEncoder, Block, Maps, ProofBits, NUM_BLOCKS,
};
use grover::curve::{
    fq_limbs, fq_to_block, g1_from_coords, h_key, in_g2, p_limbs, pair, twist_from_coords, xor,
    Secret, Twist, G1,
};
use grover::elems::{Field, Fq, Fq2, Fr};
use grover::field::{FieldEncoding, FieldEncodingInfo, FieldScheme, ProofCoords};
use grover::group::{GroupScheme, ProofPoints, KAPPA};
use grover::pgs::{Compose, Pgs, PublicMap};
use grover::testutil::{synthetic, twist_off_g2};
use grover::Verifier;

const SID: &[u8] = b"grover/test";
const SECRET: Secret = [0x5A; 16];

fn rng() -> StdRng {
    StdRng::seed_from_u64(0x6c61_7965_7273)
}

fn group_scheme(vk: &Verifier) -> GroupScheme {
    GroupScheme::new(vk.clone(), SID.to_vec())
}

fn field_scheme(vk: &Verifier) -> FieldScheme {
    FieldScheme::new(vk.clone(), SID.to_vec())
}

fn twist_point_off_g2(rng: &mut StdRng) -> Twist {
    twist_off_g2(rng).expect("half of the abscissae give a point, nearly all off G_2")
}

// ------------------------------------------------------------------ groups

#[test]
fn group_layer_seals_valid_and_discloses_invalid() {
    let mut rng = rng();
    let inst = synthetic(&mut rng);
    let scheme = group_scheme(&inst.vk);
    let (program, ek) = scheme.garble(&mut rng, &SECRET);

    let enc = scheme.encode(&ek, &inst.valid);
    assert_eq!(
        scheme.eval(&program, &enc, &inst.valid),
        None,
        "valid seals"
    );

    let enc = scheme.encode(&ek, &inst.invalid);
    assert_eq!(
        scheme.eval(&program, &enc, &inst.invalid),
        Some(SECRET),
        "invalid discloses"
    );
}

/// Off the subgroup the coefficient is read from `c_t·(r·B)`.
#[test]
fn group_layer_discloses_when_b_is_off_the_subgroup() {
    let mut rng = rng();
    let inst = synthetic(&mut rng);
    let scheme = group_scheme(&inst.vk);
    let (program, ek) = scheme.garble(&mut rng, &SECRET);

    let bad = ProofPoints {
        b: twist_point_off_g2(&mut rng),
        ..inst.valid
    };
    assert!(!in_g2(&bad.b));
    let enc = scheme.encode(&ek, &bad);
    assert_eq!(
        scheme.eval(&program, &enc, &bad),
        Some(SECRET),
        "step 1 opens s"
    );
}

/// Off the subgroup, a label whose multiple is neither zero nor that of `B` is
/// malformed.
#[test]
fn group_layer_rejects_a_label_off_both_multiples() {
    let mut rng = rng();
    let inst = synthetic(&mut rng);
    let scheme = group_scheme(&inst.vk);
    let (program, ek) = scheme.garble(&mut rng, &SECRET);
    let bad = ProofPoints {
        b: twist_point_off_g2(&mut rng),
        ..inst.valid
    };
    let mut enc = scheme.encode(&ek, &bad);
    enc.b[7] = enc.b[7].add(&bad.b).add(&bad.b);
    assert_eq!(scheme.eval(&program, &enc, &bad), None);
}

#[test]
fn group_layer_accepts_the_point_at_infinity() {
    let mut rng = rng();
    let inst = synthetic(&mut rng);
    let scheme = group_scheme(&inst.vk);
    let (program, ek) = scheme.garble(&mut rng, &SECRET);

    // Each proof point at infinity in turn. B = O lies in G_2 (r·O = O), so it
    // reaches the commitments; all three make the proof invalid.
    let cases = [
        ProofPoints {
            a: G1::zero(),
            ..inst.valid
        },
        ProofPoints {
            b: Twist::zero(),
            ..inst.valid
        },
        ProofPoints {
            c: G1::zero(),
            ..inst.valid
        },
    ];
    for x in cases {
        assert!(!inst.vk.is_valid(&x));
        let enc = scheme.encode(&ek, &x);
        assert_eq!(scheme.eval(&program, &enc, &x), Some(SECRET));
    }
}

#[test]
fn group_layer_ignores_a_tampered_program() {
    // A wrong commitment on one component makes the search fail to decode uniquely.
    let mut rng = rng();
    let inst = synthetic(&mut rng);
    let scheme = group_scheme(&inst.vk);
    let (mut program, ek) = scheme.garble(&mut rng, &SECRET);
    program.commits[3] = [0u8; 32];
    let enc = scheme.encode(&ek, &inst.invalid);
    assert_eq!(scheme.eval(&program, &enc, &inst.invalid), None);
}

/// A label on `B` outside `G_2` is rejected rather than fed to the pairing.
#[test]
fn group_layer_rejects_a_label_outside_g2() {
    let mut rng = rng();
    let inst = synthetic(&mut rng);
    let scheme = group_scheme(&inst.vk);
    let (program, ek) = scheme.garble(&mut rng, &SECRET);
    let mut enc = scheme.encode(&ek, &inst.invalid);
    enc.b[0] = enc.b[0].add(&twist_point_off_g2(&mut rng));
    assert_eq!(scheme.eval(&program, &enc, &inst.invalid), None);
}

/// A base outside `G_2` gives nothing where the commitments are read, and does not
/// matter where they are not.
#[test]
fn group_layer_rejects_a_base_outside_g2() {
    let mut rng = rng();
    let inst = synthetic(&mut rng);
    let scheme = group_scheme(&inst.vk);
    let (mut program, ek) = scheme.garble(&mut rng, &SECRET);
    program.bases[5] = program.bases[5].add(&twist_point_off_g2(&mut rng));
    let enc = scheme.encode(&ek, &inst.invalid);
    assert_eq!(scheme.eval(&program, &enc, &inst.invalid), None);
    let enc = scheme.encode(&ek, &inst.valid);
    assert_eq!(scheme.eval(&program, &enc, &inst.valid), None);
    let bad = ProofPoints {
        b: twist_point_off_g2(&mut rng),
        ..inst.valid
    };
    let enc = scheme.encode(&ek, &bad);
    assert_eq!(scheme.eval(&program, &enc, &bad), Some(SECRET));
}

/// Two encodings differ by the inputs where the coefficient is set, and the encoding
/// of points at infinity is the keys.
#[test]
fn encodings_differ_by_the_inputs() {
    let mut rng = rng();
    let inst = synthetic(&mut rng);
    let scheme = group_scheme(&inst.vk);
    let (_, ek) = scheme.garble(&mut rng, &SECRET);
    let x1 = inst.valid;
    for x2 in [
        inst.invalid,
        ProofPoints {
            a: G1::rand(&mut rng),
            b: twist_point_off_g2(&mut rng),
            c: G1::rand(&mut rng),
        },
    ] {
        let (e1, e2) = (scheme.encode(&ek, &x1), scheme.encode(&ek, &x2));
        assert_eq!((e1.a.len(), e1.b.len(), e1.c.len()), (254, 128, 128));
        for i in 0..254 {
            let want = if ek.a_coeffs[i] { x2.a.sub(&x1.a) } else { G1::zero() };
            assert_eq!(e2.a[i].sub(&e1.a[i]), want);
        }
        for t in 0..128 {
            let want = if ek.coeffs[t] { x2.b.sub(&x1.b) } else { Twist::zero() };
            assert_eq!(e2.b[t].sub(&e1.b[t]), want);
            let want = if ek.coeffs[t] { x2.c.sub(&x1.c) } else { G1::zero() };
            assert_eq!(e2.c[t].sub(&e1.c[t]), want);
        }
    }
    let infinity = ProofPoints {
        a: G1::zero(),
        b: Twist::zero(),
        c: G1::zero(),
    };
    let enc = scheme.encode(&ek, &infinity);
    assert_eq!(enc.a, ek.a_keys);
    assert_eq!(enc.b, ek.b_keys);
    assert_eq!(enc.c, ek.c_keys);
}

fn times(p: &G1, n: usize) -> G1 {
    (0..n).fold(G1::zero(), |acc, _| acc.add(p))
}

/// Encoding information must be used once. Two encodings under the same keys,
/// for two different values of `B`, subtract to `c_t·(B' − B)`, and enumerating
/// `{0, 1}` recovers every `c_t` and hence the pad on `s`. Both proofs can be
/// valid: for `a ∈ F_r^×`, `(aA, a^{-1}B, C)` preserves the pairing equation.
///
/// This is a condition on the surrounding protocol, not something the scheme can
/// enforce, so the test records the attack rather than a defence.
#[test]
fn reusing_encoding_information_recovers_the_secret() {
    let mut rng = rng();
    let inst = synthetic(&mut rng);
    let scheme = group_scheme(&inst.vk);
    let (program, ek) = scheme.garble(&mut rng, &SECRET);

    let inverse = ark_ff::Field::inverse(&ark_bn254::Fr::from(7u64)).unwrap();
    let other = ProofPoints {
        a: times(&inst.valid.a, 7),
        b: inst.valid.b.mul(Fr::from_limbs(inverse.into_bigint().0)),
        c: inst.valid.c,
    };
    assert!(inst.vk.is_valid(&other) && inst.vk.is_valid(&inst.valid));

    let first = scheme.encode(&ek, &inst.valid);
    let second = scheme.encode(&ek, &other);
    assert_eq!(
        scheme.eval(&program, &first, &inst.valid),
        None,
        "one use seals"
    );

    let delta = other.b.sub(&inst.valid.b);
    let recovered: Vec<bool> = (0..KAPPA)
        .map(|t| {
            let d = second.b[t].sub(&first.b[t]);
            if d.is_zero() {
                false
            } else {
                assert_eq!(d, delta);
                true
            }
        })
        .collect();
    let bytes: Vec<u8> = recovered.iter().map(|&c| c as u8).collect();
    let opened = xor(&program.ct, &h_key(SID, &bytes));
    assert_eq!(
        opened, SECRET,
        "two encodings open the secret on a valid proof"
    );
}

/// A truncated group program must not panic the evaluator: the party
/// publishing it is the one that wants disclosure not to happen.
#[test]
fn group_layer_rejects_a_truncated_program() {
    let mut rng = rng();
    let inst = synthetic(&mut rng);
    let scheme = group_scheme(&inst.vk);
    let (mut program, ek) = scheme.garble(&mut rng, &SECRET);
    program.bases.pop();
    program.commits.pop();
    let enc = scheme.encode(&ek, &inst.invalid);
    assert_eq!(scheme.eval(&program, &enc, &inst.invalid), None);
}

// ------------------------------------------------------------------ fields

#[test]
fn field_layer_seals_valid_and_discloses_invalid() {
    let mut rng = rng();
    let inst = synthetic(&mut rng);
    let scheme = field_scheme(&inst.vk);
    let (program, ek) = scheme.garble(&mut rng, &SECRET);

    let valid = ProofCoords::from_points(&inst.valid).unwrap();
    let enc = scheme.encode(&ek, &valid);
    assert_eq!(scheme.eval(&program, &enc, &valid), None);

    let invalid = ProofCoords::from_points(&inst.invalid).unwrap();
    let enc = scheme.encode(&ek, &invalid);
    assert_eq!(scheme.eval(&program, &enc, &invalid), Some(SECRET));
}

fn bump(x: Fq) -> Fq {
    x.add(Fq::one())
}

#[test]
fn field_layer_discloses_off_curve_coordinates() {
    let mut rng = rng();
    let inst = synthetic(&mut rng);
    let scheme = field_scheme(&inst.vk);
    let (program, ek) = scheme.garble(&mut rng, &SECRET);
    let valid = ProofCoords::from_points(&inst.valid).unwrap();

    // A off the curve.
    let mut x = valid;
    x.a.1 = bump(x.a.1);
    assert!(x.to_points().is_none());
    let enc = scheme.encode(&ek, &x);
    assert_eq!(
        scheme.eval(&program, &enc, &x),
        Some(SECRET),
        "check on A opens s"
    );

    // B off the twist.
    let mut x = valid;
    x.b.0.c1 = bump(x.b.0.c1);
    assert!(x.to_points().is_none());
    let enc = scheme.encode(&ek, &x);
    assert_eq!(
        scheme.eval(&program, &enc, &x),
        Some(SECRET),
        "check on B opens s"
    );

    // C off the curve.
    let mut x = valid;
    x.c.0 = bump(x.c.0);
    let enc = scheme.encode(&ek, &x);
    assert_eq!(
        scheme.eval(&program, &enc, &x),
        Some(SECRET),
        "check on C opens s"
    );
}

#[test]
fn field_layer_discloses_the_zero_secret_off_curve() {
    // With s = 0 the check polynomials are identically zero; the evaluator must
    // still output s (= 0), not ⊥, because it branches on the public curve equation.
    let mut rng = rng();
    let inst = synthetic(&mut rng);
    let scheme = field_scheme(&inst.vk);
    let zero: Secret = [0u8; 16];
    let (program, ek) = scheme.garble(&mut rng, &zero);
    let mut x = ProofCoords::from_points(&inst.valid).unwrap();
    x.a.1 = bump(x.a.1);
    let enc = scheme.encode(&ek, &x);
    assert_eq!(scheme.eval(&program, &enc, &x), Some(zero));
}

#[test]
fn field_layer_discloses_b_off_the_subgroup() {
    let mut rng = rng();
    let inst = synthetic(&mut rng);
    let scheme = field_scheme(&inst.vk);
    let (program, ek) = scheme.garble(&mut rng, &SECRET);

    let bad = ProofPoints {
        b: twist_point_off_g2(&mut rng),
        ..inst.valid
    };
    let x = ProofCoords::from_points(&bad).unwrap();
    let enc = scheme.encode(&ek, &x);
    assert_eq!(scheme.eval(&program, &enc, &x), Some(SECRET));
}

/// An encoding of the wrong length gives nothing, in particular the empty one.
#[test]
fn field_layer_rejects_a_truncated_encoding() {
    let mut rng = rng();
    let inst = synthetic(&mut rng);
    let scheme = field_scheme(&inst.vk);
    let (program, ek) = scheme.garble(&mut rng, &SECRET);
    let x = ProofCoords::from_points(&inst.invalid).unwrap();
    let mut enc = scheme.encode(&ek, &x);
    enc.b.v.pop();
    assert_eq!(scheme.eval(&program, &enc, &x), None);
    assert_eq!(scheme.eval(&program, &FieldEncoding::default(), &x), None);
}

/// The coordinates of a valid proof seal under any program, also one with a base
/// outside `G_2`; off the subgroup such a program still discloses.
#[test]
fn field_layer_takes_a_program_with_a_base_outside_g2() {
    let mut rng = rng();
    let inst = synthetic(&mut rng);
    let scheme = field_scheme(&inst.vk);
    let (mut program, ek) = scheme.garble(&mut rng, &SECRET);
    program.bases[0] = twist_point_off_g2(&mut rng);
    let outcome = |points: &ProofPoints| {
        let x = ProofCoords::from_points(points).unwrap();
        let enc = scheme.encode(&ek, &x);
        scheme.eval(&program, &enc, &x)
    };
    assert_eq!(outcome(&inst.valid), None);
    assert_eq!(outcome(&inst.invalid), None);
    let bad = ProofPoints {
        b: twist_point_off_g2(&mut rng),
        ..inst.valid
    };
    assert_eq!(outcome(&bad), Some(SECRET));
}

/// A proof chosen after the masks are known still discloses.
///
/// The party that generates the garbling also supplies the proof, so it can aim
/// an input straight at the coordinate encoder's degenerate case: pick `A` with
/// `b_i·A = M_i` for an entry whose coefficient is `1`. The incomplete addition
/// law then returns the all-zero triple at that entry, which the decoder handles
/// exactly.
#[test]
fn field_layer_discloses_on_a_proof_aimed_at_the_masks() {
    let mut rng = rng();
    let inst = synthetic(&mut rng);
    let scheme = field_scheme(&inst.vk);
    let (program, ek_f, ek_g) = scheme.garble_parts(&mut rng, &SECRET);

    // The first entry on A whose coefficient is one.
    let i = ek_g
        .a_coeffs
        .iter()
        .position(|&c| c)
        .expect("−k has a set bit");
    let a = ek_g.a_keys[i];

    let aimed = ProofPoints { a, ..inst.valid };
    assert!(!inst.vk.is_valid(&aimed), "the aimed proof is invalid");
    let x = ProofCoords::from_points(&aimed).unwrap();
    let enc = scheme.encode(&ek_f, &x);
    assert_eq!(
        scheme.eval(&program, &enc, &x),
        Some(SECRET),
        "a proof aimed at mask {i} must still disclose"
    );
}

/// A proof aimed at one of `B`'s own masks, mirroring the `A`-side test above.
#[test]
fn field_layer_discloses_on_a_proof_aimed_at_bs_mask() {
    let mut rng = rng();
    let inst = synthetic(&mut rng);
    let scheme = field_scheme(&inst.vk);
    let (program, ek_f, ek_g) = scheme.garble_parts(&mut rng, &SECRET);

    let t = ek_g
        .coeffs
        .iter()
        .position(|&c| c)
        .expect("c⃗ has a set bit");
    let aimed = ProofPoints {
        b: ek_g.b_keys[t],
        ..inst.valid
    };
    assert!(!inst.vk.is_valid(&aimed), "the aimed proof is invalid");
    let x = ProofCoords::from_points(&aimed).unwrap();
    let enc = scheme.encode(&ek_f, &x);
    assert_eq!(
        scheme.eval(&program, &enc, &x),
        Some(SECRET),
        "a proof aimed at B's mask {t} must still disclose"
    );
}

// -------------------------------------------------------------------- bits

/// An inner scheme that computes each block's integers `a·X + b + μ·p` in the
/// clear, in the place of the Duty-Free Bits instances.
struct ClearBits {
    encoder: BitEncoder,
}

/// The maps and smudging factors of one block.
type ClearInstance = (Maps, Vec<[u64; 5]>);

fn wide(limbs: &[u64]) -> ark_ff::BigInt<9> {
    let mut out = [0u64; 9];
    out[..limbs.len()].copy_from_slice(limbs);
    ark_ff::BigInt(out)
}

impl Pgs for ClearBits {
    type GarblerInput = FieldEncodingInfo;
    type Input = ProofBits;
    type Program = Vec<ClearInstance>;
    type EncodingInfo = ();
    type Encoding = ();
    type Output = FieldEncoding;

    // The relations are for proofs alone: nothing calls them.

    fn can_garble(&self, _: FieldEncodingInfo) -> bool {
        unreachable!()
    }

    fn garbled(&self, _: FieldEncodingInfo, _: Vec<ClearInstance>, _: ()) -> bool {
        unreachable!()
    }

    fn can_encode(&self, _: (), _: ProofBits) -> bool {
        unreachable!()
    }

    fn encoded(&self, _: (), _: ProofBits, _: ()) -> bool {
        unreachable!()
    }

    fn can_eval(&self, _: Vec<ClearInstance>, _: (), _: ProofBits) -> bool {
        unreachable!()
    }

    fn evaluated(&self, _: Vec<ClearInstance>, _: (), _: ProofBits, _: FieldEncoding) -> bool {
        unreachable!()
    }

    fn garble(&self, rng: &mut StdRng, ek: &FieldEncodingInfo) -> (Vec<ClearInstance>, ()) {
        let maps = self.encoder.block_maps(rng, ek);
        let program = maps
            .into_iter()
            .map(|m| {
                let mus = sample_mus(rng, m.len());
                (m, mus)
            })
            .collect();
        (program, ())
    }

    fn encode(&self, _: &(), _: &ProofBits) {}

    fn eval(&self, program: &Vec<ClearInstance>, _: &(), x: &ProofBits) -> FieldEncoding {
        let out: Vec<Vec<Fq>> = program
            .iter()
            .enumerate()
            .map(|(i, (maps, mus))| {
                let mut block = ark_ff::BigInt::<9>::from(0u64);
                for bit in x.bits(i).iter().rev() {
                    block.mul2();
                    block.add_with_carry(&ark_ff::BigInt::from(*bit));
                }
                let values: Vec<[u64; 9]> = maps
                    .iter()
                    .zip(mus)
                    .map(|((a, b), mu)| {
                        let mut v = wide(&fq_limbs(*a)).mul_low(&block);
                        v.add_with_carry(&wide(&fq_limbs(*b)));
                        v.add_with_carry(&wide(mu).mul_low(&wide(&p_limbs())));
                        v.0
                    })
                    .collect();
                self.encoder.decode(&values)
            })
            .collect();
        self.encoder.assemble(&out)
    }
}

fn clear_bit_scheme(vk: &Verifier) -> Compose<FieldScheme, ClearBits, BinToField> {
    Compose {
        outer: field_scheme(vk),
        inner: ClearBits {
            encoder: BitEncoder::new(),
        },
        iota: BinToField,
    }
}

#[test]
fn bit_layer_end_to_end() {
    let mut rng = rng();
    let inst = synthetic(&mut rng);
    let scheme = clear_bit_scheme(&inst.vk);
    let (program, ek) = scheme.garble(&mut rng, &SECRET);

    let valid = ProofBits::from_coords(&ProofCoords::from_points(&inst.valid).unwrap());
    let enc = scheme.encode(&ek, &valid);
    assert_eq!(
        scheme.eval(&program, &enc, &valid),
        None,
        "valid proof seals"
    );

    let invalid = ProofBits::from_coords(&ProofCoords::from_points(&inst.invalid).unwrap());
    let enc = scheme.encode(&ek, &invalid);
    assert_eq!(
        scheme.eval(&program, &enc, &invalid),
        Some(SECRET),
        "invalid proof discloses"
    );
}

#[test]
fn bit_layer_reduces_non_canonical_blocks() {
    // A block holding coordinate + p describes the same valid proof: ι_bin reduces
    // it, so the output is ⊥, unlike the deployed verifier which rejects it.
    let mut rng = rng();
    let inst = synthetic(&mut rng);
    let scheme = clear_bit_scheme(&inst.vk);
    let (program, ek) = scheme.garble(&mut rng, &SECRET);

    let coords = ProofCoords::from_points(&inst.valid).unwrap();
    let mut x = ProofBits::from_coords(&coords);
    let mut big = ark_ff::BigInt::<4>(fq_limbs(coords.a.0));
    let carry = big.add_with_carry(&ark_bn254::Fq::MODULUS);
    assert!(!carry);
    let bytes = big.to_bytes_le();
    x.blocks[Block::AU as usize].copy_from_slice(&bytes[..32]);
    assert_ne!(x.blocks[Block::AU as usize], fq_to_block(coords.a.0));
    assert_eq!(BinToField.apply(&x), coords);

    let enc = scheme.encode(&ek, &x);
    assert_eq!(scheme.eval(&program, &enc, &x), None);
}

#[test]
fn bit_layer_discloses_malformed_inputs() {
    let mut rng = rng();
    let inst = synthetic(&mut rng);
    let scheme = clear_bit_scheme(&inst.vk);
    let (program, ek) = scheme.garble(&mut rng, &SECRET);
    let coords = ProofCoords::from_points(&inst.valid).unwrap();

    // Off-curve A, given as bits.
    let mut off = coords;
    off.a.0 = bump(off.a.0);
    let x = ProofBits::from_coords(&off);
    let enc = scheme.encode(&ek, &x);
    assert_eq!(scheme.eval(&program, &enc, &x), Some(SECRET), "off-curve A");

    // Off-curve B, given as bits.
    let mut off = coords;
    off.b.1.c0 = bump(off.b.1.c0);
    let x = ProofBits::from_coords(&off);
    let enc = scheme.encode(&ek, &x);
    assert_eq!(scheme.eval(&program, &enc, &x), Some(SECRET), "off-twist B");

    // B on the twist but off G_2, given as bits.
    let bad = ProofPoints {
        b: twist_point_off_g2(&mut rng),
        ..inst.valid
    };
    let x = ProofBits::from_coords(&ProofCoords::from_points(&bad).unwrap());
    let enc = scheme.encode(&ek, &x);
    assert_eq!(
        scheme.eval(&program, &enc, &x),
        Some(SECRET),
        "B off the subgroup"
    );
}

/// A program with fewer than the expected eight per-block instances must disclose
/// nothing rather than panic: it degrades to an empty `FieldEncoding`, which
/// `FieldScheme::eval`'s length guard then rejects.
#[test]
fn bit_layer_rejects_a_truncated_program() {
    let mut rng = rng();
    let inst = synthetic(&mut rng);
    let scheme = clear_bit_scheme(&inst.vk);
    let (mut program, ek) = scheme.garble(&mut rng, &SECRET);
    assert_eq!(program.1.len(), NUM_BLOCKS);
    program.1.pop();
    let invalid = ProofBits::from_coords(&ProofCoords::from_points(&inst.invalid).unwrap());
    let enc = scheme.encode(&ek, &invalid);
    assert_eq!(scheme.eval(&program, &enc, &invalid), None);
}

/// The exact bit counts of a garbled program, with the accounting of the Duty-Free
/// Bits programs given.
#[test]
fn exact_program_size() {
    let mut rng = rng();
    let inst = synthetic(&mut rng);
    let scheme = group_scheme(&inst.vk);
    let (program, _) = scheme.garble(&mut rng, &SECRET);
    let report = size_report(&program, 13_821_010, 6_573_138);

    // group_bits: kappa compressed G_2 elements (64 bytes each, the serializer's
    // own width, not a hard-coded one) + kappa 32-byte commitments + one 16-byte
    // secret.
    assert_eq!(report.group_bits, 128 * 512 + 128 * 256 + 128);
    assert_eq!(report.group_bits, 98_432);
    assert_eq!(report.dfb_ciphertext_bits, 13_821_010);
    assert_eq!(report.dfb_output_decoding_bits, 6_573_138);
    assert_eq!(report.total_bits(), 20_492_580);
    let mib = report.total_bits() as f64 / (8.0 * 1024.0 * 1024.0);
    assert!((mib - 2.4429).abs() < 1e-3, "total {mib:.4} MiB");
}

// ----------------------------------------------------------------- groth16

/// `a · b = c` with public `c`.
#[derive(Clone)]
struct MulCircuit {
    a: Option<ark_bn254::Fr>,
    b: Option<ark_bn254::Fr>,
}

impl ConstraintSynthesizer<ark_bn254::Fr> for MulCircuit {
    fn generate_constraints(
        self,
        cs: ConstraintSystemRef<ark_bn254::Fr>,
    ) -> Result<(), SynthesisError> {
        let a = cs.new_witness_variable(|| self.a.ok_or(SynthesisError::AssignmentMissing))?;
        let b = cs.new_witness_variable(|| self.b.ok_or(SynthesisError::AssignmentMissing))?;
        let c = cs.new_input_variable(|| {
            let a = self.a.ok_or(SynthesisError::AssignmentMissing)?;
            let b = self.b.ok_or(SynthesisError::AssignmentMissing)?;
            Ok(a * b)
        })?;
        cs.enforce_constraint(a.into(), b.into(), c.into())?;
        Ok(())
    }
}

fn fq_from_ark(x: ark_bn254::Fq) -> Fq {
    Fq::from_limbs(x.into_bigint().0)
}

/// A finite point of `E`.
fn g1_from_ark(p: ark_bn254::G1Affine) -> G1 {
    g1_from_coords(fq_from_ark(p.x), fq_from_ark(p.y)).unwrap()
}

/// A finite point of the twist.
fn twist_from_ark(p: ark_bn254::G2Affine) -> Twist {
    twist_from_coords(
        Fq2::new(fq_from_ark(p.x.c0), fq_from_ark(p.x.c1)),
        Fq2::new(fq_from_ark(p.y.c0), fq_from_ark(p.y.c1)),
    )
    .unwrap()
}

/// The normalized verifier for an `ark-groth16` key and a claimed statement:
/// `H_1 = −δ`, `D = e(α, β) + e(X, γ)` with `X = vk_0 + Σ ξ_i vk_i`.
fn verifier_from_ark(
    vk: &ark_groth16::VerifyingKey<Bn254>,
    statement: &[ark_bn254::Fr],
) -> Verifier {
    let mut x: ark_bn254::G1Projective = vk.gamma_abc_g1[0].into();
    for (i, xi) in statement.iter().enumerate() {
        x += vk.gamma_abc_g1[i + 1] * *xi;
    }
    Verifier {
        h1: twist_from_ark(vk.delta_g2).neg(),
        d: pair(&g1_from_ark(vk.alpha_g1), &twist_from_ark(vk.beta_g2))
            .add(&pair(&g1_from_ark(x.into()), &twist_from_ark(vk.gamma_g2))),
    }
}

/// The scheme over bits on a genuine `ark-groth16` proof: the proof's canonical
/// blocks seal for the statement it proves and disclose for any other statement.
#[test]
fn real_groth16_proof_seals_for_its_statement_and_discloses_otherwise() {
    let mut rng = StdRng::seed_from_u64(7);
    let (pk, vk) =
        Groth16::<Bn254>::circuit_specific_setup(MulCircuit { a: None, b: None }, &mut rng)
            .unwrap();
    let (a, b) = (ark_bn254::Fr::from(3u64), ark_bn254::Fr::from(11u64));
    let c = a * b;
    let proof = Groth16::<Bn254>::prove(
        &pk,
        MulCircuit {
            a: Some(a),
            b: Some(b),
        },
        &mut rng,
    )
    .unwrap();
    assert!(Groth16::<Bn254>::verify(&vk, &[c], &proof).unwrap());

    let points = ProofPoints {
        a: g1_from_ark(proof.a),
        b: twist_from_ark(proof.b),
        c: g1_from_ark(proof.c),
    };
    let bits = ProofBits::from_coords(&ProofCoords::from_points(&points).unwrap());
    let secret: Secret = [0x9E; 16];
    let scheme_for = |statement: &[ark_bn254::Fr]| {
        let mut scheme = clear_bit_scheme(&verifier_from_ark(&vk, statement));
        scheme.outer.group.sid = b"real-g16".to_vec();
        scheme
    };

    // The statement the proof is for: seals.
    let scheme = scheme_for(&[c]);
    assert!(scheme.outer.group.vk.is_valid(&points));
    let (program, ek) = scheme.garble(&mut rng, &secret);
    let enc = scheme.encode(&ek, &bits);
    assert_eq!(scheme.eval(&program, &enc, &bits), None);

    // A different statement: the same proof is invalid and discloses.
    let scheme = scheme_for(&[c + ark_bn254::Fr::from(1u64)]);
    assert!(!scheme.outer.group.vk.is_valid(&points));
    let (program, ek) = scheme.garble(&mut rng, &secret);
    let enc = scheme.encode(&ek, &bits);
    assert_eq!(scheme.eval(&program, &enc, &bits), Some(secret));
}
