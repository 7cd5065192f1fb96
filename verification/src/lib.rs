//! Grover: a garbled Groth16 verifier.
//!
//! The construction garbles Groth16 secret disclosure, with binary coefficients
//! only.
//!
//! # Reading order
//!
//! 1. [`pgs`]: the interface every layer implements, and composition across a
//!    change of the evaluator's input representation.
//! 2. [`group`]: the scheme over points, the only layer with a new security
//!    proof (the rekeying gadget for a pairing of two evaluator inputs).
//! 3. [`itpg`], then [`pointenc`]: garbling a polynomial, and the coordinate
//!    encoder built from it.
//! 4. [`field`]: the scheme over coordinates, plus the curve checks.
//! 5. [`bits`]: the scheme over bit strings, around the Duty-Free Bits compiler.
//!
//! [`curve`] is BN254 and the hashes, referenced throughout. It stands on
//! [`elems`] and [`groups`], the fields and groups as plain limbs. [`draws`] says what
//! was drawn from the generator.
//!
//! The mathematics of the contracts is in [`nums`] (integers as limbs and bytes),
//! [`ring`] and [`inverse`] (the coordinate fields), [`points`] and [`assoc`] (the
//! curve and its addition), [`logs`] (logarithms on it), [`linear`] (sums and products
//! up to order), and [`primes`], [`certificate`] and [`primorial`] (the numbers
//! themselves).
//!
//! Notation is additive in all three pairing groups.
//!
//! # Parameters
//!
//! `n = 254`, `κ = 128`, twelve field entries per point, `N_base = 10,758`.
use vstd::prelude::*;

pub mod assoc;
pub mod bits;
pub mod certificate;
pub mod curve;
pub mod draws;
pub mod elems;
pub mod field;
pub mod group;
pub mod groups;
pub mod inverse;
pub mod itpg;
pub mod linear;
pub mod logs;
pub mod nums;
pub mod pgs;
pub mod pointenc;
pub mod points;
pub mod primes;
pub mod primorial;
pub mod ring;
pub mod testutil;

pub use bits::ProofBits;
pub use curve::Secret;
pub use field::ProofCoords;
pub use group::{ProofPoints, Verifier};
pub use pgs::Pgs;

verus! {

} // verus!
