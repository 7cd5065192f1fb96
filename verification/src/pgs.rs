//! Partial garbling schemes and their composition across a change of the
//! evaluator's input representation.
//!
//! A partial garbling scheme for `f(x, y)` lets a garbler who holds `y` produce a
//! program and encoding information, an encoder who holds the encoding
//! information turn the evaluator's public input `x` into an encoding, and the
//! evaluator compute `f(x, y)` from the program, the encoding, and `x`. Privacy
//! says the evaluator learns nothing about `y` beyond `f(x, y)`.
//!
//! The scheme object carries the public parameters (verification key, session
//! identifier, CRT parameters); the three methods are the algorithms. What each
//! of them promises of its result is a relation of the scheme's own.
use ark_std::rand::rngs::StdRng;
use vstd::prelude::*;

verus! {

/// A partial garbling scheme for a function `f: Input × GarblerInput → Output`.
pub trait Pgs {
    /// The garbler's private input `y`.
    type GarblerInput;

    /// The evaluator's public input `x`.
    type Input;

    /// The garbled program `f~`.
    type Program;

    /// The encoding information `ek`, kept by the garbler.
    type EncodingInfo;

    /// The encoding `x~` of the evaluator's input.
    type Encoding;

    /// The function's output.
    type Output;

    /// The public parameters and private inputs that can be garbled.
    spec fn can_garble(&self, y: Self::GarblerInput) -> bool;

    /// What every garbling of `y` is.
    spec fn garbled(
        &self,
        y: Self::GarblerInput,
        program: Self::Program,
        ek: Self::EncodingInfo,
    ) -> bool;

    /// What the garblings of `y` are whose random choices are the next draws, from one state
    /// of the generator to the other.
    open spec fn garbled_by(
        &self,
        before: StdRng,
        after: StdRng,
        y: Self::GarblerInput,
        program: Self::Program,
        ek: Self::EncodingInfo,
    ) -> bool {
        self.garbled(y, program, ek)
    }

    /// The inputs that can be encoded.
    spec fn can_encode(&self, ek: Self::EncodingInfo, x: Self::Input) -> bool;

    /// What the encoding of `x` is.
    spec fn encoded(&self, ek: Self::EncodingInfo, x: Self::Input, enc: Self::Encoding) -> bool;

    /// The programs and encodings that can be evaluated.
    spec fn can_eval(&self, program: Self::Program, enc: Self::Encoding, x: Self::Input) -> bool;

    /// What the evaluation gives.
    spec fn evaluated(
        &self,
        program: Self::Program,
        enc: Self::Encoding,
        x: Self::Input,
        out: Self::Output,
    ) -> bool;

    /// `Garb(1^λ, y) → (f~, ek)`.
    fn garble(&self, rng: &mut StdRng, y: &Self::GarblerInput) -> (res: (
        Self::Program,
        Self::EncodingInfo,
    ))
        requires
            self.can_garble(*y),
        ensures
            self.garbled(*y, res.0, res.1),
            self.garbled_by(*old(rng), *final(rng), *y, res.0, res.1),
    ;

    /// `Enc(ek, x) → x~`.
    fn encode(&self, ek: &Self::EncodingInfo, x: &Self::Input) -> (res: Self::Encoding)
        requires
            self.can_encode(*ek, *x),
        ensures
            self.encoded(*ek, *x, res),
    ;

    /// `Eval(f~, x~) → f(x, y)`. The evaluator's input is public, so it is
    /// passed alongside the encoding.
    fn eval(&self, program: &Self::Program, encoding: &Self::Encoding, x: &Self::Input) -> (res:
        Self::Output)
        requires
            self.can_eval(*program, *encoding, *x),
        ensures
            self.evaluated(*program, *encoding, *x, res),
    ;
}

/// A public map `ι: A → B` between evaluator input domains.
pub trait PublicMap<A, B> {
    /// Whether `y` is the image of `x`.
    spec fn maps(&self, x: A, y: B) -> bool;

    /// Apply the map.
    fn apply(&self, x: &A) -> (res: B)
        ensures
            self.maps(*x, res),
    ;
}

/// `Π_f ∘_ι Π_g`: the outer scheme `Π_f` for `f`, and an inner scheme
/// `Π_g` for the outer scheme's encoding function `(x', ek_f) ↦ Enc_f(ek_f, ι(x'))`.
///
/// The composite garbles `f ∘ ι`. Its program is the pair of programs, its
/// encoding information and encoding are those of the inner scheme, and its
/// evaluation runs the inner evaluator and then the outer one on the result.
pub struct Compose<F, G, I> {
    /// The outer scheme `Π_f`.
    pub outer: F,
    /// The inner scheme `Π_g`, garbling the outer encoding function.
    pub inner: G,
    /// The public map `ι` from the inner input domain to the outer one.
    pub iota: I,
}

impl<F, G, I> Pgs for Compose<F, G, I> where
    F: Pgs,
    G: Pgs<GarblerInput = F::EncodingInfo, Output = F::Encoding>,
    I: PublicMap<G::Input, F::Input>,
 {
    type GarblerInput = F::GarblerInput;

    type Input = G::Input;

    type Program = (F::Program, G::Program);

    type EncodingInfo = G::EncodingInfo;

    type Encoding = G::Encoding;

    type Output = F::Output;

    open spec fn can_garble(&self, y: Self::GarblerInput) -> bool {
        &&& self.outer.can_garble(y)
        &&& forall|f: F::Program, ek_f: F::EncodingInfo| #[trigger]
            self.outer.garbled(y, f, ek_f) ==> self.inner.can_garble(ek_f)
    }

    open spec fn garbled(
        &self,
        y: Self::GarblerInput,
        program: Self::Program,
        ek: Self::EncodingInfo,
    ) -> bool {
        exists|ek_f: F::EncodingInfo| #[trigger]
            self.outer.garbled(y, program.0, ek_f) && self.inner.garbled(ek_f, program.1, ek)
    }

    open spec fn garbled_by(
        &self,
        before: StdRng,
        after: StdRng,
        y: Self::GarblerInput,
        program: Self::Program,
        ek: Self::EncodingInfo,
    ) -> bool {
        exists|mid: StdRng, ek_f: F::EncodingInfo| #[trigger]
            self.outer.garbled_by(before, mid, y, program.0, ek_f) && #[trigger]
            self.inner.garbled_by(mid, after, ek_f, program.1, ek)
    }

    open spec fn can_encode(&self, ek: Self::EncodingInfo, x: Self::Input) -> bool {
        self.inner.can_encode(ek, x)
    }

    open spec fn encoded(
        &self,
        ek: Self::EncodingInfo,
        x: Self::Input,
        enc: Self::Encoding,
    ) -> bool {
        self.inner.encoded(ek, x, enc)
    }

    open spec fn can_eval(
        &self,
        program: Self::Program,
        enc: Self::Encoding,
        x: Self::Input,
    ) -> bool {
        &&& self.inner.can_eval(program.1, enc, x)
        &&& forall|outer_enc: F::Encoding, y: F::Input|
            #![trigger self.inner.evaluated(program.1, enc, x, outer_enc), self.iota.maps(x, y)]
            self.inner.evaluated(program.1, enc, x, outer_enc) && self.iota.maps(x, y)
                ==> self.outer.can_eval(program.0, outer_enc, y)
    }

    open spec fn evaluated(
        &self,
        program: Self::Program,
        enc: Self::Encoding,
        x: Self::Input,
        out: Self::Output,
    ) -> bool {
        exists|outer_enc: F::Encoding, y: F::Input|
            #![trigger self.inner.evaluated(program.1, enc, x, outer_enc), self.iota.maps(x, y)]
            self.inner.evaluated(program.1, enc, x, outer_enc) && self.iota.maps(x, y)
                && self.outer.evaluated(program.0, outer_enc, y, out)
    }

    fn garble(&self, rng: &mut StdRng, y: &Self::GarblerInput) -> (res: (
        Self::Program,
        Self::EncodingInfo,
    )) {
        let ghost start = *rng;
        let (f, ek_f) = self.outer.garble(rng, y);
        let ghost mid = *rng;
        let (g, ek_g) = self.inner.garble(rng, &ek_f);
        let program = (f, g);
        assert(self.outer.garbled_by(start, mid, *y, program.0, ek_f) && self.inner.garbled_by(
            mid,
            *rng,
            ek_f,
            program.1,
            ek_g,
        ));
        assert(self.outer.garbled(*y, program.0, ek_f) && self.inner.garbled(
            ek_f,
            program.1,
            ek_g,
        ));
        (program, ek_g)
    }

    fn encode(&self, ek: &Self::EncodingInfo, x: &Self::Input) -> (res: Self::Encoding) {
        self.inner.encode(ek, x)
    }

    fn eval(&self, program: &Self::Program, encoding: &Self::Encoding, x: &Self::Input) -> (res:
        Self::Output) {
        let outer_encoding = self.inner.eval(&program.1, encoding, x);
        let y = self.iota.apply(x);
        assert(self.inner.evaluated(program.1, *encoding, *x, outer_encoding) && self.iota.maps(
            *x,
            y,
        ));
        self.outer.eval(&program.0, &outer_encoding, &y)
    }
}

/// Whether an inner scheme computes the outer scheme's encoding function: what
/// its evaluation gives on `x` is the outer encoding of `ι(x)`.
pub open spec fn computes_encoding<F, G, I>(c: Compose<F, G, I>) -> bool where
    F: Pgs,
    G: Pgs<GarblerInput = F::EncodingInfo, Output = F::Encoding>,
    I: PublicMap<G::Input, F::Input>,
 {
    forall|
        ek_f: F::EncodingInfo,
        g: G::Program,
        ek: G::EncodingInfo,
        x: G::Input,
        enc: G::Encoding,
        outer_enc: F::Encoding,
        y: F::Input,
    |
        #![trigger
            c.inner.garbled(ek_f, g, ek),
            c.inner.encoded(ek, x, enc),
            c.inner.evaluated(g, enc, x, outer_enc),
            c.iota.maps(x, y)
        ]
        c.inner.garbled(ek_f, g, ek) && c.inner.encoded(ek, x, enc) && c.inner.evaluated(
            g,
            enc,
            x,
            outer_enc,
        ) && c.iota.maps(x, y) ==> c.outer.encoded(ek_f, y, outer_enc)
}

/// The composite garbles `f ∘ ι`: an honest run of it on `x` ends as an honest run
/// of the outer scheme on `ι(x)` does, if the inner scheme computes the outer
/// encoding.
pub proof fn law_composition<F, G, I>(
    c: Compose<F, G, I>,
    y: F::GarblerInput,
    program: (F::Program, G::Program),
    ek: G::EncodingInfo,
    x: G::Input,
    enc: G::Encoding,
    out: F::Output,
) where
    F: Pgs,
    G: Pgs<GarblerInput = F::EncodingInfo, Output = F::Encoding>,
    I: PublicMap<G::Input, F::Input>,

    requires
        computes_encoding(c),
        c.garbled(y, program, ek),
        c.encoded(ek, x, enc),
        c.evaluated(program, enc, x, out),
    ensures
        exists|ek_f: F::EncodingInfo, outer_enc: F::Encoding, xf: F::Input|
            c.iota.maps(x, xf) && c.outer.garbled(y, program.0, ek_f) && #[trigger] c.outer.encoded(
                ek_f,
                xf,
                outer_enc,
            ) && c.outer.evaluated(program.0, outer_enc, xf, out),
{
    let ek_f = choose|ek_f: F::EncodingInfo| #[trigger]
        c.outer.garbled(y, program.0, ek_f) && c.inner.garbled(ek_f, program.1, ek);
    let (outer_enc, xf) = choose|outer_enc: F::Encoding, xf: F::Input|
        #![trigger c.inner.evaluated(program.1, enc, x, outer_enc), c.iota.maps(x, xf)]
        c.inner.evaluated(program.1, enc, x, outer_enc) && c.iota.maps(x, xf) && c.outer.evaluated(
            program.0,
            outer_enc,
            xf,
            out,
        );
    assert(c.outer.encoded(ek_f, xf, outer_enc));
}

} // verus!
