//! What is drawn from the generator: which values came out of it, in which order, and
//! between which of its states.
use ark_std::rand::rngs::StdRng;
use vstd::prelude::*;

verus! {

/// Values that are drawn from the generator.
pub trait Drawn: Sized {
    /// Whether one draw gave `x` and took the generator from one state to the next. Nothing
    /// but a draw shows this.
    spec fn drawn(before: StdRng, after: StdRng, x: Self) -> bool;
}

/// Whether successive draws gave `xs`, in this order and with no other draw before, between
/// or after them.
pub open spec fn draws<T: Drawn>(before: StdRng, after: StdRng, xs: Seq<T>) -> bool
    decreases xs.len(),
{
    if xs.len() == 0 {
        before == after
    } else {
        exists|mid: StdRng|
            draws(before, mid, xs.drop_last()) && #[trigger] T::drawn(mid, after, xs.last())
    }
}

/// One more draw.
pub proof fn lemma_one_more<T: Drawn>(
    before: StdRng,
    mid: StdRng,
    after: StdRng,
    xs: Seq<T>,
    x: T,
)
    requires
        draws(before, mid, xs),
        T::drawn(mid, after, x),
    ensures
        draws(before, after, xs.push(x)),
{
    let all = xs.push(x);
    assert(all.drop_last() =~= xs);
    assert(all.last() == x);
    assert(draws(before, mid, all.drop_last()) && T::drawn(mid, after, all.last()));
    assert(draws(before, after, all));
}

/// Draws that follow on one another are one run of draws, and every run of draws can be
/// parted at any place.
pub proof fn law_draws_follow_on<T: Drawn>(
    before: StdRng,
    after: StdRng,
    xs: Seq<T>,
    ys: Seq<T>,
)
    ensures
        draws(before, after, xs + ys) <==> exists|mid: StdRng| #[trigger]
            draws(before, mid, xs) && draws(mid, after, ys),
    decreases ys.len(),
{
    if ys.len() == 0 {
        assert(xs + ys =~= xs);
        if draws(before, after, xs + ys) {
            assert(draws(before, after, xs) && draws(after, after, ys));
        }
    } else {
        let (init, x) = (ys.drop_last(), ys.last());
        assert((xs + ys).drop_last() =~= xs + init);
        if draws(before, after, xs + ys) {
            let last = choose|last: StdRng|
                draws(before, last, (xs + ys).drop_last()) && #[trigger] T::drawn(
                    last,
                    after,
                    (xs + ys).last(),
                );
            law_draws_follow_on(before, last, xs, init);
            let mid = choose|mid: StdRng| #[trigger]
                draws(before, mid, xs) && draws(mid, last, init);
            assert((xs + ys).last() == x);
            lemma_one_more(mid, last, after, init, x);
            assert(init.push(x) =~= ys);
            assert(draws(mid, after, ys));
        }
        if exists|mid: StdRng| #[trigger] draws(before, mid, xs) && draws(mid, after, ys) {
            let mid = choose|mid: StdRng| #[trigger]
                draws(before, mid, xs) && draws(mid, after, ys);
            let last = choose|last: StdRng|
                draws(mid, last, ys.drop_last()) && #[trigger] T::drawn(last, after, ys.last());
            law_draws_follow_on(before, last, xs, init);
            lemma_one_more(before, last, after, xs + init, x);
            assert((xs + init).push(x) =~= xs + ys);
        }
    }
}

} // verus!
