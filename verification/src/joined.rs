//! Sequences laid end to end.
use vstd::prelude::*;

verus! {

/// The pieces laid end to end.
pub open spec fn joined<A>(pieces: Seq<Seq<A>>) -> Seq<A>
    decreases pieces.len(),
{
    if pieces.len() == 0 {
        Seq::empty()
    } else {
        joined(pieces.drop_last()) + pieces.last()
    }
}

/// Where piece `k` starts once the pieces are laid end to end.
pub open spec fn start_of<A>(pieces: Seq<Seq<A>>, k: int) -> int {
    joined(pieces.take(k)).len() as int
}

/// Each piece is found where it starts.
pub proof fn lemma_joined_piece<A>(pieces: Seq<Seq<A>>, k: int)
    requires
        0 <= k < pieces.len(),
    ensures
        0 <= start_of(pieces, k),
        start_of(pieces, k) + pieces[k].len() == start_of(pieces, k + 1),
        start_of(pieces, k) + pieces[k].len() <= joined(pieces).len(),
        joined(pieces).subrange(start_of(pieces, k), start_of(pieces, k) + pieces[k].len())
            == pieces[k],
    decreases pieces.len(),
{
    let p = pieces.drop_last();
    assert(pieces.take(k + 1).drop_last() =~= pieces.take(k));
    if k < p.len() {
        lemma_joined_piece(p, k);
        assert(p.take(k) =~= pieces.take(k));
        assert(joined(pieces).subrange(
            start_of(pieces, k),
            start_of(pieces, k) + pieces[k].len(),
        ) =~= joined(p).subrange(start_of(p, k), start_of(p, k) + p[k].len()));
    } else {
        assert(pieces.take(k) =~= p);
        assert(joined(pieces).subrange(
            start_of(pieces, k),
            start_of(pieces, k) + pieces[k].len(),
        ) =~= pieces[k]);
    }
}

/// Where pieces of one size start.
pub proof fn lemma_joined_even<A>(pieces: Seq<Seq<A>>, size: int, k: int)
    requires
        0 <= k <= pieces.len(),
        forall|i: int| 0 <= i < pieces.len() ==> (#[trigger] pieces[i]).len() == size,
    ensures
        start_of(pieces, k) == size * k,
    decreases k,
{
    if k > 0 {
        lemma_joined_even(pieces, size, k - 1);
        assert(pieces.take(k).drop_last() =~= pieces.take(k - 1));
        assert(pieces[k - 1].len() == size);
        assert(size * k == size * (k - 1) + size) by (nonlinear_arith);
    } else {
        assert(size * 0 == 0) by (nonlinear_arith);
        assert(pieces.take(0) =~= Seq::empty());
    }
}

} // verus!
