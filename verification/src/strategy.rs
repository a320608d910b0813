//! The boundary-detection capability and the chunking it induces on a byte sequence.

use vstd::prelude::*;

verus! {

/// A way of finding chunk boundaries in a stream of bytes.
///
/// A strategy is stateful. Its behaviour is described over a mathematical
/// state, `State`, by three functions: `boundary` says where a strategy in a
/// given state cuts a view of bytes, `advance` says in which state the scan of
/// that view leaves it, and `fresh` is the state that `reset` restores.
pub trait ChunkerImpl {
    /// The mathematical state: construction parameters and what the strategy
    /// remembers of the bytes seen since the last reset.
    type State;

    /// The mathematical state of this value.
    spec fn state(&self) -> Self::State;

    /// Whether this value is a sound representation of its state.
    spec fn inv(&self) -> bool;

    /// The offset of the last byte of the chunk that ends within `data`, when a
    /// strategy in state `s` is shown `data`; `None` when no chunk ends there.
    spec fn boundary(s: Self::State, data: Seq<u8>) -> Option<int>;

    /// The state in which a strategy that was in state `s` is left by a scan of `data`.
    spec fn advance(s: Self::State, data: Seq<u8>) -> Self::State;

    /// The state that a reset restores: the one the strategy was constructed in.
    spec fn fresh(s: Self::State) -> Self::State;

    /// Whether a scan may start in state `s`. It may in the state in which a
    /// strategy is made, after a reset, and after a scan that found no
    /// boundary; after a boundary the strategy is to be reset first.
    spec fn ready(s: Self::State) -> bool;

    /// Whether the boundaries of this strategy do not depend on how the bytes
    /// are split into successive views.
    spec fn seam_invariant() -> bool;

    /// The number of bytes that the chunk may still take when the strategy is
    /// in state `s`, where the strategy sets a limit.
    spec fn room(s: Self::State) -> Option<nat>;

    /// A boundary lies within the view that was scanned.
    proof fn lemma_boundary_in_view(s: Self::State, data: Seq<u8>)
        ensures
            Self::boundary(s, data) matches Some(k) ==> 0 <= k < data.len(),
    ;

    /// A scan of no bytes leaves the state as it was.
    proof fn lemma_advance_empty(s: Self::State)
        ensures
            Self::advance(s, Seq::<u8>::empty()) == s,
    ;

    /// What a reset restores does not change as bytes are scanned, and a
    /// reset of a fresh state changes nothing.
    proof fn lemma_fresh(s: Self::State, data: Seq<u8>)
        ensures
            Self::fresh(Self::advance(s, data)) == Self::fresh(s),
            Self::fresh(Self::fresh(s)) == Self::fresh(s),
    ;

    /// A reset makes a strategy ready for a scan that was ready before the
    /// scans since, and a scan that finds no boundary leaves it ready.
    proof fn lemma_ready(s: Self::State, data: Seq<u8>)
        requires
            Self::ready(s),
        ensures
            Self::ready(Self::fresh(s)),
            Self::boundary(s, data) is None ==> Self::ready(Self::advance(s, data)),
    ;

    /// Where the strategy sets a limit, a boundary comes within the bytes that
    /// the chunk may still take, and a scan without a boundary takes fewer
    /// bytes than those and leaves the others.
    proof fn lemma_room(s: Self::State, data: Seq<u8>)
        ensures
            Self::room(s) matches Some(r) ==> {
                &&& Self::boundary(s, data) matches Some(k) ==> k < r
                &&& Self::boundary(s, data) is None ==> data.len() < r && Self::room(
                    Self::advance(s, data),
                ) == Some((r - data.len()) as nat)
            },
    ;

    /// For a seam-invariant strategy, scanning `a` and then `b` finds the
    /// boundary that a single scan of `a + b` finds, and where neither finds
    /// one both end in the same state.
    proof fn lemma_seam(s: Self::State, a: Seq<u8>, b: Seq<u8>)
        ensures
            Self::seam_invariant() ==> {
                &&& Self::boundary(s, a) is Some ==> Self::boundary(s, a + b) == Self::boundary(
                    s,
                    a,
                )
                &&& Self::boundary(s, a) is None ==> Self::boundary(s, a + b) == shifted(
                    Self::boundary(Self::advance(s, a), b),
                    a.len() as int,
                )
                &&& Self::boundary(s, a + b) is None ==> Self::advance(s, a + b) == Self::advance(
                    Self::advance(s, a),
                    b,
                )
            },
    ;

    /// Looks at the next bytes of the stream and reports the offset within
    /// `data` of the last byte of the current chunk, if the chunk ends there.
    /// After a boundary the strategy is to be reset before the next scan.
    fn find_boundary(&mut self, data: &[u8]) -> (res: Option<usize>)
        requires
            old(self).inv(),
            Self::ready(old(self).state()),
        ensures
            final(self).inv(),
            res matches Some(k) ==> Self::boundary(old(self).state(), data@) == Some(k as int),
            res is None ==> Self::boundary(old(self).state(), data@) is None,
            final(self).state() == Self::advance(old(self).state(), data@),
    ;

    /// Restores the state that the strategy was constructed in.
    fn reset(&mut self)
        requires
            old(self).inv(),
        ensures
            final(self).inv(),
            final(self).state() == Self::fresh(old(self).state()),
    ;
}

/// Whether `s` is a state in which a strategy starts: a reset leaves it as it is.
pub open spec fn is_fresh<I: ChunkerImpl>(s: I::State) -> bool {
    I::fresh(s) == s
}

/// After any scan a reset restores the state in which the strategy started.
pub proof fn lemma_reset_restores<I: ChunkerImpl>(s: I::State, data: Seq<u8>)
    requires
        is_fresh::<I>(s),
    ensures
        I::fresh(I::advance(s, data)) == s,
{
    I::lemma_fresh(s, data);
}

/// An offset found in the second of two adjoining views, counted from the
/// start of the first.
pub open spec fn shifted(cut: Option<int>, by: int) -> Option<int> {
    match cut {
        Some(k) => Some(k + by),
        None => None,
    }
}

/// A byte counter that stops at the largest `usize`.
pub open spec fn bump(count: nat) -> nat {
    if count < usize::MAX {
        count + 1
    } else {
        count
    }
}

/// A byte counter, advanced by `by` bytes, that stops at the largest `usize`.
pub open spec fn bump_by(count: nat, by: nat) -> nat {
    if count + by <= usize::MAX {
        count + by
    } else if count <= usize::MAX {
        usize::MAX as nat
    } else {
        count
    }
}

/// The chunks into which a strategy that starts in state `s` divides `input`
/// when it sees all of it at once: each chunk ends at the first boundary found
/// from its start, the strategy is reset after every boundary, and what
/// follows the last boundary is the final chunk.
pub open spec fn chunking<I: ChunkerImpl>(s: I::State, input: Seq<u8>) -> Seq<Seq<u8>>
    decreases input.len(),
{
    if input.len() == 0 {
        Seq::empty()
    } else {
        let cut = I::boundary(s, input);
        if cut is Some && 0 <= cut->0 < input.len() {
            seq![input.take(cut->0 + 1)] + chunking::<I>(I::fresh(s), input.skip(cut->0 + 1))
        } else {
            seq![input]
        }
    }
}

/// The bytes of `chunks`, one chunk after the other.
pub open spec fn joined(chunks: Seq<Seq<u8>>) -> Seq<u8>
    decreases chunks.len(),
{
    if chunks.len() == 0 {
        Seq::empty()
    } else {
        joined(chunks.drop_last()) + chunks.last()
    }
}

/// The bytes of a list of one chunk are that chunk.
pub proof fn lemma_joined_single(chunk: Seq<u8>)
    ensures
        joined(seq![chunk]) == chunk,
{
    let one = seq![chunk];
    assert(one.drop_last() =~= Seq::<Seq<u8>>::empty());
    assert(joined(one.drop_last()) =~= Seq::<u8>::empty());
    assert(joined(one) =~= chunk);
}

/// The bytes of a chunk list that starts with `first` are `first` followed by
/// the bytes of the other chunks.
pub proof fn lemma_joined_prepend(first: Seq<u8>, rest: Seq<Seq<u8>>)
    ensures
        joined(seq![first] + rest) == first + joined(rest),
    decreases rest.len(),
{
    let all = seq![first] + rest;
    if rest.len() == 0 {
        assert(all =~= seq![first]);
        lemma_joined_single(first);
        assert(first + joined(rest) =~= first);
    } else {
        assert(all.drop_last() =~= seq![first] + rest.drop_last());
        assert(all.last() == rest.last());
        lemma_joined_prepend(first, rest.drop_last());
        assert(joined(all) =~= first + joined(rest));
    }
}

/// The chunks of an input, one after the other, are the input.
pub proof fn lemma_chunking_joins_to_input<I: ChunkerImpl>(s: I::State, input: Seq<u8>)
    ensures
        joined(chunking::<I>(s, input)) == input,
    decreases input.len(),
{
    if input.len() == 0 {
    } else {
        let cut = I::boundary(s, input);
        if cut is Some && 0 <= cut->0 < input.len() {
            let head = input.take(cut->0 + 1);
            let tail = input.skip(cut->0 + 1);
            lemma_chunking_joins_to_input::<I>(I::fresh(s), tail);
            lemma_joined_prepend(head, chunking::<I>(I::fresh(s), tail));
            assert(head + tail =~= input);
        } else {
            lemma_joined_single(input);
        }
    }
}

/// No chunk of an input is empty.
pub proof fn lemma_chunking_nonempty<I: ChunkerImpl>(s: I::State, input: Seq<u8>, i: int)
    requires
        0 <= i < chunking::<I>(s, input).len(),
    ensures
        chunking::<I>(s, input)[i].len() >= 1,
    decreases input.len(),
{
    let cut = I::boundary(s, input);
    if input.len() > 0 && cut is Some && 0 <= cut->0 < input.len() {
        if i > 0 {
            lemma_chunking_nonempty::<I>(I::fresh(s), input.skip(cut->0 + 1), i - 1);
        }
    }
}

} // verus!
