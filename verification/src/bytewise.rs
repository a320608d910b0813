//! Strategies that decide byte by byte.
//!
//! Most strategies look at one byte at a time: each byte changes the state,
//! and the state and the byte together decide whether the chunk ends at that
//! byte. For such a rule the boundary within a view and the state after a scan
//! follow from the rule alone, and do not depend on where the views begin and
//! end.

use vstd::prelude::*;
use crate::strategy::shifted;

verus! {

/// A rule that is applied to one byte at a time.
pub trait ByteRule: Sized {
    /// The state after byte `b` was seen in state `self`.
    spec fn step(self, b: u8) -> Self;

    /// Whether the chunk ends at byte `b`, seen in state `self`.
    spec fn cuts(self, b: u8) -> bool;

    /// The state in which the rule starts: `self` with all that it remembers
    /// of the bytes forgotten.
    spec fn renewed(self) -> Self;

    /// A byte changes nothing of what a renewal keeps, and a renewed state is
    /// its own renewal.
    proof fn lemma_renewed(self, b: u8)
        ensures
            self.step(b).renewed() == self.renewed(),
            self.renewed().renewed() == self.renewed(),
    ;
}

/// The state after every byte of `data` was seen, starting in state `s`.
pub open spec fn run<M: ByteRule>(s: M, data: Seq<u8>) -> M
    decreases data.len(),
{
    if data.len() == 0 {
        s
    } else {
        run(s, data.drop_last()).step(data.last())
    }
}

/// The offset of the first byte of `data` at which the rule cuts, starting in
/// state `s`.
pub open spec fn first_cut<M: ByteRule>(s: M, data: Seq<u8>) -> Option<int>
    decreases data.len(),
{
    if data.len() == 0 {
        None
    } else {
        match first_cut(s, data.drop_last()) {
            Some(k) => Some(k),
            None => if run(s, data.drop_last()).cuts(data.last()) {
                Some(data.len() - 1)
            } else {
                None
            },
        }
    }
}

/// The state after a scan of `data` that stops at the first cut: the bytes up
/// to and including the one that cuts were seen, or all of them where none cuts.
pub open spec fn consume<M: ByteRule>(s: M, data: Seq<u8>) -> M {
    match first_cut(s, data) {
        Some(k) => run(s, data.take(k + 1)),
        None => run(s, data),
    }
}

/// The first cut lies within the data, the rule cuts there, and it cuts at no
/// earlier byte.
pub proof fn lemma_first_cut_is_first<M: ByteRule>(s: M, data: Seq<u8>)
    ensures
        first_cut(s, data) matches Some(k) ==> {
            &&& 0 <= k < data.len()
            &&& run(s, data.take(k)).cuts(data[k])
            &&& first_cut(s, data.take(k)) is None
        },
    decreases data.len(),
{
    if data.len() > 0 {
        let init = data.drop_last();
        lemma_first_cut_is_first(s, init);
        match first_cut(s, init) {
            Some(k) => {
                assert(init.take(k) =~= data.take(k));
            },
            None => {
                assert(data.take(data.len() - 1) =~= init);
            },
        }
    }
}

/// One more byte after a scan that found no cut: the rule is applied once more.
pub proof fn lemma_scan_next<M: ByteRule>(s: M, data: Seq<u8>, i: int)
    requires
        0 <= i < data.len(),
    ensures
        run(s, data.take(i + 1)) == run(s, data.take(i)).step(data[i]),
        first_cut(s, data.take(i)) is None ==> first_cut(s, data.take(i + 1)) == if run(
            s,
            data.take(i),
        ).cuts(data[i]) {
            Some(i)
        } else {
            None::<int>
        },
{
    assert(data.take(i + 1).drop_last() =~= data.take(i));
}

/// Seeing `a` and then `b` leaves the state that seeing `a + b` leaves.
pub proof fn lemma_run_concat<M: ByteRule>(s: M, a: Seq<u8>, b: Seq<u8>)
    ensures
        run(s, a + b) == run(run(s, a), b),
    decreases b.len(),
{
    if b.len() == 0 {
        assert(a + b =~= a);
    } else {
        assert((a + b).drop_last() =~= a + b.drop_last());
        lemma_run_concat(s, a, b.drop_last());
    }
}

/// The first cut in `a + b` is the first cut in `a`, or else the first cut
/// in `b` from the state that `a` leaves.
pub proof fn lemma_first_cut_concat<M: ByteRule>(s: M, a: Seq<u8>, b: Seq<u8>)
    ensures
        first_cut(s, a + b) == match first_cut(s, a) {
            Some(k) => Some(k),
            None => shifted(first_cut(run(s, a), b), a.len() as int),
        },
    decreases b.len(),
{
    if b.len() == 0 {
        assert(a + b =~= a);
    } else {
        assert((a + b).drop_last() =~= a + b.drop_last());
        lemma_first_cut_concat(s, a, b.drop_last());
        lemma_run_concat(s, a, b.drop_last());
    }
}

/// A cut found in the first `n` bytes of `data` is the first cut of `data`.
pub proof fn lemma_first_cut_prefix<M: ByteRule>(s: M, data: Seq<u8>, n: int)
    requires
        0 <= n <= data.len(),
    ensures
        first_cut(s, data.take(n)) is Some ==> first_cut(s, data) == first_cut(s, data.take(n)),
{
    assert(data.take(n) + data.skip(n) =~= data);
    lemma_first_cut_concat(s, data.take(n), data.skip(n));
}

/// A scan of no bytes finds no cut and leaves the state as it was.
pub proof fn lemma_consume_empty<M: ByteRule>(s: M)
    ensures
        first_cut(s, Seq::<u8>::empty()) is None,
        consume(s, Seq::<u8>::empty()) == s,
{
}

/// Bytes change nothing of what a renewal keeps.
pub proof fn lemma_run_renewed<M: ByteRule>(s: M, data: Seq<u8>)
    ensures
        run(s, data).renewed() == s.renewed(),
    decreases data.len(),
{
    if data.len() > 0 {
        lemma_run_renewed(s, data.drop_last());
        run(s, data.drop_last()).lemma_renewed(data.last());
    }
}

/// A scan changes nothing of what a renewal keeps.
pub proof fn lemma_consume_renewed<M: ByteRule>(s: M, data: Seq<u8>)
    ensures
        consume(s, data).renewed() == s.renewed(),
        s.renewed().renewed() == s.renewed(),
{
    lemma_run_renewed(s, data);
    match first_cut(s, data) {
        Some(k) => lemma_run_renewed(s, data.take(k + 1)),
        None => {},
    }
    s.lemma_renewed(0);
}

/// Scans of `a` and then of `b` find the cut that a scan of `a + b` finds,
/// and where there is none they end in the same state.
pub proof fn lemma_consume_concat<M: ByteRule>(s: M, a: Seq<u8>, b: Seq<u8>)
    ensures
        first_cut(s, a) is Some ==> first_cut(s, a + b) == first_cut(s, a),
        first_cut(s, a) is None ==> first_cut(s, a + b) == shifted(
            first_cut(consume(s, a), b),
            a.len() as int,
        ),
        first_cut(s, a + b) is None ==> consume(s, a + b) == consume(consume(s, a), b),
{
    lemma_first_cut_concat(s, a, b);
    lemma_run_concat(s, a, b);
}

} // verus!
