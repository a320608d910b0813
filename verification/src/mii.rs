//! Minimal incremental interval.

use vstd::prelude::*;
use crate::bytewise::{
    consume, first_cut, lemma_consume_concat, lemma_consume_empty, lemma_consume_renewed,
    lemma_first_cut_is_first, lemma_first_cut_prefix, lemma_scan_next, run, ByteRule,
};
use crate::strategy::{bump, is_fresh, ChunkerImpl};

verus! {

/// A chunker that implements the Minimal Incremental Interval algorithm.
///
/// This algorithm searches for a run of increasing bytes of a threshold length.
///
/// Source: C. Zhang et al., "MII: A Novel Content Defined Chunking Algorithm for Finding
/// Incremental Data in Data Synchronization," in IEEE Access, vol. 7, pp. 86932-86945, 2019,
/// doi: 10.1109/ACCESS.2019.2926195.
#[derive(Clone, Debug)]
pub struct MIIChunker {
    interval_length_threshold: usize,
    state: MIIChunkerState,
}

#[derive(Clone, Debug, Default)]
struct MIIChunkerState {
    /// The length of the current incrementing run.
    increment_run_length: usize,
    /// The previously ingested byte, if any.
    previous_value: Option<u8>,
}

/// The state of the MII rule.
pub struct MiiModel {
    /// The length of run at which the chunk ends.
    pub threshold: nat,
    /// The number of bytes, up to the last one seen, each of which was
    /// larger than the one before it; counted up to the largest `usize`.
    pub run_length: nat,
    /// The last byte seen, if any.
    pub previous: Option<u8>,
}

impl MiiModel {
    /// Whether byte `b` is larger than the byte before it.
    pub open spec fn rises(self, b: u8) -> bool {
        self.previous matches Some(p) && b > p
    }
}

impl ByteRule for MiiModel {
    open spec fn step(self, b: u8) -> Self {
        MiiModel {
            threshold: self.threshold,
            run_length: if self.rises(b) {
                bump(self.run_length)
            } else if self.previous is Some {
                0
            } else {
                self.run_length
            },
            previous: Some(b),
        }
    }

    /// The chunk ends at a byte that rises and brings the run to the threshold.
    open spec fn cuts(self, b: u8) -> bool {
        self.rises(b) && bump(self.run_length) == self.threshold
    }

    open spec fn renewed(self) -> Self {
        MiiModel { threshold: self.threshold, run_length: 0, previous: None }
    }

    proof fn lemma_renewed(self, b: u8) {
    }
}

impl MIIChunker {
    /// Creates a new chunker implementing the Minimal Incremental Interval algorithm.
    ///
    /// `interval_length_threshold` is the length of the increasing run at
    /// which a cut-point is set.
    pub fn new(interval_length_threshold: usize) -> (chunker: MIIChunker)
        ensures
            chunker.inv(),
            is_fresh::<Self>(chunker.state()),
            chunker.state() == (MiiModel {
                threshold: interval_length_threshold as nat,
                run_length: 0,
                previous: None,
            }),
    {
        MIIChunker {
            interval_length_threshold,
            state: MIIChunkerState { increment_run_length: 0, previous_value: None },
        }
    }
}

impl MIIChunkerState {
    fn reset(&mut self)
        ensures
            final(self).increment_run_length == 0,
            final(self).previous_value is None,
    {
        self.increment_run_length = 0;
        self.previous_value = None;
    }
}

impl ChunkerImpl for MIIChunker {
    type State = MiiModel;

    closed spec fn state(&self) -> MiiModel {
        MiiModel {
            threshold: self.interval_length_threshold as nat,
            run_length: self.state.increment_run_length as nat,
            previous: self.state.previous_value,
        }
    }

    closed spec fn inv(&self) -> bool {
        true
    }

    open spec fn boundary(s: MiiModel, data: Seq<u8>) -> Option<int> {
        first_cut(s, data)
    }

    open spec fn advance(s: MiiModel, data: Seq<u8>) -> MiiModel {
        consume(s, data)
    }

    open spec fn fresh(s: MiiModel) -> MiiModel {
        s.renewed()
    }

    open spec fn seam_invariant() -> bool {
        true
    }

    open spec fn ready(s: MiiModel) -> bool {
        true
    }

    proof fn lemma_ready(s: MiiModel, data: Seq<u8>) {
    }

    open spec fn room(s: MiiModel) -> Option<nat> {
        None
    }

    proof fn lemma_room(s: MiiModel, data: Seq<u8>) {
    }

    proof fn lemma_boundary_in_view(s: MiiModel, data: Seq<u8>) {
        lemma_first_cut_is_first(s, data);
    }

    proof fn lemma_advance_empty(s: MiiModel) {
        lemma_consume_empty(s);
    }

    proof fn lemma_fresh(s: MiiModel, data: Seq<u8>) {
        lemma_consume_renewed(s, data);
    }

    proof fn lemma_seam(s: MiiModel, a: Seq<u8>, b: Seq<u8>) {
        lemma_consume_concat(s, a, b);
    }

    fn find_boundary(&mut self, data: &[u8]) -> (res: Option<usize>) {
        let ghost start = self.state();
        let mut i: usize = 0;
        while i < data.len()
            invariant
                i <= data.len(),
                start == old(self).state(),
                first_cut(start, data@.take(i as int)) is None,
                self.state() == run(start, data@.take(i as int)),
            decreases data.len() - i,
        {
            proof {
                lemma_scan_next(start, data@, i as int);
            }
            let b: u8 = data[i];
            let mut found = false;
            // If we're past the first byte of a new chunk...
            if let Some(previous_value) = self.state.previous_value {
                if b > previous_value {
                    // We have an incrementing interval.
                    self.state.increment_run_length = self.state.increment_run_length.saturating_add(
                        1,
                    );
                    if self.state.increment_run_length == self.interval_length_threshold {
                        found = true;
                    }
                } else {
                    // We don't have an incremental interval anymore.
                    self.state.increment_run_length = 0;
                }
            }
            // Update previous value.
            self.state.previous_value = Some(b);
            if found {
                proof {
                    lemma_first_cut_prefix(start, data@, i + 1);
                }
                return Some(i);
            }
            i += 1;
        }
        proof {
            assert(data@.take(i as int) =~= data@);
        }
        // No cut point found in this block
        None
    }

    fn reset(&mut self) {
        self.state.reset()
    }
}

} // verus!
