//! Asymmetric extremum.

use vstd::prelude::*;
use crate::bytewise::{
    consume, first_cut, lemma_consume_concat, lemma_consume_empty, lemma_consume_renewed,
    lemma_first_cut_is_first, lemma_first_cut_prefix, lemma_scan_next, run, ByteRule,
};
use crate::strategy::{bump, is_fresh, ChunkerImpl};

verus! {

/// The number e less one, times 10 to the power of 18, without its fraction.
pub const E_LESS_ONE: u128 = 1_718_281_828_459_045_235;

/// 10 to the power of 18.
pub const SCALE: u128 = 1_000_000_000_000_000_000;

/// The window for a target chunk size: the target divided by e - 1, to the
/// nearest whole number, with e - 1 taken to 18 decimal places.
pub open spec fn window_for(target_chunk_size: nat) -> nat {
    ((2 * target_chunk_size * SCALE + E_LESS_ONE) / (2 * E_LESS_ONE as int)) as nat
}

/// AEChunker implements the Asymmetric Extremum (AE) algorithm.
///
/// This algorithm searches for a local maximum and sets a cut-point at a fixed distance after it,
/// if there is no higher value within that window.
///
/// Source: Y. Zhang et al., "A Fast Asymmetric Extremum Content Defined Chunking Algorithm for Data
/// Deduplication in Backup Storage Systems," in IEEE Transactions on Computers, vol. 66, no. 2,
/// pp. 199-211, 1 Feb. 2017, doi: 10.1109/TC.2016.2595565.
#[derive(Debug, Clone)]
pub struct AEChunker {
    window_size: usize,
    state: AEChunkerState,
}

#[derive(Clone, Debug, Default)]
struct AEChunkerState {
    /// The maximum value.
    max_value: u8,
    /// The position of the maximum, relative to the last chunk boundary.
    max_position: usize,
    /// The current position relative to the last chunk boundary.
    pos: usize,
}

/// The state of the AE rule.
pub struct AeModel {
    /// The distance from the maximum at which the chunk ends.
    pub window: nat,
    /// The largest byte seen, 0 at the start.
    pub max_value: u8,
    /// The position of the first byte that was that large, 0 at the start.
    pub max_position: nat,
    /// The number of bytes seen since the last reset, up to the largest `usize`.
    pub pos: nat,
}

impl ByteRule for AeModel {
    open spec fn step(self, b: u8) -> Self {
        if b <= self.max_value {
            AeModel { pos: bump(self.pos), ..self }
        } else {
            AeModel { max_value: b, max_position: self.pos, pos: bump(self.pos), ..self }
        }
    }

    /// The chunk ends at a byte that is no larger than the maximum and lies
    /// `window` bytes after it.
    open spec fn cuts(self, b: u8) -> bool {
        b <= self.max_value && self.pos == self.max_position + self.window
    }

    open spec fn renewed(self) -> Self {
        AeModel { window: self.window, max_value: 0, max_position: 0, pos: 0 }
    }

    proof fn lemma_renewed(self, b: u8) {
    }
}

impl AEChunker {
    /// Creates a new chunker using the Asymmetric Extremum algorithm with the given target chunk
    /// size: the window is the target divided by e - 1.
    pub fn new(target_chunk_size: usize) -> (chunker: AEChunker)
        ensures
            chunker.inv(),
            is_fresh::<Self>(chunker.state()),
            chunker.state() == (AeModel {
                window: window_for(target_chunk_size as nat),
                max_value: 0,
                max_position: 0,
                pos: 0,
            }),
    {
        let doubled: u128 = 2 * (target_chunk_size as u128) * SCALE + E_LESS_ONE;
        let window: u128 = doubled / (2 * E_LESS_ONE);
        proof {
            let t = target_chunk_size as int;
            assert(2 * t * SCALE + E_LESS_ONE <= (t + 1) * (2 * E_LESS_ONE)) by (nonlinear_arith)
                requires
                    t >= 0,
                    SCALE <= E_LESS_ONE,
            ;
            assert(window <= t) by (nonlinear_arith)
                requires
                    window == (2 * t * SCALE + E_LESS_ONE) / (2 * E_LESS_ONE as int),
                    2 * t * SCALE + E_LESS_ONE < (t + 1) * (2 * E_LESS_ONE),
                    t >= 0,
                    E_LESS_ONE > 0,
            ;
        }
        AEChunker::with_window_size(window as usize)
    }

    /// Creates a new chunker using the Asymmetric Extremum algorithm with the given window:
    /// the distance from the maximum at which the chunk ends.
    pub fn with_window_size(window_size: usize) -> (chunker: AEChunker)
        ensures
            chunker.inv(),
            is_fresh::<Self>(chunker.state()),
            chunker.state() == (AeModel {
                window: window_size as nat,
                max_value: 0,
                max_position: 0,
                pos: 0,
            }),
    {
        AEChunker { window_size, state: AEChunkerState { max_value: 0, max_position: 0, pos: 0 } }
    }
}

impl AEChunkerState {
    fn reset(&mut self)
        ensures
            final(self).max_value == 0,
            final(self).max_position == 0,
            final(self).pos == 0,
    {
        self.max_value = 0;
        self.max_position = 0;
        self.pos = 0;
    }
}

impl ChunkerImpl for AEChunker {
    type State = AeModel;

    closed spec fn state(&self) -> AeModel {
        AeModel {
            window: self.window_size as nat,
            max_value: self.state.max_value,
            max_position: self.state.max_position as nat,
            pos: self.state.pos as nat,
        }
    }

    closed spec fn inv(&self) -> bool {
        true
    }

    open spec fn boundary(s: AeModel, data: Seq<u8>) -> Option<int> {
        first_cut(s, data)
    }

    open spec fn advance(s: AeModel, data: Seq<u8>) -> AeModel {
        consume(s, data)
    }

    open spec fn fresh(s: AeModel) -> AeModel {
        s.renewed()
    }

    open spec fn seam_invariant() -> bool {
        true
    }

    open spec fn ready(s: AeModel) -> bool {
        true
    }

    proof fn lemma_ready(s: AeModel, data: Seq<u8>) {
    }

    open spec fn room(s: AeModel) -> Option<nat> {
        None
    }

    proof fn lemma_room(s: AeModel, data: Seq<u8>) {
    }

    proof fn lemma_boundary_in_view(s: AeModel, data: Seq<u8>) {
        lemma_first_cut_is_first(s, data);
    }

    proof fn lemma_advance_empty(s: AeModel) {
        lemma_consume_empty(s);
    }

    proof fn lemma_fresh(s: AeModel, data: Seq<u8>) {
        lemma_consume_renewed(s, data);
    }

    proof fn lemma_seam(s: AeModel, a: Seq<u8>, b: Seq<u8>) {
        lemma_consume_concat(s, a, b);
    }

    fn find_boundary(&mut self, data: &[u8]) -> (res: Option<usize>) {
        let ghost start = self.state();
        let mut i: usize = 0;
        while i < data.len()
            invariant
                i <= data.len(),
                start == old(self).state(),
                first_cut(start, data@.take(i as int)) is None,
                self.state() == run(start, data@.take(i as int)),
            decreases data.len() - i,
        {
            proof {
                lemma_scan_next(start, data@, i as int);
            }
            let b: u8 = data[i];
            // The position relative to the last chunk boundary.
            let global_pos: usize = self.state.pos;
            self.state.pos = self.state.pos.saturating_add(1);

            if b <= self.state.max_value {
                // Check if we're at the end of the window.
                let end = self.state.max_position.checked_add(self.window_size);
                if end == Some(global_pos) {
                    proof {
                        lemma_first_cut_prefix(start, data@, i + 1);
                    }
                    return Some(i);
                }
            } else {
                self.state.max_value = b;
                self.state.max_position = global_pos;
            }
            i += 1;
        }
        proof {
            assert(data@.take(i as int) =~= data@);
        }
        // No cut-point found within this block of data.
        None
    }

    fn reset(&mut self) {
        self.state.reset()
    }
}

} // verus!
