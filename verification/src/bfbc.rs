//! Byte-pair frequency.

use vstd::prelude::*;
use crate::bytewise::{
    consume, first_cut, lemma_consume_concat, lemma_consume_empty, lemma_consume_renewed,
    lemma_first_cut_is_first, lemma_first_cut_prefix, lemma_scan_next, run, ByteRule,
};
use crate::strategy::{bump, is_fresh, ChunkerImpl};

verus! {

/// A chunker implementing the Bytes Frequency-Based Chunking (BFBC) algorithm.
///
/// This algorithm sets chunk boundaries based on frequently occurring byte pairs.
/// A minimum chunk size is enforced. Afterwards, a sliding window of two bytes is compared to a
/// list of frequently occurring byte pairs in order.
///
/// The list of frequent byte pairs is assumed to be small and unsorted and is searched sequentially
/// for each byte after the minimum chunk size has been reached. The analysis of the byte pair
/// frequency of the dataset is for the caller to make.
///
/// A maximum chunk size is not enforced: consider wrapping with `max_size`.
///
/// Source: Saeed, A.S.M. and George, L.E.: Data Deduplication System Based on Content-Defined
/// Chunking Using Bytes Pair Frequency Occurrence. Symmetry 2020, 12, 1841.
/// https://doi.org/10.3390/sym12111841
#[derive(Debug, Clone)]
pub struct BFBCChunker {
    frequent_byte_pairs: Vec<u16>,
    min_chunk_size: usize,
    state: BFBCChunkerState,
}

#[derive(Clone, Debug, Default)]
struct BFBCChunkerState {
    /// The current position relative to the last chunk boundary.
    pos: usize,
    /// The last two bytes, the older one in the upper half.
    window: u16,
}

/// Two bytes as one number, the first in the upper half.
pub open spec fn packed(pair: (u8, u8)) -> u16 {
    (pair.0 as u16) << 8 | pair.1 as u16
}

/// The window after byte `b` has entered it: the last two bytes.
pub open spec fn shifted_in(window: u16, b: u8) -> u16 {
    window << 8 | b as u16
}

/// The state of the BFBC rule.
pub struct BfbcModel {
    /// The byte pairs that end a chunk.
    pub pairs: Seq<u16>,
    /// The least number of bytes in a chunk.
    pub min_chunk_size: nat,
    /// The number of bytes seen since the last reset, up to the largest `usize`.
    pub pos: nat,
    /// The last two bytes seen; zeros at the start.
    pub window: u16,
}

impl ByteRule for BfbcModel {
    open spec fn step(self, b: u8) -> Self {
        BfbcModel { pos: bump(self.pos), window: shifted_in(self.window, b), ..self }
    }

    /// The chunk ends at a byte with which it has its least size and with
    /// which the last two bytes are one of the pairs.
    open spec fn cuts(self, b: u8) -> bool {
        bump(self.pos) >= self.min_chunk_size && self.pairs.contains(shifted_in(self.window, b))
    }

    open spec fn renewed(self) -> Self {
        BfbcModel { pos: 0, window: 0, ..self }
    }

    proof fn lemma_renewed(self, b: u8) {
    }
}

impl BFBCChunker {
    /// Creates a new chunker using the Bytes Frequency-Based Chunking algorithm.
    ///
    /// The given byte pairs are checked, in order, for each sliding window after `min_chunk_size`
    /// bytes to find a chunk boundary. `min_chunk_size` needs to be at least 2, the size of the
    /// window.
    pub fn new(frequent_byte_pairs: Vec<(u8, u8)>, min_chunk_size: usize) -> (chunker:
        BFBCChunker)
        requires
            min_chunk_size >= 2,
        ensures
            chunker.inv(),
            is_fresh::<Self>(chunker.state()),
            chunker.state() == (BfbcModel {
                pairs: Seq::new(
                    frequent_byte_pairs@.len(),
                    |i: int| packed(frequent_byte_pairs@[i]),
                ),
                min_chunk_size: min_chunk_size as nat,
                pos: 0,
                window: 0,
            }),
    {
        let mut pairs: Vec<u16> = Vec::new();
        let mut i: usize = 0;
        while i < frequent_byte_pairs.len()
            invariant
                i <= frequent_byte_pairs.len(),
                pairs@.len() == i,
                forall|j: int| 0 <= j < i ==> pairs@[j] == packed(frequent_byte_pairs@[j]),
            decreases frequent_byte_pairs.len() - i,
        {
            let (b1, b2) = frequent_byte_pairs[i];
            pairs.push((b1 as u16) << 8 | b2 as u16);
            i += 1;
        }
        proof {
            assert(pairs@ =~= Seq::new(
                frequent_byte_pairs@.len(),
                |i: int| packed(frequent_byte_pairs@[i]),
            ));
        }
        BFBCChunker {
            frequent_byte_pairs: pairs,
            min_chunk_size,
            state: BFBCChunkerState { pos: 0, window: 0 },
        }
    }
}

impl BFBCChunkerState {
    fn reset(&mut self)
        ensures
            final(self).pos == 0,
            final(self).window == 0,
    {
        self.pos = 0;
        self.window = 0;
    }

    fn ingest(&mut self, b: u8)
        ensures
            final(self).pos == bump(old(self).pos as nat),
            final(self).window == shifted_in(old(self).window, b),
    {
        self.pos = self.pos.saturating_add(1);
        self.window = self.window << 8 | b as u16
    }
}

impl ChunkerImpl for BFBCChunker {
    type State = BfbcModel;

    closed spec fn state(&self) -> BfbcModel {
        BfbcModel {
            pairs: self.frequent_byte_pairs@,
            min_chunk_size: self.min_chunk_size as nat,
            pos: self.state.pos as nat,
            window: self.state.window,
        }
    }

    closed spec fn inv(&self) -> bool {
        self.min_chunk_size >= 2
    }

    open spec fn boundary(s: BfbcModel, data: Seq<u8>) -> Option<int> {
        first_cut(s, data)
    }

    open spec fn advance(s: BfbcModel, data: Seq<u8>) -> BfbcModel {
        consume(s, data)
    }

    open spec fn fresh(s: BfbcModel) -> BfbcModel {
        s.renewed()
    }

    open spec fn seam_invariant() -> bool {
        true
    }

    open spec fn ready(s: BfbcModel) -> bool {
        true
    }

    proof fn lemma_ready(s: BfbcModel, data: Seq<u8>) {
    }

    open spec fn room(s: BfbcModel) -> Option<nat> {
        None
    }

    proof fn lemma_room(s: BfbcModel, data: Seq<u8>) {
    }

    proof fn lemma_boundary_in_view(s: BfbcModel, data: Seq<u8>) {
        lemma_first_cut_is_first(s, data);
    }

    proof fn lemma_advance_empty(s: BfbcModel) {
        lemma_consume_empty(s);
    }

    proof fn lemma_fresh(s: BfbcModel, data: Seq<u8>) {
        lemma_consume_renewed(s, data);
    }

    proof fn lemma_seam(s: BfbcModel, a: Seq<u8>, b: Seq<u8>) {
        lemma_consume_concat(s, a, b);
    }

    #[verifier::loop_isolation(false)]
    fn find_boundary(&mut self, data: &[u8]) -> (res: Option<usize>) {
        let ghost start = self.state();
        let mut i: usize = 0;
        while i < data.len()
            invariant
                i <= data.len(),
                self.inv(),
                start == old(self).state(),
                first_cut(start, data@.take(i as int)) is None,
                self.state() == run(start, data@.take(i as int)),
            decreases data.len() - i,
        {
            proof {
                lemma_scan_next(start, data@, i as int);
            }
            self.state.ingest(data[i]);

            if self.state.pos >= self.min_chunk_size {
                let mut k: usize = 0;
                while k < self.frequent_byte_pairs.len()
                    invariant
                        k <= self.frequent_byte_pairs.len(),
                        forall|j: int|
                            0 <= j < k ==> self.frequent_byte_pairs@[j] != self.state.window,
                    decreases self.frequent_byte_pairs.len() - k,
                {
                    if self.state.window == self.frequent_byte_pairs[k] {
                        proof {
                            lemma_first_cut_prefix(start, data@, i + 1);
                        }
                        return Some(i);
                    }
                    k += 1;
                }
            }
            i += 1;
        }
        proof {
            assert(data@.take(i as int) =~= data@);
        }
        // No chunk boundary found in current data block.
        None
    }

    fn reset(&mut self) {
        self.state.reset()
    }
}

} // verus!
