//! Chunks of a fixed size.

use vstd::prelude::*;
use crate::bytewise::{
    consume, first_cut, lemma_consume_concat, lemma_consume_empty, lemma_consume_renewed,
    lemma_first_cut_is_first, run, ByteRule,
};
use crate::strategy::{bump, bump_by, is_fresh, ChunkerImpl};

verus! {

/// A chunker that produces chunks of a fixed size.
///
/// This is fast, but poor for deduplication: an insertion shifts every
/// boundary that follows it.
#[derive(Debug, Clone)]
pub struct FixedSizeChunker {
    chunk_size: usize,
    state: FixedSizeChunkerState,
}

#[derive(Debug, Default, Clone, Copy)]
struct FixedSizeChunkerState {
    pos: usize,
}

/// The state of a fixed-size chunker: the chunk size and the number of bytes
/// seen since the last reset.
pub struct FixedSizeModel {
    pub chunk_size: nat,
    pub pos: nat,
}

impl ByteRule for FixedSizeModel {
    open spec fn step(self, b: u8) -> Self {
        FixedSizeModel { chunk_size: self.chunk_size, pos: bump(self.pos) }
    }

    open spec fn cuts(self, b: u8) -> bool {
        self.pos + 1 == self.chunk_size
    }

    open spec fn renewed(self) -> Self {
        FixedSizeModel { chunk_size: self.chunk_size, pos: 0 }
    }

    proof fn lemma_renewed(self, b: u8) {
    }
}

impl FixedSizeChunkerState {
    fn reset(&mut self)
        ensures
            final(self).pos == 0,
    {
        self.pos = 0
    }
}

impl FixedSizeChunker {
    /// Constructs a chunker that produces chunks of `chunk_size` bytes.
    pub fn new(chunk_size: usize) -> (chunker: FixedSizeChunker)
        ensures
            chunker.inv(),
            is_fresh::<Self>(chunker.state()),
            chunker.state() == (FixedSizeModel { chunk_size: chunk_size as nat, pos: 0 }),
    {
        FixedSizeChunker { chunk_size, state: FixedSizeChunkerState { pos: 0 } }
    }
}

/// The fixed-size rule cuts at the byte that completes `chunk_size` bytes, and
/// at no other.
pub proof fn lemma_fixed_size_scan(s: FixedSizeModel, data: Seq<u8>)
    requires
        s.pos <= usize::MAX,
        s.chunk_size <= usize::MAX,
    ensures
        run(s, data) == (FixedSizeModel {
            chunk_size: s.chunk_size,
            pos: bump_by(s.pos, data.len()),
        }),
        first_cut(s, data) == if s.pos < s.chunk_size <= s.pos + data.len() {
            Some(s.chunk_size - s.pos - 1)
        } else {
            None::<int>
        },
    decreases data.len(),
{
    if data.len() > 0 {
        lemma_fixed_size_scan(s, data.drop_last());
    }
}

impl ChunkerImpl for FixedSizeChunker {
    type State = FixedSizeModel;

    closed spec fn state(&self) -> FixedSizeModel {
        FixedSizeModel { chunk_size: self.chunk_size as nat, pos: self.state.pos as nat }
    }

    closed spec fn inv(&self) -> bool {
        true
    }

    open spec fn boundary(s: FixedSizeModel, data: Seq<u8>) -> Option<int> {
        first_cut(s, data)
    }

    open spec fn advance(s: FixedSizeModel, data: Seq<u8>) -> FixedSizeModel {
        consume(s, data)
    }

    open spec fn fresh(s: FixedSizeModel) -> FixedSizeModel {
        s.renewed()
    }

    open spec fn seam_invariant() -> bool {
        true
    }

    open spec fn ready(s: FixedSizeModel) -> bool {
        true
    }

    proof fn lemma_ready(s: FixedSizeModel, data: Seq<u8>) {
    }

    open spec fn room(s: FixedSizeModel) -> Option<nat> {
        None
    }

    proof fn lemma_room(s: FixedSizeModel, data: Seq<u8>) {
    }

    proof fn lemma_boundary_in_view(s: FixedSizeModel, data: Seq<u8>) {
        lemma_first_cut_is_first(s, data);
    }

    proof fn lemma_advance_empty(s: FixedSizeModel) {
        lemma_consume_empty(s);
    }

    proof fn lemma_fresh(s: FixedSizeModel, data: Seq<u8>) {
        lemma_consume_renewed(s, data);
    }

    proof fn lemma_seam(s: FixedSizeModel, a: Seq<u8>, b: Seq<u8>) {
        lemma_consume_concat(s, a, b);
    }

    fn find_boundary(&mut self, data: &[u8]) -> (res: Option<usize>) {
        proof {
            lemma_fixed_size_scan(self.state(), data@);
        }
        if self.state.pos < self.chunk_size && self.chunk_size - self.state.pos - 1 < data.len() {
            // The chunk boundary is within this block.
            let cut: usize = self.chunk_size - self.state.pos - 1;
            proof {
                lemma_fixed_size_scan(self.state(), data@.take(cut + 1));
            }
            self.state.pos = self.chunk_size;
            return Some(cut);
        }
        // The chunk boundary does not lie within this block.
        self.state.pos = self.state.pos.saturating_add(data.len());
        None
    }

    fn reset(&mut self) {
        self.state.reset()
    }
}

} // verus!
