//! Two thresholds, two divisors.

use vstd::prelude::*;
use crate::bytewise::{
    consume, first_cut, lemma_consume_empty, lemma_consume_renewed, lemma_first_cut_is_first,
    lemma_first_cut_prefix, lemma_scan_next, run, ByteRule,
};
use crate::gear::{gear_mix, TABLE};
use crate::strategy::{bump, is_fresh, ChunkerImpl};

verus! {

/// A hasher that implements the TTTD algorithm, over the Gear hash.
///
/// A chunk of at least `min_chunk_size` bytes ends where the hash leaves the
/// remainder `divisor - 1` when divided by `divisor`. Where no such byte has
/// come when the chunk holds `max_chunk_size` bytes, the chunk ends at the
/// last byte at which the hash left the remainder `backup_divisor - 1`
/// when divided by `backup_divisor`, if the view that is scanned holds such a
/// byte, and else at the byte that completes `max_chunk_size` bytes.
///
/// A boundary at a backup lies before the byte at which it is decided. It
/// can only be given within the view that is being scanned, so that the
/// boundaries of this strategy depend on how the stream is divided into views.
///
/// Source: Eshghi, Kave et al. "A Framework for Analyzing and Improving Content-Based Chunking Algorithms"
/// Hewlett-Packard Labs Technical Report TR (2005)
#[derive(Debug, Clone)]
pub struct TTTDChunker {
    divisor: u32,
    backup_divisor: u32,
    min_chunk_size: usize,
    max_chunk_size: usize,
    state: TTTDState,
}

#[derive(Clone, Copy, Debug, Default)]
struct TTTDState {
    hash: u32,
    pos: usize,
    backup_pos: usize,
}

/// The state of the TTTD rule.
pub struct TttdModel {
    pub divisor: u32,
    pub backup_divisor: u32,
    pub min_chunk_size: nat,
    pub max_chunk_size: nat,
    /// The hash.
    pub hash: u32,
    /// The number of bytes seen since the last reset, up to the largest `usize`.
    pub pos: nat,
    /// The number of bytes seen up to and with the last backup; 0 where
    /// there is none.
    pub backup_pos: nat,
}

impl TttdModel {
    /// Whether the chunk, with byte `b`, has reached its largest size.
    pub open spec fn full(self, b: u8) -> bool {
        bump(self.pos) >= self.min_chunk_size && bump(self.pos) >= self.max_chunk_size
    }

    /// Whether byte `b` is a backup: the chunk has its least size and not its
    /// largest, and the hash leaves the backup remainder.
    pub open spec fn backs_up(self, b: u8) -> bool {
        &&& bump(self.pos) >= self.min_chunk_size
        &&& !self.full(b)
        &&& gear_mix(self.hash, b) % self.backup_divisor == self.backup_divisor - 1
    }
}

impl ByteRule for TttdModel {
    open spec fn step(self, b: u8) -> Self {
        TttdModel {
            hash: gear_mix(self.hash, b),
            pos: bump(self.pos),
            backup_pos: if self.backs_up(b) {
                bump(self.pos)
            } else {
                self.backup_pos
            },
            ..self
        }
    }

    /// Whether the chunk is decided at byte `b`: it is full, or it has its
    /// least size and the hash leaves the main remainder.
    open spec fn cuts(self, b: u8) -> bool {
        bump(self.pos) >= self.min_chunk_size && (self.full(b) || gear_mix(self.hash, b)
            % self.divisor == self.divisor - 1)
    }

    open spec fn renewed(self) -> Self {
        TttdModel { hash: 0, pos: 0, backup_pos: 0, ..self }
    }

    proof fn lemma_renewed(self, b: u8) {
    }
}

impl TTTDChunker {
    /// Creates a new TTTD hasher.
    pub fn new(
        divisor: u32,
        backup_divisor: u32,
        min_chunk_size: usize,
        max_chunk_size: usize,
    ) -> (chunker: TTTDChunker)
        requires
            divisor > 0,
            backup_divisor > 0,
        ensures
            chunker.inv(),
            is_fresh::<Self>(chunker.state()),
            chunker.state() == (TttdModel {
                divisor,
                backup_divisor,
                min_chunk_size: min_chunk_size as nat,
                max_chunk_size: max_chunk_size as nat,
                hash: 0,
                pos: 0,
                backup_pos: 0,
            }),
    {
        TTTDChunker {
            divisor,
            backup_divisor,
            min_chunk_size,
            max_chunk_size,
            state: TTTDState { hash: 0, pos: 0, backup_pos: 0 },
        }
    }
}

impl TTTDState {
    fn reset(&mut self)
        ensures
            final(self).hash == 0,
            final(self).pos == 0,
            final(self).backup_pos == 0,
    {
        self.hash = 0;
        self.pos = 0;
        self.backup_pos = 0;
    }

    fn ingest(&mut self, b: u8)
        ensures
            final(self).hash == gear_mix(old(self).hash, b),
            final(self).pos == bump(old(self).pos as nat),
            final(self).backup_pos == old(self).backup_pos,
    {
        self.hash = (self.hash << 1).wrapping_add(TABLE[b as usize]);
        self.pos = self.pos.saturating_add(1);
    }

    fn check_hash(&mut self, divisor: u32, backup_divisor: u32) -> (cut: bool)
        requires
            divisor > 0,
            backup_divisor > 0,
        ensures
            final(self).hash == old(self).hash,
            final(self).pos == old(self).pos,
            final(self).backup_pos == if old(self).hash % backup_divisor == backup_divisor - 1 {
                old(self).pos
            } else {
                old(self).backup_pos
            },
            cut == (old(self).hash % divisor == divisor - 1),
    {
        if self.hash % backup_divisor == backup_divisor - 1 {
            self.backup_pos = self.pos;
        }
        self.hash % divisor == divisor - 1
    }
}

impl ChunkerImpl for TTTDChunker {
    type State = TttdModel;

    closed spec fn state(&self) -> TttdModel {
        TttdModel {
            divisor: self.divisor,
            backup_divisor: self.backup_divisor,
            min_chunk_size: self.min_chunk_size as nat,
            max_chunk_size: self.max_chunk_size as nat,
            hash: self.state.hash,
            pos: self.state.pos as nat,
            backup_pos: self.state.backup_pos as nat,
        }
    }

    closed spec fn inv(&self) -> bool {
        &&& self.divisor > 0
        &&& self.backup_divisor > 0
        &&& self.state.backup_pos <= self.state.pos
    }

    /// Where the chunk is decided at a byte of `data`: at that byte, unless
    /// the chunk is full and `data` holds a backup, which is then the boundary.
    open spec fn boundary(s: TttdModel, data: Seq<u8>) -> Option<int> {
        match first_cut(s, data) {
            Some(i) => {
                let t = run(s, data.take(i));
                if t.full(data[i]) && s.pos < t.backup_pos <= t.pos {
                    Some(t.backup_pos - s.pos - 1)
                } else {
                    Some(i)
                }
            },
            None => None,
        }
    }

    open spec fn advance(s: TttdModel, data: Seq<u8>) -> TttdModel {
        consume(s, data)
    }

    open spec fn fresh(s: TttdModel) -> TttdModel {
        s.renewed()
    }

    open spec fn seam_invariant() -> bool {
        false
    }

    open spec fn ready(s: TttdModel) -> bool {
        true
    }

    proof fn lemma_ready(s: TttdModel, data: Seq<u8>) {
    }

    open spec fn room(s: TttdModel) -> Option<nat> {
        None
    }

    proof fn lemma_room(s: TttdModel, data: Seq<u8>) {
    }

    proof fn lemma_boundary_in_view(s: TttdModel, data: Seq<u8>) {
        lemma_first_cut_is_first(s, data);
        match first_cut(s, data) {
            Some(i) => lemma_tttd_pos(s, data.take(i)),
            None => {},
        }
    }

    proof fn lemma_advance_empty(s: TttdModel) {
        lemma_consume_empty(s);
    }

    proof fn lemma_fresh(s: TttdModel, data: Seq<u8>) {
        lemma_consume_renewed(s, data);
    }

    proof fn lemma_seam(s: TttdModel, a: Seq<u8>, b: Seq<u8>) {
    }

    fn find_boundary(&mut self, data: &[u8]) -> (res: Option<usize>) {
        let ghost start = self.state();
        let from: usize = self.state.pos;
        let mut i: usize = 0;
        while i < data.len()
            invariant
                i <= data.len(),
                self.inv(),
                start == old(self).state(),
                from == start.pos,
                first_cut(start, data@.take(i as int)) is None,
                self.state() == run(start, data@.take(i as int)),
            decreases data.len() - i,
        {
            let ghost before = self.state();
            proof {
                lemma_scan_next(start, data@, i as int);
                lemma_tttd_pos(start, data@.take(i as int));
            }
            self.state.ingest(data[i]);

            if self.state.pos >= self.min_chunk_size {
                if self.state.pos >= self.max_chunk_size {
                    proof {
                        lemma_first_cut_prefix(start, data@, i + 1);
                        lemma_first_cut_is_first(start, data@);
                    }
                    if self.state.backup_pos > from {
                        return Some(self.state.backup_pos - from - 1);
                    }
                    return Some(i);
                }
                if self.state.check_hash(self.divisor, self.backup_divisor) {
                    proof {
                        lemma_first_cut_prefix(start, data@, i + 1);
                        lemma_first_cut_is_first(start, data@);
                    }
                    return Some(i);
                }
            }
            i += 1;
        }
        proof {
            assert(data@.take(i as int) =~= data@);
        }
        None
    }

    fn reset(&mut self) {
        self.state.reset()
    }
}

/// Seeing bytes moves the position by at most their number, and leaves a
/// backup that lies within the bytes seen where it lay there before.
proof fn lemma_tttd_pos(s: TttdModel, data: Seq<u8>)
    ensures
        s.pos <= run(s, data).pos <= s.pos + data.len(),
        s.backup_pos <= s.pos ==> run(s, data).backup_pos <= run(s, data).pos,
    decreases data.len(),
{
    if data.len() > 0 {
        lemma_tttd_pos(s, data.drop_last());
    }
}

} // verus!
