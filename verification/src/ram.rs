//! Rapid asymmetric maximum.

use vstd::prelude::*;
use vstd::slice::slice_subrange;
use crate::bytewise::{
    consume, first_cut, lemma_consume_concat, lemma_consume_empty, lemma_consume_renewed,
    lemma_first_cut_concat, lemma_first_cut_is_first, lemma_first_cut_prefix, lemma_run_concat,
    lemma_scan_next, run, ByteRule,
};
use crate::strategy::{bump, bump_by, chunking, is_fresh, shifted, ChunkerImpl};

verus! {

/// A chunker that implements the Rapid Asymmetric Maximum (RAM) algorithm.
///
/// This algorithm is similar to Asymmetric Extremum (AE), but uses a fixed-sized window before
/// a variable-sized one. The fixed-sized window sets the maximum; a chunk cut-point is then
/// emitted from within the variable-sized window, at the first byte that is no smaller than the
/// maximum.
///
/// Chunk sizes are unbounded on input of low entropy: consider `max_size` to enforce a limit.
///
/// Source: Ryan N.S. Widodo, Hyotaek Lim, Mohammed Atiquzzaman: A new content-defined chunking
/// algorithm for data deduplication in cloud storage. Future Generation Computer Systems, Volume
/// 71, 2017, Pages 145-156, ISSN 0167-739X. https://doi.org/10.1016/j.future.2017.02.013.
#[derive(Clone, Debug)]
pub struct RAMChunker {
    window_size: usize,
    state: RAMState,
}

#[derive(Clone, Debug, Default)]
struct RAMState {
    /// The current maximum value; zero at the start and after a reset.
    maximum_value: u8,
    /// The position relative to the last chunk boundary.
    pos: usize,
}

/// The state of the RAM rule.
pub struct RamModel {
    /// The position of the last byte of the fixed window.
    pub window: nat,
    /// The largest byte of the fixed window, as far as it was seen.
    pub maximum_value: u8,
    /// The number of bytes seen since the last reset, up to the largest `usize`.
    pub pos: nat,
}

impl ByteRule for RamModel {
    open spec fn step(self, b: u8) -> Self {
        RamModel {
            window: self.window,
            maximum_value: if b >= self.maximum_value && self.pos <= self.window {
                b
            } else {
                self.maximum_value
            },
            pos: bump(self.pos),
        }
    }

    /// The chunk ends at the first byte after the fixed window that is no
    /// smaller than the maximum.
    open spec fn cuts(self, b: u8) -> bool {
        b >= self.maximum_value && self.pos > self.window
    }

    open spec fn renewed(self) -> Self {
        RamModel { window: self.window, maximum_value: 0, pos: 0 }
    }

    proof fn lemma_renewed(self, b: u8) {
    }
}

impl RAMChunker {
    /// Creates a chunker using the Rapid Asymmetric Maximum algorithm with the given size for the
    /// fixed window.
    pub fn new(window_size: usize) -> (chunker: RAMChunker)
        ensures
            chunker.inv(),
            is_fresh::<Self>(chunker.state()),
            chunker.state() == (RamModel {
                window: window_size as nat,
                maximum_value: 0,
                pos: 0,
            }),
    {
        RAMChunker { window_size, state: RAMState { maximum_value: 0, pos: 0 } }
    }
}

impl RAMState {
    fn reset(&mut self)
        ensures
            final(self).maximum_value == 0,
            final(self).pos == 0,
    {
        self.maximum_value = 0;
        self.pos = 0;
    }
}

impl ChunkerImpl for RAMChunker {
    type State = RamModel;

    closed spec fn state(&self) -> RamModel {
        RamModel {
            window: self.window_size as nat,
            maximum_value: self.state.maximum_value,
            pos: self.state.pos as nat,
        }
    }

    closed spec fn inv(&self) -> bool {
        true
    }

    open spec fn boundary(s: RamModel, data: Seq<u8>) -> Option<int> {
        first_cut(s, data)
    }

    open spec fn advance(s: RamModel, data: Seq<u8>) -> RamModel {
        consume(s, data)
    }

    open spec fn fresh(s: RamModel) -> RamModel {
        s.renewed()
    }

    open spec fn seam_invariant() -> bool {
        true
    }

    open spec fn ready(s: RamModel) -> bool {
        true
    }

    proof fn lemma_ready(s: RamModel, data: Seq<u8>) {
    }

    open spec fn room(s: RamModel) -> Option<nat> {
        None
    }

    proof fn lemma_room(s: RamModel, data: Seq<u8>) {
    }

    proof fn lemma_boundary_in_view(s: RamModel, data: Seq<u8>) {
        lemma_first_cut_is_first(s, data);
    }

    proof fn lemma_advance_empty(s: RamModel) {
        lemma_consume_empty(s);
    }

    proof fn lemma_fresh(s: RamModel, data: Seq<u8>) {
        lemma_consume_renewed(s, data);
    }

    proof fn lemma_seam(s: RamModel, a: Seq<u8>, b: Seq<u8>) {
        lemma_consume_concat(s, a, b);
    }

    fn find_boundary(&mut self, data: &[u8]) -> (res: Option<usize>) {
        let ghost start = self.state();
        let mut i: usize = 0;
        while i < data.len()
            invariant
                i <= data.len(),
                start == old(self).state(),
                first_cut(start, data@.take(i as int)) is None,
                self.state() == run(start, data@.take(i as int)),
            decreases data.len() - i,
        {
            proof {
                lemma_scan_next(start, data@, i as int);
            }
            let b: u8 = data[i];
            // The position since the last chunk boundary.
            let global_pos: usize = self.state.pos;
            self.state.pos = self.state.pos.saturating_add(1);

            if b >= self.state.maximum_value {
                if global_pos > self.window_size {
                    proof {
                        lemma_first_cut_prefix(start, data@, i + 1);
                    }
                    return Some(i);
                }
                self.state.maximum_value = b;
            }
            i += 1;
        }
        proof {
            assert(data@.take(i as int) =~= data@);
        }
        // No cut-point found within the current data block.
        None
    }

    fn reset(&mut self) {
        self.state.reset()
    }
}

/// A chunker that implements the Rapid Asymmetric Maximum (RAM) algorithm.
///
/// This version takes the fixed window in one step and then searches the
/// variable-sized window. It cuts where `RAMChunker` cuts with the same
/// parameter.
#[derive(Clone, Debug)]
pub struct MaybeOptimizedRAMChunker {
    /// The position of the last byte of the fixed window.
    window_size: usize,
    /// The current state.
    state: RAMState,
}

/// The state of the RAM rule in its version with two phases.
pub struct WindowedRamModel {
    /// The position of the last byte of the fixed window.
    pub window: nat,
    /// The largest byte of the fixed window, as far as it was seen.
    pub maximum_value: u8,
    /// The number of bytes of the fixed window that were seen, up to the
    /// largest `usize`; beyond the window it counts no more.
    pub pos: nat,
}

impl ByteRule for WindowedRamModel {
    open spec fn step(self, b: u8) -> Self {
        if self.pos <= self.window {
            WindowedRamModel {
                window: self.window,
                maximum_value: if b >= self.maximum_value {
                    b
                } else {
                    self.maximum_value
                },
                pos: bump(self.pos),
            }
        } else {
            self
        }
    }

    /// The chunk ends at the first byte after the fixed window that is no
    /// smaller than the maximum.
    open spec fn cuts(self, b: u8) -> bool {
        b >= self.maximum_value && self.pos > self.window
    }

    open spec fn renewed(self) -> Self {
        WindowedRamModel { window: self.window, maximum_value: 0, pos: 0 }
    }

    proof fn lemma_renewed(self, b: u8) {
    }
}

/// Within the fixed window the rule does not cut, and beyond it bytes leave
/// the state as it is.
proof fn lemma_windowed_scan(s: WindowedRamModel, data: Seq<u8>)
    ensures
        s.pos <= usize::MAX && (s.pos + data.len() <= s.window + 1 || s.window >= usize::MAX)
            ==> first_cut(s, data) is None && run(s, data).pos == bump_by(s.pos, data.len())
            && run(s, data).window == s.window,
        s.pos > s.window ==> run(s, data) == s,
    decreases data.len(),
{
    if data.len() > 0 {
        lemma_windowed_scan(s, data.drop_last());
    }
}

impl MaybeOptimizedRAMChunker {
    /// Creates a chunker using the Rapid Asymmetric Maximum algorithm with the given size for the
    /// fixed window.
    pub fn new(window_size: usize) -> (chunker: MaybeOptimizedRAMChunker)
        ensures
            chunker.inv(),
            is_fresh::<Self>(chunker.state()),
            chunker.state() == (WindowedRamModel {
                window: window_size as nat,
                maximum_value: 0,
                pos: 0,
            }),
    {
        MaybeOptimizedRAMChunker { window_size, state: RAMState { maximum_value: 0, pos: 0 } }
    }

    /// Ensures that the fixed window is filled and a local maximum has been determined.
    /// Returns None if the window is not yet filled and additional buffers of data are required.
    /// Returns Some(pos) for a position within data at which the boundary between the fixed-sized
    /// and variable-sized windows are. Search for a cut-point should commence from this boundary.
    fn ensure_window_filled(&mut self, data: &[u8]) -> (res: Option<usize>)
        requires
            old(self).inv(),
        ensures
            final(self).inv(),
            match res {
                Some(n) => {
                    &&& n <= data@.len()
                    &&& first_cut(old(self).state(), data@.take(n as int)) is None
                    &&& final(self).state() == run(old(self).state(), data@.take(n as int))
                    &&& final(self).state().pos > final(self).state().window || n == data@.len()
                },
                None => {
                    &&& first_cut(old(self).state(), data@) is None
                    &&& final(self).state() == run(old(self).state(), data@)
                },
            },
    {
        let ghost start = self.state();
        // Our window is full.
        if self.state.pos > self.window_size {
            return Some(0);
        }
        // Check how many bytes we need to fill our window.

        let room: usize = if self.window_size == usize::MAX {
            // The window takes all bytes.
            usize::MAX
        } else {
            self.window_size - self.state.pos + 1
        };
        let num_bytes_to_advance: usize = if data.len() < room {
            data.len()
        } else {
            room
        };

        // The buffer is empty.
        if num_bytes_to_advance == 0 {
            return Some(0);
        }
        // Find the maximum value within the data we're filling with, and
        // update the maximum.

        let mut j: usize = 0;
        while j < num_bytes_to_advance
            invariant
                j <= num_bytes_to_advance <= data.len(),
                start.pos + num_bytes_to_advance <= start.window + 1 || start.window
                    >= usize::MAX,
                num_bytes_to_advance == data.len() || start.pos + num_bytes_to_advance
                    == start.window + 1 <= usize::MAX,
                self.window_size == start.window,
                self.state.pos == start.pos,
                run(start, data@.take(j as int)) == (WindowedRamModel {
                    window: start.window,
                    maximum_value: self.state.maximum_value,
                    pos: bump_by(start.pos, j as nat),
                }),
            decreases num_bytes_to_advance - j,
        {
            proof {
                lemma_scan_next(start, data@, j as int);
            }
            if data[j] >= self.state.maximum_value {
                self.state.maximum_value = data[j];
            }
            j += 1;
        }
        self.state.pos = self.state.pos.saturating_add(num_bytes_to_advance);
        proof {
            lemma_windowed_scan(start, data@.take(num_bytes_to_advance as int));
        }

        // We're done filling our window from this buffer.
        if self.state.pos > self.window_size {
            return Some(num_bytes_to_advance);
        }
        // We're not done filling our window from this buffer.

        proof {
            assert(data@.take(num_bytes_to_advance as int) =~= data@);
        }
        None
    }
}

impl ChunkerImpl for MaybeOptimizedRAMChunker {
    type State = WindowedRamModel;

    closed spec fn state(&self) -> WindowedRamModel {
        WindowedRamModel {
            window: self.window_size as nat,
            maximum_value: self.state.maximum_value,
            pos: self.state.pos as nat,
        }
    }

    closed spec fn inv(&self) -> bool {
        true
    }

    open spec fn boundary(s: WindowedRamModel, data: Seq<u8>) -> Option<int> {
        first_cut(s, data)
    }

    open spec fn advance(s: WindowedRamModel, data: Seq<u8>) -> WindowedRamModel {
        consume(s, data)
    }

    open spec fn fresh(s: WindowedRamModel) -> WindowedRamModel {
        s.renewed()
    }

    open spec fn seam_invariant() -> bool {
        true
    }

    open spec fn ready(s: WindowedRamModel) -> bool {
        true
    }

    proof fn lemma_ready(s: WindowedRamModel, data: Seq<u8>) {
    }

    open spec fn room(s: WindowedRamModel) -> Option<nat> {
        None
    }

    proof fn lemma_room(s: WindowedRamModel, data: Seq<u8>) {
    }

    proof fn lemma_boundary_in_view(s: WindowedRamModel, data: Seq<u8>) {
        lemma_first_cut_is_first(s, data);
    }

    proof fn lemma_advance_empty(s: WindowedRamModel) {
        lemma_consume_empty(s);
    }

    proof fn lemma_fresh(s: WindowedRamModel, data: Seq<u8>) {
        lemma_consume_renewed(s, data);
    }

    proof fn lemma_seam(s: WindowedRamModel, a: Seq<u8>, b: Seq<u8>) {
        lemma_consume_concat(s, a, b);
    }

    fn find_boundary(&mut self, data: &[u8]) -> (res: Option<usize>) {
        let ghost start = self.state();
        let pos_after_window_is_filled = self.ensure_window_filled(data);
        match pos_after_window_is_filled {
            None => {
                // We're still filling our window.
                None
            },
            Some(pos) => {
                // Our window is full, we can start looking for a boundary:
                // the first byte that is no smaller than the maximum.
                let ghost filled = self.state();
                let rest = slice_subrange(data, pos, data.len());
                proof {
                    assert(data@.take(pos as int) + rest@ =~= data@);
                    lemma_first_cut_concat(start, data@.take(pos as int), rest@);
                    lemma_run_concat(start, data@.take(pos as int), rest@);
                }
                let mut i: usize = 0;
                while i < rest.len()
                    invariant
                        i <= rest.len(),
                        pos + rest@.len() == data@.len() <= usize::MAX,
                        rest@ == data@.skip(pos as int),
                        self.inv(),
                        start == old(self).state(),
                        self.state() == filled,
                        filled == run(start, data@.take(pos as int)),
                        filled.pos > filled.window || rest@.len() == 0,
                        first_cut(filled, rest@.take(i as int)) is None,
                        first_cut(start, data@) == shifted(first_cut(filled, rest@), pos as int),
                        run(start, data@) == run(filled, rest@),
                    decreases rest.len() - i,
                {
                    proof {
                        lemma_scan_next(filled, rest@, i as int);
                        lemma_windowed_scan(filled, rest@.take(i as int));
                    }
                    if rest[i] >= self.state.maximum_value {
                        proof {
                            lemma_first_cut_prefix(filled, rest@, i + 1);
                            lemma_windowed_scan(filled, rest@.take(i + 1));
                            assert(data@.take(pos as int) + rest@.take(i + 1) =~= data@.take(
                                pos + i + 1,
                            ));
                            lemma_run_concat(start, data@.take(pos as int), rest@.take(i + 1));
                        }
                        return Some(i + pos);
                    }
                    i += 1;
                }
                proof {
                    assert(rest@.take(i as int) =~= rest@);
                    lemma_windowed_scan(filled, rest@);
                }
                None
            },
        }
    }

    fn reset(&mut self) {
        self.state.reset()
    }
}

/// Whether the two versions of the rule stand at the same point: the fixed
/// windows are the same, the maxima are the same, and as many bytes of the
/// fixed window were seen.
pub open spec fn ram_alike(plain: RamModel, phased: WindowedRamModel) -> bool {
    &&& phased.window == plain.window
    &&& phased.maximum_value == plain.maximum_value
    &&& phased.pos == if plain.pos <= plain.window {
        plain.pos
    } else {
        plain.window + 1
    }
}

/// The two versions of the rule go through the same bytes alike.
proof fn lemma_ram_scans_agree(plain: RamModel, phased: WindowedRamModel, data: Seq<u8>)
    requires
        ram_alike(plain, phased),
    ensures
        ram_alike(run(plain, data), run(phased, data)),
        first_cut(plain, data) == first_cut(phased, data),
    decreases data.len(),
{
    if data.len() > 0 {
        lemma_ram_scans_agree(plain, phased, data.drop_last());
    }
}

/// `MaybeOptimizedRAMChunker` makes the chunks that `RAMChunker` makes with
/// the same parameter.
pub proof fn lemma_ram_versions_agree(plain: RamModel, phased: WindowedRamModel, data: Seq<u8>)
    requires
        ram_alike(plain, phased),
    ensures
        chunking::<RAMChunker>(plain, data) == chunking::<MaybeOptimizedRAMChunker>(phased, data),
    decreases data.len(),
{
    if data.len() > 0 {
        lemma_ram_scans_agree(plain, phased, data);
        lemma_first_cut_is_first(plain, data);
        match first_cut(plain, data) {
            Some(k) => {
                lemma_ram_versions_agree(plain.renewed(), phased.renewed(), data.skip(k + 1));
            },
            None => {},
        }
    }
}

} // verus!
