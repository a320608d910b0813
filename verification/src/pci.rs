//! Parity check of interval.

use std::collections::VecDeque;
use vstd::prelude::*;
use crate::bytewise::{
    consume, first_cut, lemma_consume_concat, lemma_consume_empty, lemma_consume_renewed,
    lemma_first_cut_is_first, lemma_first_cut_prefix, lemma_scan_next, run, ByteRule,
};
use crate::strategy::{bump, is_fresh, ChunkerImpl};

verus! {

/// The number of 1-bits in `b`.
pub open spec fn popcount(b: u8) -> nat
    decreases b,
{
    if b == 0 {
        0
    } else {
        (b % 2) as nat + popcount(b / 2)
    }
}

/// `u8::count_ones`: the number of ones in the binary representation of `b`.
pub assume_specification[ u8::count_ones ](b: u8) -> (ones: u32)
    ensures
        ones == popcount(b),
;

/// The number of 1-bits in the bytes of `window`.
pub open spec fn ones(window: Seq<u8>) -> nat
    decreases window.len(),
{
    if window.len() == 0 {
        0
    } else {
        ones(window.drop_last()) + popcount(window.last())
    }
}

/// A byte has at most 8 1-bits.
pub proof fn lemma_popcount_bound(b: u8)
    ensures
        popcount(b) <= 8,
        b < 128 ==> popcount(b) <= 7,
        b < 64 ==> popcount(b) <= 6,
        b < 32 ==> popcount(b) <= 5,
        b < 16 ==> popcount(b) <= 4,
        b < 8 ==> popcount(b) <= 3,
        b < 4 ==> popcount(b) <= 2,
        b < 2 ==> popcount(b) <= 1,
    decreases b,
{
    if b != 0 {
        lemma_popcount_bound(b / 2);
    }
}

/// The 1-bits of a window are at most 8 for each byte.
pub proof fn lemma_ones_bound(window: Seq<u8>)
    ensures
        ones(window) <= 8 * window.len(),
    decreases window.len(),
{
    if window.len() > 0 {
        lemma_ones_bound(window.drop_last());
        lemma_popcount_bound(window.last());
    }
}

/// A window of zeros has no 1-bits.
pub proof fn lemma_ones_of_zeros(window: Seq<u8>)
    requires
        forall|i: int| 0 <= i < window.len() ==> window[i] == 0,
    ensures
        ones(window) == 0,
    decreases window.len(),
{
    if window.len() > 0 {
        lemma_ones_of_zeros(window.drop_last());
    }
}

/// The 1-bits of a window without its first byte.
pub proof fn lemma_ones_skip(window: Seq<u8>)
    requires
        window.len() > 0,
    ensures
        ones(window.skip(1)) + popcount(window[0]) == ones(window),
    decreases window.len(),
{
    if window.len() == 1 {
        assert(window.skip(1) =~= Seq::<u8>::empty());
        assert(window.drop_last() =~= Seq::<u8>::empty());
    } else {
        lemma_ones_skip(window.drop_last());
        assert(window.skip(1).drop_last() =~= window.drop_last().skip(1));
    }
}

/// The 1-bits of a window that has moved on by one byte.
pub proof fn lemma_ones_slide(window: Seq<u8>, b: u8)
    requires
        window.len() > 0,
    ensures
        ones(window.skip(1).push(b)) + popcount(window[0]) == ones(window) + popcount(b),
{
    lemma_ones_skip(window);
    assert(window.skip(1).push(b).drop_last() =~= window.skip(1));
}

/// The state of the PCI rule.
pub struct PciModel {
    /// The last bytes seen, as many as the window holds, the oldest first;
    /// zeros where fewer bytes were seen.
    pub window: Seq<u8>,
    /// The number of 1-bits in the window from which the chunk ends.
    pub threshold: u32,
    /// The number of bytes seen since the last reset, up to the largest `usize`.
    pub pos: nat,
}

/// A window after byte `b` has entered it and its oldest byte has left it.
pub open spec fn slide(window: Seq<u8>, b: u8) -> Seq<u8> {
    if window.len() == 0 {
        window
    } else {
        window.skip(1).push(b)
    }
}

impl PciModel {
    /// The window after byte `b` has entered it.
    pub open spec fn slid(self, b: u8) -> Seq<u8> {
        slide(self.window, b)
    }

    /// The state at the start, for a window of `size` bytes.
    pub open spec fn initial(size: nat, threshold: u32) -> PciModel {
        PciModel { window: Seq::new(size, |i: int| 0u8), threshold, pos: 0 }
    }
}

impl ByteRule for PciModel {
    open spec fn step(self, b: u8) -> Self {
        PciModel { window: self.slid(b), threshold: self.threshold, pos: bump(self.pos) }
    }

    /// The chunk ends at a byte with which the window is full and holds
    /// `threshold` 1-bits or more.
    open spec fn cuts(self, b: u8) -> bool {
        bump(self.pos) >= self.window.len() && ones(self.slid(b)) >= self.threshold
    }

    open spec fn renewed(self) -> Self {
        PciModel::initial(self.window.len(), self.threshold)
    }

    proof fn lemma_renewed(self, b: u8) {
        assert(self.step(b).renewed().window =~= self.renewed().window);
        assert(self.renewed().renewed().window =~= self.renewed().window);
    }
}

/// A chunker implementing the Parity Check of Interval (PCI) algorithm.
///
/// This algorithm checks whether the popcount within a sliding window of `W` bytes reaches a
/// threshold. The popcount is kept updated whenever the window moves. No chunk holds fewer
/// bytes than the window.
///
/// Source: C. Zhang, D. Qi, W. Li and J. Guo, "Function of Content Defined Chunking Algorithms in
/// Incremental Synchronization," in IEEE Access, vol. 8, pp. 5316-5330, 2020,
/// doi: 10.1109/ACCESS.2019.2963625.
#[derive(Debug, Clone)]
pub struct PCIChunker<const W: usize> {
    one_bits_threshold: u32,
    state: PCIChunkerState<W>,
}

#[derive(Debug, Clone)]
struct PCIChunkerState<const W: usize> {
    /// The sliding window, as a ring buffer.
    window: [u8; W],
    /// The slot of the ring that holds the oldest byte.
    head: usize,
    /// The position since the last chunk boundary.
    pos: usize,
    /// The current popcount of the window.
    running_popcount: u128,
}

/// The bytes of a ring in their order of arrival, where `head` is the slot of
/// the oldest.
pub open spec fn unrolled(ring: Seq<u8>, head: int) -> Seq<u8> {
    Seq::new(
        ring.len(),
        |i: int|
            if head + i < ring.len() {
                ring[head + i]
            } else {
                ring[head + i - ring.len()]
            },
    )
}

impl<const W: usize> PCIChunkerState<W> {
    /// The number of bytes seen since the last chunk boundary.
    pub closed spec fn count(&self) -> nat {
        self.pos as nat
    }

    /// The bytes of the window, the oldest first.
    pub closed spec fn seen(&self) -> Seq<u8> {
        unrolled(self.window@, self.head as int)
    }

    pub closed spec fn inv(&self) -> bool {
        &&& W == 0 ==> self.head == 0
        &&& W > 0 ==> self.head < W
        &&& self.running_popcount == ones(self.seen())
    }

    fn reset(&mut self)
        ensures
            final(self).inv(),
            final(self).seen() == Seq::new(W as nat, |i: int| 0u8),
            final(self).pos == 0,
    {
        self.window = [0; W];
        self.head = 0;
        self.pos = 0;
        self.running_popcount = 0;
        proof {
            lemma_ones_of_zeros(unrolled(self.window@, 0));
            assert(unrolled(self.window@, 0) =~= Seq::new(W as nat, |i: int| 0u8));
        }
    }

    fn is_window_full(&self) -> (full: bool)
        ensures
            full == (self.pos >= W),
    {
        self.pos >= W
    }

    fn ingest_byte_update_popcount(&mut self, b: u8)
        requires
            old(self).inv(),
        ensures
            final(self).inv(),
            final(self).seen() == slide(old(self).seen(), b),
            final(self).pos == bump(old(self).pos as nat),
    {
        let ghost before = unrolled(self.window@, self.head as int);
        if W > 0 {
            // Update running popcount.
            let popcount_to_remove: u32 = self.window[self.head].count_ones();
            proof {
                lemma_ones_slide(before, b);
                lemma_ones_bound(before.skip(1).push(b));
                lemma_popcount_bound(b);
                assert(before[0] == self.window@[self.head as int]);
            }
            self.running_popcount = self.running_popcount - popcount_to_remove as u128;
            self.running_popcount = self.running_popcount + b.count_ones() as u128;

            // Overwrite byte in the window.
            self.window[self.head] = b;
            self.head = if self.head + 1 == W {
                0
            } else {
                self.head + 1
            };
            proof {
                assert(unrolled(self.window@, self.head as int) =~= before.skip(1).push(b));
            }
        }
        self.pos = self.pos.saturating_add(1);
    }
}

impl<const W: usize> Default for PCIChunkerState<W> {
    fn default() -> (state: Self)
        ensures
            state.inv(),
            state.seen() == Seq::new(W as nat, |i: int| 0u8),
            state.count() == 0,
    {
        let state = PCIChunkerState { window: [0; W], head: 0, pos: 0, running_popcount: 0 };
        proof {
            lemma_ones_of_zeros(unrolled(state.window@, 0));
            assert(unrolled(state.window@, 0) =~= Seq::new(W as nat, |i: int| 0u8));
        }
        state
    }
}

impl<const W: usize> PCIChunker<W> {
    /// Create a new chunker implementing the ParityCheck of Interval (PCI) algorithm.
    /// The generic parameter `W` sets the size of the window in bytes.
    /// The parameter `one_bits_threshold` defines the inclusive threshold of one-bits within the
    /// sliding window.
    pub fn new(one_bits_threshold: u32) -> (chunker: PCIChunker<W>)
        ensures
            chunker.inv(),
            is_fresh::<Self>(chunker.state()),
            chunker.state() == PciModel::initial(W as nat, one_bits_threshold),
    {
        PCIChunker { one_bits_threshold, state: PCIChunkerState::default() }
    }
}

impl<const W: usize> ChunkerImpl for PCIChunker<W> {
    type State = PciModel;

    closed spec fn state(&self) -> PciModel {
        PciModel {
            window: self.state.seen(),
            threshold: self.one_bits_threshold,
            pos: self.state.pos as nat,
        }
    }

    closed spec fn inv(&self) -> bool {
        self.state.inv()
    }

    open spec fn boundary(s: PciModel, data: Seq<u8>) -> Option<int> {
        first_cut(s, data)
    }

    open spec fn advance(s: PciModel, data: Seq<u8>) -> PciModel {
        consume(s, data)
    }

    open spec fn fresh(s: PciModel) -> PciModel {
        s.renewed()
    }

    open spec fn seam_invariant() -> bool {
        true
    }

    open spec fn ready(s: PciModel) -> bool {
        true
    }

    proof fn lemma_ready(s: PciModel, data: Seq<u8>) {
    }

    open spec fn room(s: PciModel) -> Option<nat> {
        None
    }

    proof fn lemma_room(s: PciModel, data: Seq<u8>) {
    }

    proof fn lemma_boundary_in_view(s: PciModel, data: Seq<u8>) {
        lemma_first_cut_is_first(s, data);
    }

    proof fn lemma_advance_empty(s: PciModel) {
        lemma_consume_empty(s);
    }

    proof fn lemma_fresh(s: PciModel, data: Seq<u8>) {
        lemma_consume_renewed(s, data);
    }

    proof fn lemma_seam(s: PciModel, a: Seq<u8>, b: Seq<u8>) {
        lemma_consume_concat(s, a, b);
    }

    fn find_boundary(&mut self, data: &[u8]) -> (res: Option<usize>) {
        let ghost start = self.state();
        let mut i: usize = 0;
        while i < data.len()
            invariant
                i <= data.len(),
                self.inv(),
                start == old(self).state(),
                first_cut(start, data@.take(i as int)) is None,
                self.state() == run(start, data@.take(i as int)),
            decreases data.len() - i,
        {
            proof {
                lemma_scan_next(start, data@, i as int);
            }
            // Ingest the byte, updating the window and the running popcount.
            self.state.ingest_byte_update_popcount(data[i]);

            // The window sets a bound on the minimum chunk size.
            if self.state.is_window_full() {
                if self.state.running_popcount >= self.one_bits_threshold as u128 {
                    proof {
                        lemma_first_cut_prefix(start, data@, i + 1);
                    }
                    return Some(i);
                }
            }
            i += 1;
        }
        proof {
            assert(data@.take(i as int) =~= data@);
        }
        // No cut-point found within current data block.
        None
    }

    fn reset(&mut self) {
        self.state.reset()
    }
}

/// A chunker implementing the Parity Check of Interval (PCI) algorithm, with a window whose
/// size is given when the chunker is made.
///
/// It cuts where `PCIChunker` cuts with a window of the same size.
#[derive(Debug, Clone)]
pub struct PCIChunkerNonConst {
    one_bits_threshold: u32,
    state: PCIChunkerStateNonConst,
    window_size: usize,
}

#[derive(Debug, Clone, Default)]
struct PCIChunkerStateNonConst {
    /// The sliding window, the oldest byte first.
    window: VecDeque<u8>,
    /// The position since the last chunk boundary.
    pos: usize,
    /// The current popcount of the window.
    running_popcount: u128,
}

impl PCIChunkerStateNonConst {
    spec fn inv(&self) -> bool {
        self.running_popcount == ones(self.window@)
    }

    fn reset(&mut self, window_size: usize)
        ensures
            final(self).inv(),
            final(self).window@ == Seq::new(window_size as nat, |i: int| 0u8),
            final(self).pos == 0,
    {
        self.window.clear();

        let mut i: usize = 0;
        while i < window_size
            invariant
                i <= window_size,
                self.window@.len() == i,
                forall|j: int| 0 <= j < i ==> self.window@[j] == 0,
            decreases window_size - i,
        {
            self.window.push_back(0);
            i += 1;
        }
        self.pos = 0;
        self.running_popcount = 0;
        proof {
            lemma_ones_of_zeros(self.window@);
            assert(self.window@ =~= Seq::new(window_size as nat, |i: int| 0u8));
        }
    }

    fn ingest_byte(&mut self, b: u8) -> (popcount: u128)
        requires
            old(self).inv(),
            old(self).window@.len() <= usize::MAX,
        ensures
            final(self).inv(),
            final(self).window@ == slide(old(self).window@, b),
            final(self).pos == bump(old(self).pos as nat),
            popcount == ones(final(self).window@),
    {
        let ghost before = self.window@;
        if let Some(leaving) = self.window.pop_front() {
            proof {
                lemma_ones_slide(before, b);
                lemma_ones_bound(before.skip(1).push(b));
                lemma_popcount_bound(b);
                assert(self.window@ =~= before.skip(1));
            }
            self.running_popcount = self.running_popcount - leaving.count_ones() as u128;
            self.running_popcount = self.running_popcount + b.count_ones() as u128;
            self.window.push_back(b);
        }
        self.pos = self.pos.saturating_add(1);

        self.running_popcount
    }
}

impl PCIChunkerNonConst {
    /// Create a new chunker implementing the ParityCheck of Interval (PCI) algorithm.
    /// The parameter `one_bits_threshold` defines the inclusive threshold of one-bits within the
    /// sliding window.
    /// The `window_size` determines the size of the sliding window, in bytes.
    pub fn new(window_size: usize, one_bits_threshold: u32) -> (chunker: PCIChunkerNonConst)
        ensures
            chunker.inv(),
            is_fresh::<Self>(chunker.state()),
            chunker.state() == PciModel::initial(window_size as nat, one_bits_threshold),
    {
        let mut state = PCIChunkerStateNonConst {
            window: VecDeque::new(),
            pos: 0,
            running_popcount: 0,
        };
        state.reset(window_size);
        PCIChunkerNonConst { one_bits_threshold, state, window_size }
    }
}

impl ChunkerImpl for PCIChunkerNonConst {
    type State = PciModel;

    closed spec fn state(&self) -> PciModel {
        PciModel {
            window: self.state.window@,
            threshold: self.one_bits_threshold,
            pos: self.state.pos as nat,
        }
    }

    closed spec fn inv(&self) -> bool {
        self.state.inv() && self.state.window@.len() == self.window_size
    }

    open spec fn boundary(s: PciModel, data: Seq<u8>) -> Option<int> {
        first_cut(s, data)
    }

    open spec fn advance(s: PciModel, data: Seq<u8>) -> PciModel {
        consume(s, data)
    }

    open spec fn fresh(s: PciModel) -> PciModel {
        s.renewed()
    }

    open spec fn seam_invariant() -> bool {
        true
    }

    open spec fn ready(s: PciModel) -> bool {
        true
    }

    proof fn lemma_ready(s: PciModel, data: Seq<u8>) {
    }

    open spec fn room(s: PciModel) -> Option<nat> {
        None
    }

    proof fn lemma_room(s: PciModel, data: Seq<u8>) {
    }

    proof fn lemma_boundary_in_view(s: PciModel, data: Seq<u8>) {
        lemma_first_cut_is_first(s, data);
    }

    proof fn lemma_advance_empty(s: PciModel) {
        lemma_consume_empty(s);
    }

    proof fn lemma_fresh(s: PciModel, data: Seq<u8>) {
        lemma_consume_renewed(s, data);
    }

    proof fn lemma_seam(s: PciModel, a: Seq<u8>, b: Seq<u8>) {
        lemma_consume_concat(s, a, b);
    }

    fn find_boundary(&mut self, data: &[u8]) -> (res: Option<usize>) {
        let ghost start = self.state();
        let mut i: usize = 0;
        while i < data.len()
            invariant
                i <= data.len(),
                self.inv(),
                start == old(self).state(),
                first_cut(start, data@.take(i as int)) is None,
                self.state() == run(start, data@.take(i as int)),
            decreases data.len() - i,
        {
            proof {
                lemma_scan_next(start, data@, i as int);
            }
            let popcount = self.state.ingest_byte(data[i]);
            if self.state.pos >= self.window_size {
                if popcount >= self.one_bits_threshold as u128 {
                    proof {
                        lemma_first_cut_prefix(start, data@, i + 1);
                    }
                    return Some(i);
                }
            }
            i += 1;
        }
        proof {
            assert(data@.take(i as int) =~= data@);
        }
        None
    }

    fn reset(&mut self) {
        self.state.reset(self.window_size)
    }
}

} // verus!
