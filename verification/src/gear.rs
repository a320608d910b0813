//! The Gear rolling hash, plain and with normalized chunking.

use vstd::prelude::*;
use crate::bytewise::{
    consume, first_cut, lemma_consume_concat, lemma_consume_empty, lemma_consume_renewed,
    lemma_first_cut_is_first, lemma_first_cut_prefix, lemma_scan_next, run, ByteRule,
};
use crate::strategy::{bump, is_fresh, ChunkerImpl};

verus! {

/// 256 random 32-bit values, one for each byte.
pub const TABLE: [u32; 256] = [
    0xd3eb979d, 0xd6d83960, 0x3cd24090, 0x702e952e, 0x50c47f4a, 0xdb56d7b6, 0x1470b666, 0x917d698c,
    0x4b222ddb, 0x9e61352d, 0xb1bb53ca, 0x73e47b3b, 0x48bc9c75, 0xcd61fb37, 0x3f3b76ab, 0x4e703f12,
    0x8192bf76, 0x3b4bcfbf, 0xb1096934, 0x6dcd3b70, 0x3b62b5e9, 0xa3a3fd75, 0x3f4a0b40, 0x104f764c,
    0x3aa01a20, 0xa0f97902, 0x54d5407a, 0x1de7011a, 0xd17e58a1, 0x6705c00a, 0x26ada853, 0xfdfd5ed4,
    0x867d636f, 0x0a56b662, 0xe9cb1ee2, 0xe472c33a, 0x1a06c290, 0x73d90737, 0xa1885d47, 0x6b593527,
    0xd77ca484, 0xfd43ca59, 0xf6798265, 0x8473ce32, 0x1dfa57af, 0xa7a7f764, 0x034199bf, 0xd92df7c0,
    0xc336657d, 0xb1d3cece, 0x28000293, 0x0c665d67, 0x19b6e719, 0x0b248029, 0xabf92644, 0x528ef61c,
    0x90cc63dc, 0x41b9ddca, 0x6608ac26, 0xccedfa3e, 0x58428c9c, 0xc611c58b, 0xb45fe506, 0x47e8e9ab,
    0x9395f52a, 0x0b92fd50, 0x486bc906, 0x7c50e4b7, 0x74eefe1b, 0xf7a390f7, 0x759ce338, 0x8adcb273,
    0x4aff20df, 0x1b8a1de9, 0xfe5bc7f1, 0x0d9289df, 0x722989a7, 0x15a2b030, 0x808d6900, 0x37d16afd,
    0xe859a17d, 0x65e3a83a, 0x7f5231e4, 0xa8caf398, 0x5749d956, 0xa8b5edde, 0xc3f90d02, 0x8b5ab74e,
    0x115b85ba, 0x57a81d60, 0xc571ffd0, 0xa7b52ed0, 0x0de8ed32, 0xfdd83d5a, 0x53a853b2, 0x1275193f,
    0xceec15c6, 0xb348f31d, 0x5d91f26b, 0xfc4b8c3b, 0x3cc2c8d9, 0x2b613d1e, 0xb6e587eb, 0xb3e81eee,
    0x444af107, 0x06586733, 0x98147a42, 0xf1f0c4ba, 0x7d95c1f0, 0x050bd680, 0xc9f2f924, 0xe1279f28,
    0x73d9e2b2, 0xdbd34e1e, 0xaf520344, 0xdc99a1cb, 0xfd68fbcf, 0x9be753b0, 0x0d4c09d5, 0xbba7712f,
    0xca358455, 0xf50f43db, 0xbb069de7, 0xdc200aba, 0x6080521f, 0x4fd6ed4e, 0xacaa0eed, 0x6ab677a1,
    0xc26028f9, 0x6bba9c53, 0x5ce949d4, 0x21711186, 0xdc7aa7bb, 0x9845db08, 0x726bd0e0, 0xd73b6b0e,
    0x87615762, 0xbc61f58f, 0x99589c58, 0x7924edec, 0x0a9148d0, 0x0122f447, 0x1511018d, 0x95f2baa6,
    0xd94bef95, 0x8feb8737, 0x41e83af9, 0x67fed3af, 0xc195482e, 0xab54854a, 0x26645909, 0x66454394,
    0x016225a5, 0x96adc68b, 0x6a6eb020, 0x967a1788, 0xcc314db9, 0x4d27dd83, 0x0abffdca, 0x5dacf213,
    0x7d6d2126, 0x854090d4, 0x3f8dcb4f, 0xc3e23d4e, 0xd99303ae, 0x37ac2ffd, 0x4e14f338, 0x9305c22d,
    0xcebe04f9, 0xde0b5a05, 0x0bb4274f, 0x24ae495d, 0xfe4e59bd, 0x1d18166e, 0xd346dd0d, 0xbde388d9,
    0x5f18a658, 0xcf1ef53f, 0xe2b8ab87, 0x9e97a024, 0xda9c7313, 0x3319d136, 0x1961fb76, 0x261853d7,
    0x8e605cd6, 0x583cac11, 0x6a449a3f, 0xf39dd03a, 0x35a4007b, 0x6e752d1a, 0xe048f028, 0x31c256ab,
    0x93bb9d77, 0x14bb5521, 0x80d5ebf4, 0x68422ba7, 0x9f226cf1, 0xc0a82467, 0xa45b8002, 0x5e512680,
    0xfa57dd1c, 0x8083f360, 0xea8d15fa, 0x83ad9409, 0x881e0cc1, 0x8d4aa576, 0x53ef83c1, 0x160b1560,
    0x8d8ed76a, 0x39319339, 0xbe0e9994, 0xcf52f560, 0x15a2a853, 0x09f6d3ff, 0xbc8920a7, 0xd6c92114,
    0xd9f3360f, 0xe4f3f680, 0x12730d34, 0xcf104091, 0x21124198, 0x7ae8cada, 0xb194894d, 0xa58b3219,
    0x8a2f692d, 0x27549dd9, 0x97055806, 0x80e3f331, 0xe23a2323, 0x3e7eafc7, 0x0de30268, 0xe8ef2539,
    0xe8ba3247, 0x1866f211, 0xf7502a7b, 0x16633364, 0x5d10629c, 0xbd245d16, 0x713eac0d, 0xb6cd9109,
    0x401a19f1, 0x8714069d, 0xe50f2f08, 0x7b209708, 0x08951d28, 0x2fa47147, 0x3aa8b7db, 0x7f7bf5ac,
    0x8c493103, 0x85d3c670, 0xc3c70275, 0x7dbc72d6, 0x060a9752, 0x6e37c74e, 0xf773837f, 0xac8702b4,
];

/// The Gear hash after byte `b`, where `hash` was the hash before it: `hash`
/// shifted left by one bit, plus the table's value for `b`, modulo 2 to the
/// power of 32.
pub open spec fn gear_mix(hash: u32, b: u8) -> u32 {
    (hash << 1).wrapping_add(TABLE[b as int])
}

/// A hasher that implements the Gear algorithm.
///
/// This algorithm uses a table with a 32-bit value for each byte, which it
/// mixes into the hash for each input byte.
///
/// Source: Xia, Wen, et al. "Ddelta: A deduplication-inspired fast delta compression approach."
/// Performance Evaluation 79 (2014): 258-272.
#[derive(Debug, Clone)]
pub struct GearChunker {
    mask: u32,
    state: GearState,
}

#[derive(Clone, Copy, Debug, Default)]
pub(crate) struct GearState {
    pub(crate) hash: u32,
    pub(crate) pos: usize,
}

impl GearState {
    pub(crate) fn reset(&mut self)
        ensures
            final(self).hash == 0,
            final(self).pos == 0,
    {
        self.hash = 0;
        self.pos = 0
    }

    pub(crate) fn ingest(&mut self, b: u8)
        ensures
            final(self).hash == gear_mix(old(self).hash, b),
            final(self).pos == bump(old(self).pos as nat),
    {
        self.hash = (self.hash << 1).wrapping_add(TABLE[b as usize]);
        self.pos = self.pos.saturating_add(1);
    }

    pub(crate) fn check_hash(&self, mask: u32) -> (clear: bool)
        ensures
            clear == (self.hash & mask == 0),
    {
        self.hash & mask == 0
    }
}

/// The state of the Gear rule.
pub struct GearModel {
    /// The bits of the hash that must be clear at a boundary.
    pub mask: u32,
    /// The hash.
    pub hash: u32,
    /// The number of bytes seen since the last reset, up to the largest `usize`.
    pub pos: nat,
}

impl ByteRule for GearModel {
    open spec fn step(self, b: u8) -> Self {
        GearModel { mask: self.mask, hash: gear_mix(self.hash, b), pos: bump(self.pos) }
    }

    open spec fn cuts(self, b: u8) -> bool {
        gear_mix(self.hash, b) & self.mask == 0
    }

    open spec fn renewed(self) -> Self {
        GearModel { mask: self.mask, hash: 0, pos: 0 }
    }

    proof fn lemma_renewed(self, b: u8) {
    }
}

impl GearChunker {
    /// Creates a new Gear hasher.
    /// The mask should have log2(target_chunk_size) most-significant 1-bits set.
    pub fn new(mask: u32) -> (chunker: GearChunker)
        ensures
            chunker.inv(),
            is_fresh::<Self>(chunker.state()),
            chunker.state() == (GearModel { mask, hash: 0, pos: 0 }),
    {
        GearChunker { mask, state: GearState { hash: 0, pos: 0 } }
    }
}

impl ChunkerImpl for GearChunker {
    type State = GearModel;

    closed spec fn state(&self) -> GearModel {
        GearModel { mask: self.mask, hash: self.state.hash, pos: self.state.pos as nat }
    }

    closed spec fn inv(&self) -> bool {
        true
    }

    open spec fn boundary(s: GearModel, data: Seq<u8>) -> Option<int> {
        first_cut(s, data)
    }

    open spec fn advance(s: GearModel, data: Seq<u8>) -> GearModel {
        consume(s, data)
    }

    open spec fn fresh(s: GearModel) -> GearModel {
        s.renewed()
    }

    open spec fn seam_invariant() -> bool {
        true
    }

    open spec fn ready(s: GearModel) -> bool {
        true
    }

    proof fn lemma_ready(s: GearModel, data: Seq<u8>) {
    }

    open spec fn room(s: GearModel) -> Option<nat> {
        None
    }

    proof fn lemma_room(s: GearModel, data: Seq<u8>) {
    }

    proof fn lemma_boundary_in_view(s: GearModel, data: Seq<u8>) {
        lemma_first_cut_is_first(s, data);
    }

    proof fn lemma_advance_empty(s: GearModel) {
        lemma_consume_empty(s);
    }

    proof fn lemma_fresh(s: GearModel, data: Seq<u8>) {
        lemma_consume_renewed(s, data);
    }

    proof fn lemma_seam(s: GearModel, a: Seq<u8>, b: Seq<u8>) {
        lemma_consume_concat(s, a, b);
    }

    fn find_boundary(&mut self, data: &[u8]) -> (res: Option<usize>) {
        let ghost start = self.state();
        let mut i: usize = 0;
        while i < data.len()
            invariant
                i <= data.len(),
                start == old(self).state(),
                first_cut(start, data@.take(i as int)) is None,
                self.state() == run(start, data@.take(i as int)),
            decreases data.len() - i,
        {
            proof {
                lemma_scan_next(start, data@, i as int);
            }
            self.state.ingest(data[i]);

            if self.state.check_hash(self.mask) {
                proof {
                    lemma_first_cut_prefix(start, data@, i + 1);
                }
                return Some(i);
            }
            i += 1;
        }
        proof {
            assert(data@.take(i as int) =~= data@);
        }
        None
    }

    fn reset(&mut self) {
        self.state.reset()
    }
}

/// A hasher that implements the Gear algorithm with normalized chunking modifications.
///
/// Two bit masks are used to find chunk boundaries: up to the target chunk
/// size the lower mask, which has more 1-bits, and beyond it the upper mask,
/// which has fewer. This reduces the variability of the chunk sizes.
///
/// Source for the normalized chunking modifications: Xia, Wen, et al. "FastCDC: A fast and
/// efficient content-defined chunking approach for data deduplication." 2016 USENIX Annual
/// Technical Conference (USENIX ATC 16). 2016.
#[derive(Debug, Clone)]
pub struct NormalizedChunkingGearChunker {
    lower_mask: u32,
    upper_mask: u32,
    target_chunk_size: usize,
    state: GearState,
}

/// The state of the Gear rule with normalized chunking.
pub struct NormalizedGearModel {
    /// The mask for chunks up to the target size.
    pub lower_mask: u32,
    /// The mask for chunks beyond the target size.
    pub upper_mask: u32,
    /// The target size.
    pub target_chunk_size: nat,
    /// The hash.
    pub hash: u32,
    /// The number of bytes seen since the last reset, up to the largest `usize`.
    pub pos: nat,
}

impl NormalizedGearModel {
    /// The mask for a byte that is seen in this state.
    pub open spec fn mask(self) -> u32 {
        if bump(self.pos) <= self.target_chunk_size {
            self.lower_mask
        } else {
            self.upper_mask
        }
    }
}

impl ByteRule for NormalizedGearModel {
    open spec fn step(self, b: u8) -> Self {
        NormalizedGearModel { hash: gear_mix(self.hash, b), pos: bump(self.pos), ..self }
    }

    open spec fn cuts(self, b: u8) -> bool {
        gear_mix(self.hash, b) & self.mask() == 0
    }

    open spec fn renewed(self) -> Self {
        NormalizedGearModel { hash: 0, pos: 0, ..self }
    }

    proof fn lemma_renewed(self, b: u8) {
    }
}

impl NormalizedChunkingGearChunker {
    /// Creates a new Gear hasher.
    /// The masks should have a number most-significant 1-bits set.
    /// The lower mask is the larger one, applied until target_chunk_size is reached.
    /// Afterwards, the smaller upper_mask is applied.
    pub fn new(lower_mask: u32, upper_mask: u32, target_chunk_size: usize) -> (chunker:
        NormalizedChunkingGearChunker)
        ensures
            chunker.inv(),
            is_fresh::<Self>(chunker.state()),
            chunker.state() == (NormalizedGearModel {
                lower_mask,
                upper_mask,
                target_chunk_size: target_chunk_size as nat,
                hash: 0,
                pos: 0,
            }),
    {
        NormalizedChunkingGearChunker {
            lower_mask,
            upper_mask,
            target_chunk_size,
            state: GearState { hash: 0, pos: 0 },
        }
    }
}

impl ChunkerImpl for NormalizedChunkingGearChunker {
    type State = NormalizedGearModel;

    closed spec fn state(&self) -> NormalizedGearModel {
        NormalizedGearModel {
            lower_mask: self.lower_mask,
            upper_mask: self.upper_mask,
            target_chunk_size: self.target_chunk_size as nat,
            hash: self.state.hash,
            pos: self.state.pos as nat,
        }
    }

    closed spec fn inv(&self) -> bool {
        true
    }

    open spec fn boundary(s: NormalizedGearModel, data: Seq<u8>) -> Option<int> {
        first_cut(s, data)
    }

    open spec fn advance(s: NormalizedGearModel, data: Seq<u8>) -> NormalizedGearModel {
        consume(s, data)
    }

    open spec fn fresh(s: NormalizedGearModel) -> NormalizedGearModel {
        s.renewed()
    }

    open spec fn seam_invariant() -> bool {
        true
    }

    open spec fn ready(s: NormalizedGearModel) -> bool {
        true
    }

    proof fn lemma_ready(s: NormalizedGearModel, data: Seq<u8>) {
    }

    open spec fn room(s: NormalizedGearModel) -> Option<nat> {
        None
    }

    proof fn lemma_room(s: NormalizedGearModel, data: Seq<u8>) {
    }

    proof fn lemma_boundary_in_view(s: NormalizedGearModel, data: Seq<u8>) {
        lemma_first_cut_is_first(s, data);
    }

    proof fn lemma_advance_empty(s: NormalizedGearModel) {
        lemma_consume_empty(s);
    }

    proof fn lemma_fresh(s: NormalizedGearModel, data: Seq<u8>) {
        lemma_consume_renewed(s, data);
    }

    proof fn lemma_seam(s: NormalizedGearModel, a: Seq<u8>, b: Seq<u8>) {
        lemma_consume_concat(s, a, b);
    }

    fn find_boundary(&mut self, data: &[u8]) -> (res: Option<usize>) {
        let ghost start = self.state();
        let mut i: usize = 0;
        while i < data.len()
            invariant
                i <= data.len(),
                start == old(self).state(),
                first_cut(start, data@.take(i as int)) is None,
                self.state() == run(start, data@.take(i as int)),
            decreases data.len() - i,
        {
            proof {
                lemma_scan_next(start, data@, i as int);
            }
            self.state.ingest(data[i]);

            let mask: u32 = if self.state.pos <= self.target_chunk_size {
                self.lower_mask
            } else {
                self.upper_mask
            };

            if self.state.check_hash(mask) {
                proof {
                    lemma_first_cut_prefix(start, data@, i + 1);
                }
                return Some(i);
            }
            i += 1;
        }
        proof {
            assert(data@.take(i as int) =~= data@);
        }
        None
    }

    fn reset(&mut self) {
        self.state.reset()
    }
}

} // verus!
