//! A rolling hash in the manner of ZPAQ.

use vstd::prelude::*;
use crate::bytewise::{
    consume, first_cut, lemma_consume_concat, lemma_consume_empty, lemma_consume_renewed,
    lemma_first_cut_is_first, lemma_first_cut_prefix, lemma_scan_next, run, ByteRule,
};
use crate::strategy::{is_fresh, ChunkerImpl};

verus! {

/// The multiplier for a byte that the order-1 table predicted.
pub const HM1: u32 = 314_159_265;

/// The multiplier for a byte that the order-1 table did not predict.
pub const HM2: u32 = 271_828_182;

/// ZPAQ-like chunking algorithm.
///
/// This works the way ZPAQ's fragmentation does, but with other constants and
/// sizes, and without limits on the chunk size: wrap it with `max_size` for
/// those.
pub struct ZPAQ {
    nbits: usize,
    /// The previous byte.
    c1: u8,
    o1: [u8; 256],
    h: u32,
}

/// The state of the ZPAQ-like rule.
pub struct ZpaqModel {
    /// 32 less the number of bits that the rule was made with.
    pub shift: nat,
    /// The previous byte, 0 at the start.
    pub c1: u8,
    /// For each byte, the byte that followed it last; 256 entries, 0 at the start.
    pub o1: Seq<u8>,
    /// The hash.
    pub h: u32,
}

/// The bound below which a hash ends the chunk.
pub open spec fn threshold(shift: nat) -> u64 {
    1u64 << (shift as u64)
}

/// The hash after byte `b`, where `h` was the hash before it and `expected`
/// says whether the order-1 table predicted `b`: the sum of `h`, `b` and 1,
/// times a multiplier that depends on `expected`, modulo 2 to the power of 32.
#[verifier::opaque]
pub open spec fn mix(h: u32, b: u8, expected: bool) -> u32 {
    let fed = h.wrapping_add((b as u32 + 1) as u32);
    if expected {
        HM1.wrapping_mul(fed)
    } else {
        HM2.wrapping_mul(fed)
    }
}

impl ByteRule for ZpaqModel {
    open spec fn step(self, b: u8) -> Self {
        ZpaqModel {
            shift: self.shift,
            c1: b,
            o1: self.o1.update(self.c1 as int, b),
            h: mix(self.h, b, b == self.o1[self.c1 as int]),
        }
    }

    open spec fn cuts(self, b: u8) -> bool {
        (mix(self.h, b, b == self.o1[self.c1 as int]) as u64) < threshold(self.shift)
    }

    open spec fn renewed(self) -> Self {
        ZpaqModel { shift: self.shift, c1: 0, o1: Seq::new(256, |i: int| 0u8), h: 0 }
    }

    proof fn lemma_renewed(self, b: u8) {
    }
}

impl ZPAQ {
    /// A chunker whose chunks have 2 to the power of `nbits` bytes on average.
    pub fn new(nbits: usize) -> (chunker: ZPAQ)
        requires
            nbits <= 32,
        ensures
            chunker.inv(),
            is_fresh::<Self>(chunker.state()),
            chunker.state() == (ZpaqModel {
                shift: (32 - nbits) as nat,
                c1: 0,
                o1: Seq::new(256, |i: int| 0u8),
                h: 0,
            }),
    {
        let chunker = ZPAQ { nbits: 32 - nbits, c1: 0, o1: [0; 256], h: 0 };
        proof {
            assert(chunker.o1@ =~= Seq::new(256, |i: int| 0u8));
        }
        chunker
    }

    /// Takes in one byte, and says whether the chunk ends with it.
    pub fn update(&mut self, byte: u8) -> (cut: bool)
        requires
            old(self).inv(),
        ensures
            final(self).inv(),
            final(self).state() == old(self).state().step(byte),
            cut == old(self).state().cuts(byte),
    {
        reveal(mix);
        if byte == self.o1[self.c1 as usize] {
            self.h = HM1.wrapping_mul(self.h.wrapping_add(byte as u32 + 1));
        } else {
            self.h = HM2.wrapping_mul(self.h.wrapping_add(byte as u32 + 1));
        }
        self.o1[self.c1 as usize] = byte;
        self.c1 = byte;

        (self.h as u64) < (1u64 << (self.nbits as u64))
    }
}

impl ChunkerImpl for ZPAQ {
    type State = ZpaqModel;

    closed spec fn state(&self) -> ZpaqModel {
        ZpaqModel { shift: self.nbits as nat, c1: self.c1, o1: self.o1@, h: self.h }
    }

    closed spec fn inv(&self) -> bool {
        self.nbits <= 32
    }

    open spec fn boundary(s: ZpaqModel, data: Seq<u8>) -> Option<int> {
        first_cut(s, data)
    }

    open spec fn advance(s: ZpaqModel, data: Seq<u8>) -> ZpaqModel {
        consume(s, data)
    }

    open spec fn fresh(s: ZpaqModel) -> ZpaqModel {
        s.renewed()
    }

    open spec fn seam_invariant() -> bool {
        true
    }

    open spec fn ready(s: ZpaqModel) -> bool {
        true
    }

    proof fn lemma_ready(s: ZpaqModel, data: Seq<u8>) {
    }

    open spec fn room(s: ZpaqModel) -> Option<nat> {
        None
    }

    proof fn lemma_room(s: ZpaqModel, data: Seq<u8>) {
    }

    proof fn lemma_boundary_in_view(s: ZpaqModel, data: Seq<u8>) {
        lemma_first_cut_is_first(s, data);
    }

    proof fn lemma_advance_empty(s: ZpaqModel) {
        lemma_consume_empty(s);
    }

    proof fn lemma_fresh(s: ZpaqModel, data: Seq<u8>) {
        lemma_consume_renewed(s, data);
    }

    proof fn lemma_seam(s: ZpaqModel, a: Seq<u8>, b: Seq<u8>) {
        lemma_consume_concat(s, a, b);
    }

    fn find_boundary(&mut self, data: &[u8]) -> (res: Option<usize>) {
        let ghost start = self.state();
        let mut pos: usize = 0;
        while pos < data.len()
            invariant
                pos <= data.len(),
                self.inv(),
                start == old(self).state(),
                first_cut(start, data@.take(pos as int)) is None,
                self.state() == run(start, data@.take(pos as int)),
            decreases data.len() - pos,
        {
            proof {
                lemma_scan_next(start, data@, pos as int);
            }
            if self.update(data[pos]) {
                proof {
                    lemma_first_cut_prefix(start, data@, pos + 1);
                }
                return Some(pos);
            }
            pos += 1;
        }
        proof {
            assert(data@.take(pos as int) =~= data@);
        }
        None
    }

    fn reset(&mut self) {
        self.c1 = 0u8;
        self.o1 = [0u8; 256];
        self.h = 0;
        proof {
            assert(self.o1@ =~= Seq::new(256, |i: int| 0u8));
        }
    }
}

} // verus!
