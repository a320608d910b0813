//! A limit on the size of chunks, around any strategy.

use vstd::prelude::*;
use vstd::slice::slice_subrange;
use crate::strategy::{chunking, is_fresh, ChunkerImpl};

verus! {

/// A strategy that cuts where `inner` cuts, and after `max_size` bytes where
/// `inner` has not cut by then.
///
/// The inner strategy is reset with every boundary, also with one that the
/// limit forced: a boundary that the inner strategy would have found later,
/// had it gone on, may not come.
pub struct SizeLimited<I: ChunkerImpl> {
    inner: I,
    pos: usize,
    max_size: usize,
}

/// The state of a size-limited strategy.
pub struct LimitedModel<S> {
    /// The state of the inner strategy.
    pub inner: S,
    /// The number of bytes seen since the last reset.
    pub pos: nat,
    /// The largest number of bytes in a chunk.
    pub max_size: nat,
}

impl<S> LimitedModel<S> {
    /// How many of the next bytes the chunk may still take. In a state at its
    /// limit, in which no scan starts, this is the next byte alone.
    pub open spec fn left(self) -> int {
        if self.pos < self.max_size {
            self.max_size - self.pos
        } else {
            1
        }
    }

    /// The part of `data` that the inner strategy is shown.
    pub open spec fn shown(self, data: Seq<u8>) -> Seq<u8> {
        if data.len() > self.left() {
            data.take(self.left())
        } else {
            data
        }
    }

    /// The number of bytes seen, after `count` more were seen.
    pub open spec fn counted(self, count: int) -> nat {
        if self.pos < self.max_size {
            (self.pos + count) as nat
        } else {
            self.pos
        }
    }
}

impl<I: ChunkerImpl> SizeLimited<I> {
    /// Limits the chunks of `inner` to `max_size` bytes.
    pub(crate) fn new(inner: I, max_size: usize) -> (limited: Self)
        requires
            inner.inv(),
            max_size > 0,
        ensures
            limited.inv(),
            limited.state() == (LimitedModel {
                inner: inner.state(),
                pos: 0,
                max_size: max_size as nat,
            }),
            is_fresh::<I>(inner.state()) ==> is_fresh::<Self>(limited.state()),
            I::ready(inner.state()) ==> Self::ready(limited.state()),
    {
        SizeLimited { inner, pos: 0, max_size }
    }
}

impl<I: ChunkerImpl> ChunkerImpl for SizeLimited<I> {
    type State = LimitedModel<I::State>;

    closed spec fn state(&self) -> LimitedModel<I::State> {
        LimitedModel {
            inner: self.inner.state(),
            pos: self.pos as nat,
            max_size: self.max_size as nat,
        }
    }

    closed spec fn inv(&self) -> bool {
        &&& self.inner.inv()
        &&& 0 < self.max_size
        &&& self.pos <= self.max_size
    }

    /// The boundary of the inner strategy within the bytes that the chunk
    /// may still take, or else the last of those bytes, where the view holds it.
    open spec fn boundary(s: LimitedModel<I::State>, data: Seq<u8>) -> Option<int> {
        if data.len() == 0 {
            None
        } else {
            match I::boundary(s.inner, s.shown(data)) {
                Some(p) => Some(p),
                None => if data.len() >= s.left() {
                    Some(s.left() - 1)
                } else {
                    None
                },
            }
        }
    }

    open spec fn advance(s: LimitedModel<I::State>, data: Seq<u8>) -> LimitedModel<I::State> {
        if data.len() == 0 {
            s
        } else {
            LimitedModel {
                inner: I::advance(s.inner, s.shown(data)),
                pos: match I::boundary(s.inner, s.shown(data)) {
                    Some(p) => s.counted(p + 1),
                    None => s.counted(s.shown(data).len() as int),
                },
                max_size: s.max_size,
            }
        }
    }

    open spec fn fresh(s: LimitedModel<I::State>) -> LimitedModel<I::State> {
        LimitedModel { inner: I::fresh(s.inner), pos: 0, max_size: s.max_size }
    }

    open spec fn seam_invariant() -> bool {
        I::seam_invariant()
    }

    /// A scan may start while the chunk may still take a byte and the inner
    /// strategy is ready.
    open spec fn ready(s: LimitedModel<I::State>) -> bool {
        s.pos < s.max_size && I::ready(s.inner)
    }

    proof fn lemma_ready(s: LimitedModel<I::State>, data: Seq<u8>) {
        I::lemma_ready(s.inner, s.shown(data));
    }

    /// The bytes up to the limit.
    open spec fn room(s: LimitedModel<I::State>) -> Option<nat> {
        Some(s.left() as nat)
    }

    proof fn lemma_room(s: LimitedModel<I::State>, data: Seq<u8>) {
        I::lemma_boundary_in_view(s.inner, s.shown(data));
    }

    proof fn lemma_boundary_in_view(s: LimitedModel<I::State>, data: Seq<u8>) {
        I::lemma_boundary_in_view(s.inner, s.shown(data));
    }

    proof fn lemma_advance_empty(s: LimitedModel<I::State>) {
    }

    proof fn lemma_fresh(s: LimitedModel<I::State>, data: Seq<u8>) {
        I::lemma_fresh(s.inner, s.shown(data));
    }

    proof fn lemma_seam(s: LimitedModel<I::State>, a: Seq<u8>, b: Seq<u8>) {
        let left = s.left();
        if a.len() == 0 {
            assert(a + b =~= b);
        } else if b.len() == 0 {
            assert(a + b =~= a);
        } else if a.len() >= left {
            assert(s.shown(a + b) =~= s.shown(a));
            I::lemma_boundary_in_view(s.inner, s.shown(a));
        } else {
            let s1 = Self::advance(s, a);
            assert(s.shown(a) == a);
            I::lemma_boundary_in_view(s.inner, a);
            match I::boundary(s.inner, a) {
                Some(p) => {
                    assert(s1.left() >= 1);
                    let extra = s.shown(a + b).skip(a.len() as int);
                    assert(s.shown(a + b) =~= a + extra);
                    I::lemma_seam(s.inner, a, extra);
                },
                None => {
                    assert(s1.left() == left - a.len());
                    assert(s.shown(a + b) =~= a + s1.shown(b));
                    I::lemma_seam(s.inner, a, s1.shown(b));
                    I::lemma_boundary_in_view(s1.inner, s1.shown(b));
                },
            }
        }
    }

    fn find_boundary(&mut self, data: &[u8]) -> (res: Option<usize>) {
        if data.len() == 0 {
            return None;
        }
        let left: usize = self.max_size - self.pos;
        let slice = if data.len() > left {
            slice_subrange(data, 0, left)
        } else {
            data
        };
        proof {
            assert(slice@ =~= self.state().shown(data@));
            I::lemma_boundary_in_view(self.inner.state(), slice@);
        }
        match self.inner.find_boundary(slice) {
            Some(p) => {
                self.pos += p + 1;
                Some(p)
            },
            None => {
                self.pos += slice.len();
                if data.len() >= left {
                    Some(left - 1)
                } else {
                    None
                }
            },
        }
    }

    fn reset(&mut self) {
        self.pos = 0;
        self.inner.reset();
    }
}

/// With a size limit, the first chunk holds no more bytes than the chunk may
/// still take, and no other chunk holds more than `max_size` bytes.
pub proof fn lemma_limited_chunk_sizes<I: ChunkerImpl>(
    s: LimitedModel<I::State>,
    input: Seq<u8>,
    i: int,
)
    requires
        0 < s.max_size,
        0 <= i < chunking::<SizeLimited<I>>(s, input).len(),
    ensures
        chunking::<SizeLimited<I>>(s, input)[i].len() <= if i == 0 {
            s.left()
        } else {
            s.max_size as int
        },
    decreases input.len(),
{
    if input.len() > 0 {
        let cut = SizeLimited::<I>::boundary(s, input);
        I::lemma_boundary_in_view(s.inner, s.shown(input));
        if cut is Some && 0 <= cut->0 < input.len() {
            if i > 0 {
                let next = SizeLimited::<I>::fresh(s);
                lemma_limited_chunk_sizes::<I>(next, input.skip(cut->0 + 1), i - 1);
            }
        }
    }
}

} // verus!
