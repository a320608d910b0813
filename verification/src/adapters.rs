//! Ways of consuming the chunks: whole chunks in vectors, chunk descriptors,
//! and slices of a buffer in memory.

use vstd::prelude::*;
use vstd::slice::slice_subrange;
use crate::reader::Reader;
use crate::strategy::{chunking, joined, ChunkerImpl};
use crate::stream::{
    bytes_of, closed_chunks, failed_last_only, lemma_bytes_of_chunks,
    lemma_closed_chunks_nonempty, lemma_push_data, lemma_push_end, open_chunk, ChunkInput,
    ChunkStream, Event,
};

verus! {

/// The bytes that were read and those that are still to come are, together,
/// what they were before the bytes last taken were read.
pub proof fn lemma_taken_and_left(before: Seq<u8>, after: Seq<u8>, source: Option<Seq<u8>>)
    requires
        before.is_prefix_of(after),
    ensures
        source matches Some(rest) ==> {
            let fed = after.skip(before.len() as int);
            fed.len() <= rest.len() && fed == rest.take(fed.len() as int) ==> after + rest.skip(
                fed.len() as int,
            ) == before + rest
        },
{
    match source {
        Some(rest) => {
            let fed = after.skip(before.len() as int);
            if fed.len() <= rest.len() && fed == rest.take(fed.len() as int) {
                assert(after =~= before + fed);
                assert(after + rest.skip(fed.len() as int) =~= before + rest);
            }
        },
        None => {},
    }
}

/// One more event of the stream, with at most one more read, after reads
/// that did not fail since the answers `first`: no read but the last has
/// failed since.
pub proof fn lemma_one_more_answer<E>(
    first: Seq<Result<usize, E>>,
    before: Seq<Result<usize, E>>,
    after: Seq<Result<usize, E>>,
)
    requires
        first.is_prefix_of(before),
        before.is_prefix_of(after),
        after.len() <= before.len() + 1,
        forall|i: int| first.len() <= i < before.len() ==> (#[trigger] before[i]) is Ok,
    ensures
        first.is_prefix_of(after),
        failed_last_only(after, first.len() as int),
        after.len() == before.len() ==> after == before,
        after.len() > first.len() && after.last() is Ok ==> forall|i: int|
            first.len() <= i < after.len() ==> (#[trigger] after[i]) is Ok,
{
    assert forall|i: int| first.len() <= i < after.len() - 1 implies (#[trigger] after[i]) is Ok by {
        assert(after[i] == before[i]);
    }
    if after.len() == before.len() {
        assert(after =~= before);
    }
}

/// After reads that did not fail, further reads of which none but the last
/// has failed: of all reads none but the last has failed, and none has where
/// the last has not.
pub proof fn lemma_answers_so_far<E>(before: Seq<Result<usize, E>>, after: Seq<Result<usize, E>>)
    requires
        before.is_prefix_of(after),
        forall|i: int| 0 <= i < before.len() ==> (#[trigger] before[i]) is Ok,
        failed_last_only(after, before.len() as int),
    ensures
        failed_last_only(after, 0),
        after.len() == before.len() || after.last() is Ok ==> forall|i: int|
            0 <= i < after.len() ==> (#[trigger] after[i]) is Ok,
{
    assert forall|i: int| 0 <= i < after.len() - 1 implies (#[trigger] after[i]) is Ok by {
        if i < before.len() {
            assert(after[i] == before[i]);
        }
    }
    if after.len() == before.len() && after.len() > 0 {
        assert(after.last() == before.last());
    }
}

/// Iterates on whole chunks, each read into a vector of its own.
pub struct WholeChunks<R: Reader, I: ChunkerImpl> {
    stream: ChunkStream<R, I>,
    buffer: Vec<u8>,
}

impl<R: Reader, I: ChunkerImpl> WholeChunks<R, I> {
    /// The stream that the chunks are gathered from.
    pub closed spec fn stream(&self) -> ChunkStream<R, I> {
        self.stream
    }

    /// The invariant: the bytes gathered are those of the open chunk.
    pub closed spec fn wf(&self) -> bool {
        &&& self.stream.wf()
        &&& self.buffer@ == open_chunk(self.stream.events())
    }

    /// The stream of a sound iterator is sound.
    pub proof fn lemma_wf(self)
        requires
            self.wf(),
        ensures
            self.stream().wf(),
    {
    }

    /// Gathers whole chunks from `stream`, which has emitted nothing yet.
    pub(crate) fn new(stream: ChunkStream<R, I>) -> (chunks: Self)
        requires
            stream.wf(),
            stream.events() == Seq::<Event>::empty(),
        ensures
            chunks.wf(),
            chunks.stream() == stream,
    {
        WholeChunks { stream, buffer: Vec::new() }
    }

    /// The next chunk: the data that the stream emits up to its next `End`.
    /// `None` when the stream has ended. An error of the reader is handed on;
    /// the data gathered so far stays for the next call.
    pub fn next(&mut self) -> (res: Option<Result<Vec<u8>, R::Error>>)
        requires
            old(self).wf(),
        ensures
            final(self).wf(),
            final(self).stream().origin() == old(self).stream().origin(),
            old(self).stream().input().is_prefix_of(final(self).stream().input()),
            old(self).stream().events().is_prefix_of(final(self).stream().events()),
            ({
                let before = old(self).stream().answers();
                let after = final(self).stream().answers();
                &&& before.is_prefix_of(after)
                &&& failed_last_only(after, before.len() as int)
                &&& res matches Some(Err(e)) ==> after.len() > before.len() && after.last()
                    == Err::<usize, R::Error>(e)
                &&& after.len() > before.len() && after.last() is Err ==> res matches Some(Err(_))
            }),
            old(self).stream().source() matches Some(rest) ==> {
                &&& !(res matches Some(Err(_)))
                &&& final(self).stream().source() matches Some(left)
                &&& final(self).stream().input() + left == old(self).stream().input() + rest
            },
            match res {
                Some(Ok(chunk)) => {
                    &&& chunk@.len() > 0
                    &&& final(self).stream().events().last() is End
                    &&& closed_chunks(final(self).stream().events()) == closed_chunks(
                        old(self).stream().events(),
                    ).push(chunk@)
                },
                Some(Err(_)) => {
                    closed_chunks(final(self).stream().events()) == closed_chunks(
                        old(self).stream().events(),
                    )
                },
                None => {
                    &&& final(self).stream().events() == old(self).stream().events()
                    &&& open_chunk(final(self).stream().events()).len() == 0
                    &&& final(self).stream().pending().len() == 0
                    &&& final(self).stream().ended()
                },
            },
    {
        let ghost first = self.stream.events();
        loop
            invariant
                self.wf(),
                old(self).wf(),
                first == old(self).stream.events(),
                self.stream.origin() == old(self).stream.origin(),
                old(self).stream.input().is_prefix_of(self.stream.input()),
                first.is_prefix_of(self.stream.events()),
                closed_chunks(self.stream.events()) == closed_chunks(first),
                self.stream.status() is End ==> self.stream.events() == first,
                old(self).stream.source() matches Some(rest) ==> {
                    &&& self.stream.source() matches Some(left)
                    &&& self.stream.input() + left == old(self).stream.input() + rest
                },
                old(self).stream.answers().is_prefix_of(self.stream.answers()),
                forall|i: int|
                    old(self).stream.answers().len() <= i < self.stream.answers().len() ==> (
                    #[trigger] self.stream.answers()[i]) is Ok,
            decreases usize::MAX - self.buffer.len(),
        {
            let ghost before = self.stream.events();
            let ghost input = self.stream.input();
            let ghost source = self.stream.source();
            let ghost answers = self.stream.answers();
            proof {
                self.stream.lemma_wf();
            }
            match self.stream.read() {
                None => {
                    proof {
                        self.stream.lemma_wf();
                        lemma_taken_and_left(input, self.stream.input(), source);
                        lemma_one_more_answer(
                            old(self).stream.answers(),
                            answers,
                            self.stream.answers(),
                        );
                    }
                    return None;
                },
                Some(Err(e)) => {
                    proof {
                        lemma_taken_and_left(input, self.stream.input(), source);
                        lemma_one_more_answer(
                            old(self).stream.answers(),
                            answers,
                            self.stream.answers(),
                        );
                    }
                    return Some(Err(e));
                },
                Some(Ok(ChunkInput::Data(d))) => {
                    proof {
                        lemma_push_data(before, d@);
                        assert(before.is_prefix_of(before.push(Event::Data(d@))));
                    }
                    let ghost gathered = self.buffer@;
                    self.buffer.extend_from_slice(d);
                    proof {
                        assert(self.buffer@ == gathered + d@);
                        lemma_taken_and_left(input, self.stream.input(), source);
                        lemma_one_more_answer(
                            old(self).stream.answers(),
                            answers,
                            self.stream.answers(),
                        );
                    }
                },
                Some(Ok(ChunkInput::End)) => {
                    let mut res = Vec::new();
                    std::mem::swap(&mut res, &mut self.buffer);
                    proof {
                        lemma_push_end(before);
                        assert(before.is_prefix_of(before.push(Event::End)));
                        self.stream.lemma_wf();
                        lemma_taken_and_left(input, self.stream.input(), source);
                        lemma_one_more_answer(
                            old(self).stream.answers(),
                            answers,
                            self.stream.answers(),
                        );
                    }
                    return Some(Ok(res));
                },
            }
        }
    }
}

/// Where a chunk lies in the input: the offset of its first byte, and its
/// length.
pub struct ChunkInfo {
    start: usize,
    length: usize,
}

impl View for ChunkInfo {
    type V = (nat, nat);

    /// The offset of the first byte, and the length.
    closed spec fn view(&self) -> (nat, nat) {
        (self.start as nat, self.length as nat)
    }
}

impl ChunkInfo {
    #[verifier::type_invariant]
    spec fn end_fits(&self) -> bool {
        self.start + self.length <= usize::MAX
    }

    /// The offset of the chunk's first byte.
    pub fn start(&self) -> (r: usize)
        ensures
            r == self@.0,
    {
        self.start
    }

    /// The number of bytes in the chunk.
    pub fn length(&self) -> (r: usize)
        ensures
            r == self@.1,
    {
        self.length
    }

    /// The offset of the first byte after the chunk.
    pub fn end(&self) -> (r: usize)
        ensures
            r == self@.0 + self@.1,
    {
        proof {
            use_type_invariant(self);
        }
        self.start + self.length
    }
}

/// Iterates on the descriptors of the chunks, without their data.
pub struct ChunkInfoStream<R: Reader, I: ChunkerImpl> {
    stream: ChunkStream<R, I>,
    last_chunk: usize,
    pos: usize,
    /// Whether the stream has emitted more bytes than a `usize` counts.
    overrun: bool,
}

impl<R: Reader, I: ChunkerImpl> ChunkInfoStream<R, I> {
    /// The stream that the chunks are measured from.
    pub closed spec fn stream(&self) -> ChunkStream<R, I> {
        self.stream
    }

    /// Whether the stream has emitted more bytes than a `usize` counts:
    /// the chunks can no longer be described.
    pub closed spec fn overrun(&self) -> bool {
        self.overrun
    }

    /// The invariant: the offsets held are the number of bytes emitted, and
    /// the number of bytes in closed chunks.
    pub closed spec fn wf(&self) -> bool {
        &&& self.stream.wf()
        &&& self.overrun <==> bytes_of(self.stream.events()).len() > usize::MAX
        &&& !self.overrun ==> {
            &&& self.pos == bytes_of(self.stream.events()).len()
            &&& self.last_chunk == joined(closed_chunks(self.stream.events())).len()
        }
    }

    /// The stream of a sound iterator is sound.
    pub proof fn lemma_wf(self)
        requires
            self.wf(),
        ensures
            self.stream().wf(),
            self.overrun() <==> bytes_of(self.stream().events()).len() > usize::MAX,
    {
    }

    /// Whether the stream has emitted more bytes than a `usize` counts, so
    /// that `next` gives no more descriptors though the input may go on.
    pub fn has_overrun(&self) -> (overrun: bool)
        ensures
            overrun == self.overrun(),
    {
        self.overrun
    }

    /// Describes the chunks of `stream`, which has emitted nothing yet.
    pub(crate) fn new(stream: ChunkStream<R, I>) -> (chunks: Self)
        requires
            stream.wf(),
            stream.events() == Seq::<Event>::empty(),
        ensures
            chunks.wf(),
            chunks.stream() == stream,
            !chunks.overrun(),
    {
        ChunkInfoStream { stream, last_chunk: 0, pos: 0, overrun: false }
    }

    /// The descriptor of the next chunk that the stream closes. `None` when
    /// the stream has ended, and when it has emitted more bytes than a
    /// `usize` counts. An error of the reader is handed on.
    pub fn next(&mut self) -> (res: Option<Result<ChunkInfo, R::Error>>)
        requires
            old(self).wf(),
        ensures
            final(self).wf(),
            final(self).stream().origin() == old(self).stream().origin(),
            old(self).stream().input().is_prefix_of(final(self).stream().input()),
            old(self).stream().events().is_prefix_of(final(self).stream().events()),
            ({
                let before = old(self).stream().answers();
                let after = final(self).stream().answers();
                &&& before.is_prefix_of(after)
                &&& failed_last_only(after, before.len() as int)
                &&& res matches Some(Err(e)) ==> after.len() > before.len() && after.last()
                    == Err::<usize, R::Error>(e)
                &&& after.len() > before.len() && after.last() is Err ==> res matches Some(Err(_))
            }),
            old(self).stream().source() matches Some(rest) ==> {
                &&& !(res matches Some(Err(_)))
                &&& final(self).stream().source() matches Some(left)
                &&& final(self).stream().input() + left == old(self).stream().input() + rest
            },
            closed_chunks(final(self).stream().events()).len() == closed_chunks(
                old(self).stream().events(),
            ).len() + if res matches Some(Ok(_)) {
                1int
            } else {
                0int
            },
            closed_chunks(old(self).stream().events()) == closed_chunks(
                final(self).stream().events(),
            ).take(closed_chunks(old(self).stream().events()).len() as int),
            match res {
                Some(Ok(info)) => {
                    let after = closed_chunks(final(self).stream().events());
                    &&& final(self).stream().events().last() is End
                    &&& !final(self).overrun()
                    &&& info@.0 == joined(after.drop_last()).len()
                    &&& info@.1 == after.last().len()
                    &&& info@.1 > 0
                },
                Some(Err(_)) => !final(self).overrun(),
                None => {
                    ||| final(self).overrun()
                    ||| {
                        &&& final(self).stream().events() == old(self).stream().events()
                        &&& open_chunk(final(self).stream().events()).len() == 0
                        &&& final(self).stream().pending().len() == 0
                        &&& final(self).stream().ended()
                    }
                },
            },
    {
        let ghost first = self.stream.events();
        if self.overrun {
            proof {
                assert(closed_chunks(first).take(closed_chunks(first).len() as int)
                    =~= closed_chunks(first));
            }
            return None;
        }
        proof {
            assert(closed_chunks(first).take(closed_chunks(first).len() as int) =~= closed_chunks(
                first,
            ));
        }
        loop
            invariant
                self.wf(),
                !self.overrun,
                old(self).wf(),
                first == old(self).stream.events(),
                self.stream.origin() == old(self).stream.origin(),
                old(self).stream.input().is_prefix_of(self.stream.input()),
                first.is_prefix_of(self.stream.events()),
                closed_chunks(self.stream.events()) == closed_chunks(first),
                closed_chunks(first).take(closed_chunks(first).len() as int) == closed_chunks(
                    first,
                ),
                self.stream.status() is End ==> self.stream.events() == first,
                old(self).stream.source() matches Some(rest) ==> {
                    &&& self.stream.source() matches Some(left)
                    &&& self.stream.input() + left == old(self).stream.input() + rest
                },
                old(self).stream.answers().is_prefix_of(self.stream.answers()),
                forall|i: int|
                    old(self).stream.answers().len() <= i < self.stream.answers().len() ==> (
                    #[trigger] self.stream.answers()[i]) is Ok,
            decreases usize::MAX - self.pos,
        {
            let ghost before = self.stream.events();
            let ghost input = self.stream.input();
            let ghost source = self.stream.source();
            let ghost answers = self.stream.answers();
            proof {
                self.stream.lemma_wf();
            }
            match self.stream.read() {
                None => {
                    proof {
                        self.stream.lemma_wf();
                        lemma_taken_and_left(input, self.stream.input(), source);
                        lemma_one_more_answer(
                            old(self).stream.answers(),
                            answers,
                            self.stream.answers(),
                        );
                    }
                    return None;
                },
                Some(Err(e)) => {
                    proof {
                        lemma_taken_and_left(input, self.stream.input(), source);
                        lemma_one_more_answer(
                            old(self).stream.answers(),
                            answers,
                            self.stream.answers(),
                        );
                    }
                    return Some(Err(e));
                },
                Some(Ok(ChunkInput::Data(d))) => {
                    let n: usize = d.len();
                    let ghost bytes = d@;
                    proof {
                        lemma_push_data(before, bytes);
                        assert(before.is_prefix_of(before.push(Event::Data(bytes))));
                        assert(self.stream.events() == before.push(Event::Data(bytes)));
                        lemma_taken_and_left(input, self.stream.input(), source);
                        lemma_one_more_answer(
                            old(self).stream.answers(),
                            answers,
                            self.stream.answers(),
                        );
                    }
                    match self.pos.checked_add(n) {
                        Some(pos) => {
                            self.pos = pos;
                        },
                        None => {
                            self.overrun = true;
                            return None;
                        },
                    }
                },
                Some(Ok(ChunkInput::End)) => {
                    proof {
                        lemma_push_end(before);
                        assert(before.is_prefix_of(before.push(Event::End)));
                        self.stream.lemma_wf();
                        lemma_bytes_of_chunks(before);
                        lemma_bytes_of_chunks(self.stream.events());
                        let after = closed_chunks(self.stream.events());
                        assert(after.drop_last() =~= closed_chunks(before));
                        assert(after.take(closed_chunks(first).len() as int) =~= closed_chunks(
                            first,
                        ));
                        lemma_closed_chunks_nonempty(self.stream.events(), after.len() - 1);
                        lemma_taken_and_left(input, self.stream.input(), source);
                        lemma_one_more_answer(
                            old(self).stream.answers(),
                            answers,
                            self.stream.answers(),
                        );
                    }
                    let start: usize = self.last_chunk;
                    self.last_chunk = self.pos;
                    return Some(Ok(ChunkInfo { start, length: self.pos - start }));
                },
            }
        }
    }
}

/// Iterates on the chunks of a buffer in memory, as slices of it.
pub struct Slices<'a, I: ChunkerImpl> {
    inner: I,
    buffer: &'a [u8],
    pos: usize,
}

impl<'a, I: ChunkerImpl> Slices<'a, I> {
    /// The bytes that are not handed out yet.
    pub closed spec fn rest(&self) -> Seq<u8> {
        self.buffer@.skip(self.pos as int)
    }

    /// The state of the strategy.
    pub closed spec fn strategy(&self) -> I::State {
        self.inner.state()
    }

    /// The invariant of the iterator.
    pub closed spec fn wf(&self) -> bool {
        self.pos <= self.buffer@.len() && self.inner.inv() && I::ready(self.inner.state())
    }

    /// The chunks that are still to come.
    pub open spec fn chunks(&self) -> Seq<Seq<u8>> {
        chunking::<I>(self.strategy(), self.rest())
    }

    /// Iterates on the chunks that `inner` makes of `buffer`.
    pub(crate) fn new(inner: I, buffer: &'a [u8]) -> (slices: Self)
        requires
            inner.inv(),
            I::ready(inner.state()),
        ensures
            slices.wf(),
            slices.rest() == buffer@,
            slices.strategy() == inner.state(),
    {
        Slices { inner, buffer, pos: 0 }
    }

    /// The next chunk: the bytes up to the next boundary that the strategy
    /// finds, or all that is left where it finds none. `None` when nothing is
    /// left. The strategy is reset after each boundary.
    pub fn next(&mut self) -> (res: Option<&'a [u8]>)
        requires
            old(self).wf(),
        ensures
            final(self).wf(),
            match res {
                Some(chunk) => {
                    &&& old(self).chunks().len() > 0
                    &&& chunk@ == old(self).chunks()[0]
                    &&& final(self).chunks() == old(self).chunks().skip(1)
                    &&& final(self).rest() == old(self).rest().skip(chunk@.len() as int)
                },
                None => {
                    &&& old(self).chunks().len() == 0
                    &&& old(self).rest().len() == 0
                    &&& final(self).rest() == old(self).rest()
                    &&& final(self).strategy() == old(self).strategy()
                },
            },
    {
        let ghost rest = self.rest();
        let ghost state = self.inner.state();
        if self.pos == self.buffer.len() {
            None
        } else if let Some(split) = self.inner.find_boundary(
            slice_subrange(self.buffer, self.pos, self.buffer.len()),
        ) {
            proof {
                assert(self.buffer@.subrange(self.pos as int, self.buffer@.len() as int) =~= rest);
                I::lemma_boundary_in_view(state, rest);
                I::lemma_fresh(state, rest);
                I::lemma_ready(state, rest);
            }
            let start: usize = self.pos;
            self.pos += split + 1;
            self.inner.reset();
            proof {
                assert(self.buffer@.subrange(start as int, self.pos as int) =~= rest.take(
                    split + 1,
                ));
                assert(self.rest() =~= rest.skip(split + 1));
                let all = chunking::<I>(state, rest);
                assert(all.skip(1) =~= chunking::<I>(I::fresh(state), rest.skip(split + 1)));
            }
            Some(slice_subrange(self.buffer, start, self.pos))
        } else {
            proof {
                assert(self.buffer@.subrange(self.pos as int, self.buffer@.len() as int) =~= rest);
                I::lemma_ready(state, rest);
            }
            let start: usize = self.pos;
            self.pos = self.buffer.len();
            proof {
                assert(self.buffer@.subrange(start as int, self.pos as int) =~= rest);
                assert(self.rest() =~= rest.skip(rest.len() as int));
                assert(self.rest() =~= Seq::<u8>::empty());
                let all = chunking::<I>(state, rest);
                assert(all.skip(1) =~= Seq::<Seq<u8>>::empty());
            }
            Some(slice_subrange(self.buffer, start, self.pos))
        }
    }
}

} // verus!
