//! The chunker: a strategy, and the ways of applying it to an input.

use vstd::prelude::*;
use crate::adapters::{lemma_answers_so_far, ChunkInfoStream, Slices, WholeChunks};
use crate::limit::{LimitedModel, SizeLimited};
use crate::reader::Reader;
use crate::strategy::{chunking, is_fresh, joined, ChunkerImpl};
use crate::stream::{
    bytes_of, closed_chunks, failed_last_only, lemma_bytes_of_chunks, ChunkStream, Event,
    BUF_SIZE,
};

verus! {

/// The contents of the chunks in `chunks`.
pub open spec fn contents(chunks: Seq<Vec<u8>>) -> Seq<Seq<u8>> {
    Seq::new(chunks.len(), |i: int| chunks[i]@)
}

/// Chunker object, wraps the rolling hash into a stream-splitting object.
pub struct Chunker<I: ChunkerImpl> {
    inner: I,
}

impl<I: ChunkerImpl> Chunker<I> {
    /// The state of the strategy.
    pub closed spec fn strategy(&self) -> I::State {
        self.inner.state()
    }

    /// The invariant: the strategy is sound, and ready for a scan.
    pub closed spec fn wf(&self) -> bool {
        self.inner.inv() && I::ready(self.inner.state())
    }

    /// Create a Chunker from a specific way of finding chunk boundaries.
    pub fn new(inner: I) -> (chunker: Chunker<I>)
        requires
            inner.inv(),
            I::ready(inner.state()),
        ensures
            chunker.wf(),
            chunker.strategy() == inner.state(),
    {
        Chunker { inner }
    }

    /// Iterates on whole chunks from a reader, read into new vectors.
    pub fn whole_chunks<R: Reader>(self, reader: R) -> (chunks: WholeChunks<R, I>)
        requires
            self.wf(),
        ensures
            chunks.wf(),
            chunks.stream().events() == Seq::<Event>::empty(),
            chunks.stream().input() == Seq::<u8>::empty(),
            chunks.stream().origin() == self.strategy(),
            !chunks.stream().ended(),
            chunks.stream().answers() == Seq::<Result<usize, R::Error>>::empty(),
            chunks.stream().source() == reader.script(),
    {
        WholeChunks::new(self.stream(reader))
    }

    /// Reads all the chunks at once, in a vector of chunks (also vectors).
    ///
    /// The result is that of a run of a stream over the reader. Where a read
    /// fails, the run ends there and the error of that read is returned, as
    /// it is: it is the first that failed. Where none fails, the chunks are
    /// those that the stream has closed when the input has ended: they are
    /// all that was read, none is empty, and for a seam-invariant strategy
    /// they are the chunks that it makes of their bytes seen at once.
    ///
    /// Of a reader whose input is known beforehand the chunks are returned,
    /// and they are the chunks of that input: for a seam-invariant strategy
    /// those that it makes of the input in memory. Of any other reader, what
    /// the bytes are and whether a read fails is for the reader to say.
    pub fn all_chunks<R: Reader>(self, reader: R) -> (res: Result<Vec<Vec<u8>>, R::Error>)
        requires
            self.wf(),
        ensures
            reader.script() matches Some(input) ==> {
                &&& res matches Ok(chunks)
                &&& joined(contents(chunks@)) == input
                &&& I::seam_invariant() ==> contents(chunks@) == chunking::<I>(
                    self.strategy(),
                    input,
                )
            },
            exists|run: ChunkStream<R, I>|
                {
                    &&& #[trigger] run.wf()
                    &&& run.origin() == self.strategy()
                    &&& failed_last_only(run.answers(), 0)
                    &&& match res {
                        Ok(chunks) => {
                            &&& run.ended()
                            &&& closed_chunks(run.events()) == contents(chunks@)
                            &&& run.answers().len() > 0 ==> run.answers().last() is Ok
                        },
                        Err(e) => run.answers().len() > 0 && run.answers().last() == Err::<
                            usize,
                            R::Error,
                        >(e),
                    }
                },
            res matches Ok(chunks) ==> {
                &&& forall|i: int| 0 <= i < chunks@.len() ==> (#[trigger] chunks@[i])@.len() > 0
                &&& I::seam_invariant() ==> contents(chunks@) == chunking::<I>(
                    self.strategy(),
                    joined(contents(chunks@)),
                )
            },
    {
        let mut chunks: Vec<Vec<u8>> = Vec::new();
        let ghost script = reader.script();
        let mut whole = self.whole_chunks(reader);
        proof {
            assert(contents(chunks@) =~= closed_chunks(whole.stream().events()));
            if script is Some {
                assert(whole.stream().input() + script->0 =~= script->0);
            }
        }
        loop
            invariant
                whole.wf(),
                whole.stream().origin() == self.strategy(),
                contents(chunks@) == closed_chunks(whole.stream().events()),
                forall|i: int| 0 <= i < chunks@.len() ==> (#[trigger] chunks@[i])@.len() > 0,
                script == reader.script(),
                forall|i: int|
                    0 <= i < whole.stream().answers().len() ==> (
                    #[trigger] whole.stream().answers()[i]) is Ok,
                script matches Some(input) ==> {
                    &&& whole.stream().source() matches Some(left)
                    &&& whole.stream().input() + left == input
                },
            decreases usize::MAX - chunks.len(),
        {
            let ghost gathered = chunks@;
            let ghost answers = whole.stream().answers();
            match whole.next() {
                Some(Ok(chunk)) => {
                    chunks.push(chunk);
                    proof {
                        lemma_answers_so_far(answers, whole.stream().answers());
                        assert(contents(chunks@) =~= contents(gathered).push(chunk@));
                        assert(contents(chunks@).drop_last() =~= contents(gathered));
                    }
                },
                Some(Err(e)) => {
                    proof {
                        whole.lemma_wf();
                        lemma_answers_so_far(answers, whole.stream().answers());
                    }
                    return Err(e);
                },
                None => {
                    proof {
                        lemma_answers_so_far(answers, whole.stream().answers());
                        let stream = whole.stream();
                        whole.lemma_wf();
                        stream.lemma_wf();
                        lemma_bytes_of_chunks(stream.events());
                        assert(bytes_of(stream.events()) =~= joined(contents(chunks@)));
                        assert(bytes_of(stream.events()) + stream.pending() =~= bytes_of(
                            stream.events(),
                        ));
                        if script is Some {
                            assert(stream.input() + stream.source()->0 =~= stream.input());
                        }
                        if I::seam_invariant() {
                            stream.lemma_chunks_are_canonical();
                        }
                    }
                    return Ok(chunks);
                },
            }
        }
    }

    /// Reads chunks with zero allocations.
    ///
    /// The stream hands out the data of each chunk from a buffer of its own that it
    /// uses again and again, so that a chunk may come in several parts, each
    /// followed by more data or by the end of the chunk.
    pub fn stream<R: Reader>(self, reader: R) -> (stream: ChunkStream<R, I>)
        requires
            self.wf(),
        ensures
            stream.wf(),
            stream.events() == Seq::<Event>::empty(),
            stream.input() == Seq::<u8>::empty(),
            stream.pending() == Seq::<u8>::empty(),
            stream.status() is End,
            stream.strategy() == self.strategy(),
            stream.origin() == self.strategy(),
            !stream.ended(),
            stream.answers() == Seq::<Result<usize, R::Error>>::empty(),
            stream.feeds() == Seq::<Seq<u8>>::empty(),
            stream.source() == reader.script(),
            stream.next_piece() == reader.serving(BUF_SIZE as nat),
    {
        ChunkStream::new(reader, self.inner)
    }

    /// Describes the chunks (don't return the data).
    ///
    /// This iterator gives the offset and size of the chunks, but not the
    /// data in them.
    pub fn chunks<R: Reader>(self, reader: R) -> (chunks: ChunkInfoStream<R, I>)
        requires
            self.wf(),
        ensures
            chunks.wf(),
            chunks.stream().events() == Seq::<Event>::empty(),
            chunks.stream().input() == Seq::<u8>::empty(),
            chunks.stream().origin() == self.strategy(),
            !chunks.stream().ended(),
            !chunks.overrun(),
            chunks.stream().answers() == Seq::<Result<usize, R::Error>>::empty(),
            chunks.stream().source() == reader.script(),
    {
        ChunkInfoStream::new(self.stream(reader))
    }

    /// Iterate on chunks in an in-memory buffer as slices.
    ///
    /// The slices are the chunks that the strategy makes of the buffer.
    pub fn slices<'a>(self, buffer: &'a [u8]) -> (slices: Slices<'a, I>)
        requires
            self.wf(),
        ensures
            slices.wf(),
            slices.rest() == buffer@,
            slices.strategy() == self.strategy(),
            slices.chunks() == chunking::<I>(self.strategy(), buffer@),
    {
        Slices::new(self.inner, buffer)
    }

    /// Returns a new `Chunker` object that will not go over a size limit.
    ///
    /// The inner strategy is reset when a boundary is emitted because of the
    /// size limit: the limit adds boundaries inside chunks that are too big,
    /// and the boundary that would have followed such a one may not come.
    pub fn max_size(self, max: usize) -> (limited: Chunker<SizeLimited<I>>)
        requires
            self.wf(),
            max > 0,
        ensures
            limited.wf(),
            limited.strategy() == (LimitedModel {
                inner: self.strategy(),
                pos: 0,
                max_size: max as nat,
            }),
            is_fresh::<I>(self.strategy()) ==> is_fresh::<SizeLimited<I>>(limited.strategy()),
    {
        Chunker { inner: SizeLimited::new(self.inner, max) }
    }
}

} // verus!
