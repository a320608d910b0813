//! What holds of every run: laws that relate the strategies, the stream and
//! the adapters to each other.

use vstd::prelude::*;
use crate::fsc::{lemma_fixed_size_scan, FixedSizeChunker, FixedSizeModel};
use crate::limit::{lemma_limited_chunk_sizes, LimitedModel, SizeLimited};
use crate::reader::Reader;
use crate::strategy::{chunking, joined, ChunkerImpl};
use crate::stream::{
    all_chunks_of, bytes_of, closed_chunks, lemma_bytes_of_chunks, open_chunk, well_ordered,
    ChunkStream, Event,
};

verus! {

/// When the reader has reported the end of the input, the stream has emitted
/// whole chunks only, each as one or more data events followed by one `End`,
/// and the chunks, one after the other, are the bytes that were read.
pub proof fn lemma_ended_stream<R: Reader, I: ChunkerImpl>(stream: ChunkStream<R, I>)
    requires
        stream.wf(),
        stream.ended(),
    ensures
        well_ordered(stream.events()),
        stream.events().len() == 0 || stream.events().last() is End,
        open_chunk(stream.events()).len() == 0,
        joined(closed_chunks(stream.events())) == stream.input(),
{
    stream.lemma_wf();
    lemma_bytes_of_chunks(stream.events());
    assert(bytes_of(stream.events()) + stream.pending() =~= bytes_of(stream.events()));
    assert(joined(closed_chunks(stream.events())) + open_chunk(stream.events()) =~= joined(
        closed_chunks(stream.events()),
    ));
}

/// Whether `events` is what is left of a run of chunks, each of one or more
/// data events that are not empty and one `End`, when `in_chunk` says whether
/// the chunk at hand has had a data event: the regular expression
/// `(Data+ End)*`, as the automaton that accepts it.
pub open spec fn accepts(events: Seq<Event>, in_chunk: bool) -> bool
    decreases events.len(),
{
    if events.len() == 0 {
        !in_chunk
    } else {
        match events[0] {
            Event::Data(d) => d.len() > 0 && accepts(events.skip(1), true),
            Event::End => in_chunk && accepts(events.skip(1), false),
        }
    }
}

/// In a well-ordered trace no data event is empty, and a data event comes
/// right before every `End`.
pub proof fn lemma_well_ordered_at(events: Seq<Event>, i: int)
    requires
        well_ordered(events),
        0 <= i < events.len(),
    ensures
        events[i] matches Event::Data(d) ==> d.len() > 0,
        events[i] is End ==> i >= 1 && events[i - 1] is Data,
    decreases events.len(),
{
    if i < events.len() - 1 {
        lemma_well_ordered_at(events.drop_last(), i);
    }
}

/// What follows the first `from` events of a well-ordered trace that does not
/// end within a chunk is accepted by the automaton.
proof fn lemma_accepts_from(events: Seq<Event>, from: int)
    requires
        well_ordered(events),
        events.len() == 0 || events.last() is End,
        0 <= from <= events.len(),
    ensures
        accepts(events.skip(from), from > 0 && events[from - 1] is Data),
    decreases events.len() - from,
{
    let rest = events.skip(from);
    if from < events.len() {
        lemma_well_ordered_at(events, from);
        lemma_accepts_from(events, from + 1);
        assert(rest.skip(1) =~= events.skip(from + 1));
        assert(rest[0] == events[from]);
    }
}

/// The events of a run, from the first to the last before the stream ends,
/// match the regular expression `(Data+ End)*`: the last chunk, too, is
/// closed by exactly one `End`.
pub proof fn lemma_run_matches_grammar<R: Reader, I: ChunkerImpl>(stream: ChunkStream<R, I>)
    requires
        stream.wf(),
        stream.ended(),
    ensures
        accepts(stream.events(), false),
{
    stream.lemma_wf();
    lemma_accepts_from(stream.events(), 0);
    assert(stream.events().skip(0) =~= stream.events());
}

/// At any moment the bytes that the stream has emitted are a part of what it
/// has read, from the start and without a gap; those that are pending follow.
pub proof fn lemma_emitted_bytes<R: Reader, I: ChunkerImpl>(stream: ChunkStream<R, I>)
    requires
        stream.wf(),
    ensures
        joined(closed_chunks(stream.events())) + open_chunk(stream.events()) + stream.pending()
            == stream.input(),
{
    stream.lemma_wf();
    lemma_bytes_of_chunks(stream.events());
}

/// The chunks that a stream with a seam-invariant strategy has closed when
/// the input has ended are the chunks that the strategy makes of the whole
/// input in memory, whatever the pieces were in which the reader handed it
/// out: the stream and the iterator on slices yield the same chunks.
pub proof fn lemma_stream_agrees_with_slices<R: Reader, I: ChunkerImpl>(stream: ChunkStream<R, I>)
    requires
        stream.wf(),
        stream.ended(),
        I::seam_invariant(),
    ensures
        closed_chunks(stream.events()) == chunking::<I>(stream.origin(), stream.input()),
{
    lemma_ended_stream(stream);
    stream.lemma_chunks_are_canonical();
    lemma_bytes_of_chunks(stream.events());
    assert(bytes_of(stream.events()) =~= stream.input());
}

/// Two streams whose strategies started in the same state and whose readers
/// handed out the same pieces have emitted the same events when their inputs
/// have ended, and have read the same bytes: what a stream emits depends on
/// nothing else, whatever the strategy is.
pub proof fn lemma_equal_reads_equal_events<R1: Reader, R2: Reader, I: ChunkerImpl>(
    a: ChunkStream<R1, I>,
    b: ChunkStream<R2, I>,
)
    requires
        a.wf(),
        b.wf(),
        a.ended(),
        b.ended(),
        a.origin() == b.origin(),
        a.feeds() == b.feeds(),
    ensures
        a.events() == b.events(),
        a.input() == b.input(),
{
    a.lemma_events_follow_feeds();
    b.lemma_events_follow_feeds();
}

/// The iterator on whole chunks and the iterator on descriptors agree chunk
/// by chunk, for every strategy: where `whole` is the stream of the one and
/// `described` the stream of the other, the strategies started in the same
/// state, the readers handed out the same pieces and the inputs have ended,
/// both have closed the same chunks, and the descriptor of each chunk, its
/// offset and its length, picks the bytes of that chunk from the input.
pub proof fn lemma_descriptors_agree_with_whole_chunks<R1: Reader, R2: Reader, I: ChunkerImpl>(
    whole: ChunkStream<R1, I>,
    described: ChunkStream<R2, I>,
    j: int,
)
    requires
        whole.wf(),
        described.wf(),
        whole.ended(),
        described.ended(),
        whole.origin() == described.origin(),
        whole.feeds() == described.feeds(),
        0 <= j < closed_chunks(described.events()).len(),
    ensures
        closed_chunks(whole.events()) == closed_chunks(described.events()),
        offset_of(closed_chunks(described.events()), j) + closed_chunks(described.events())[j].len()
            <= described.input().len(),
        described.input().subrange(
            offset_of(closed_chunks(described.events()), j) as int,
            (offset_of(closed_chunks(described.events()), j) + closed_chunks(
                described.events(),
            )[j].len()) as int,
        ) == closed_chunks(whole.events())[j],
{
    lemma_equal_reads_equal_events(whole, described);
    lemma_ended_stream(described);
    lemma_descriptor_picks_chunk(closed_chunks(described.events()), j);
}

/// The bytes of the first `count` chunks.
pub open spec fn offset_of(chunks: Seq<Seq<u8>>, count: int) -> nat {
    joined(chunks.take(count)).len()
}

/// A chunk lies in the bytes of all chunks at the offset that is the number of
/// bytes in the chunks before it: the descriptor of a chunk picks its bytes
/// from the input.
pub proof fn lemma_descriptor_picks_chunk(chunks: Seq<Seq<u8>>, j: int)
    requires
        0 <= j < chunks.len(),
    ensures
        offset_of(chunks, j) + chunks[j].len() == offset_of(chunks, j + 1),
        offset_of(chunks, j + 1) <= joined(chunks).len(),
        joined(chunks).subrange(offset_of(chunks, j) as int, offset_of(chunks, j + 1) as int)
            == chunks[j],
    decreases chunks.len(),
{
    let init = chunks.drop_last();
    if j == chunks.len() - 1 {
        assert(chunks.take(j) =~= init);
        assert(chunks.take(j + 1) =~= chunks);
        assert(joined(chunks).subrange(joined(init).len() as int, joined(chunks).len() as int)
            =~= chunks[j]);
    } else {
        lemma_descriptor_picks_chunk(init, j);
        assert(init.take(j) =~= chunks.take(j));
        assert(init.take(j + 1) =~= chunks.take(j + 1));
        assert(init[j] == chunks[j]);
        let from = offset_of(chunks, j) as int;
        let to = offset_of(chunks, j + 1) as int;
        assert(joined(chunks).subrange(from, to) =~= joined(init).subrange(from, to));
    }
}

/// With a size limit of `max_size` bytes no chunk of an input in memory
/// holds more than `max_size` bytes.
pub proof fn lemma_size_limit<I: ChunkerImpl>(
    s: LimitedModel<I::State>,
    input: Seq<u8>,
    i: int,
)
    requires
        0 < s.max_size,
        s.pos == 0,
        0 <= i < chunking::<SizeLimited<I>>(s, input).len(),
    ensures
        chunking::<SizeLimited<I>>(s, input)[i].len() <= s.max_size,
{
    lemma_limited_chunk_sizes::<I>(s, input, i);
}

/// With a size limit of `max_size` bytes no chunk of a stream holds more than
/// `max_size` bytes, whatever the strategy within the limit is and however the
/// reader hands out the input.
pub proof fn lemma_size_limit_in_stream<R: Reader, I: ChunkerImpl>(
    stream: ChunkStream<R, SizeLimited<I>>,
    i: int,
)
    requires
        stream.wf(),
        0 < stream.origin().max_size,
        stream.origin().pos == 0,
        0 <= i < all_chunks_of(stream.events()).len(),
    ensures
        all_chunks_of(stream.events())[i].len() <= stream.origin().max_size,
{
    stream.lemma_chunks_keep_limit(i);
}

/// The number of chunks of `size` bytes that hold `length` bytes, where the
/// last chunk may hold fewer.
pub open spec fn chunk_count(length: nat, size: nat) -> nat {
    ((length + size - 1) / (size as int)) as nat
}

/// The fixed-size strategy divides an input of `n` bytes into as many chunks
/// as `n` divided by `chunk_size` is, rounded up.
pub proof fn lemma_fixed_size_count(s: FixedSizeModel, input: Seq<u8>)
    requires
        0 < s.chunk_size <= usize::MAX,
        s.pos == 0,
    ensures
        chunking::<FixedSizeChunker>(s, input).len() == chunk_count(input.len(), s.chunk_size),
{
    lemma_count_step(input.len() as int, s.chunk_size as int);
    if input.len() > 0 {
        lemma_fixed_size_chunks(s, input, 0);
    }
}

/// The fixed-size strategy divides an input into chunks of `chunk_size` bytes
/// each, but for the last, which holds what is left.
pub proof fn lemma_fixed_size_chunks(s: FixedSizeModel, input: Seq<u8>, i: int)
    requires
        0 < s.chunk_size <= usize::MAX,
        s.pos == 0,
        0 <= i < chunk_count(input.len(), s.chunk_size),
    ensures
        chunking::<FixedSizeChunker>(s, input).len() == chunk_count(input.len(), s.chunk_size),
        chunking::<FixedSizeChunker>(s, input)[i].len() == if i < chunk_count(
            input.len(),
            s.chunk_size,
        ) - 1 {
            s.chunk_size as int
        } else {
            input.len() - s.chunk_size * (chunk_count(input.len(), s.chunk_size) - 1)
        },
    decreases input.len(),
{
    let size = s.chunk_size as int;
    let n = input.len() as int;
    let count = chunk_count(input.len(), s.chunk_size) as int;
    lemma_fixed_size_scan(s, input);
    lemma_count_step(n, size);
    if n >= size {
        let rest = input.skip(size);
        let rest_count = chunk_count(rest.len(), s.chunk_size) as int;
        assert(FixedSizeChunker::fresh(s) == s);
        lemma_count_step(n - size, size);
        assert(count == rest_count + 1);
        assert(size * (count - 1) == size * (rest_count - 1) + size) by (nonlinear_arith)
            requires
                count == rest_count + 1,
        ;
        if n > size {
            lemma_fixed_size_chunks(s, rest, if i > 0 {
                i - 1
            } else {
                0
            });
        } else {
            assert(chunking::<FixedSizeChunker>(s, rest) =~= Seq::<Seq<u8>>::empty());
            assert(size * (count - 1) == 0) by (nonlinear_arith)
                requires
                    count == 1,
            ;
        }
    } else {
        assert(size * (count - 1) == 0) by (nonlinear_arith)
            requires
                count == 1,
        ;
    }
}

/// How the number of chunks grows with the length.
proof fn lemma_count_step(n: int, size: int)
    requires
        0 <= n,
        0 < size,
    ensures
        n == 0 ==> (n + size - 1) / size == 0,
        0 < n <= size ==> (n + size - 1) / size == 1,
        0 < n ==> (n + size - 1) / size >= 1,
        (n + size + size - 1) / size == (n + size - 1) / size + 1,
{
    assert((n + size + size - 1) / size == (n + size - 1) / size + 1) by (nonlinear_arith)
        requires
            0 <= n,
            0 < size,
    ;
    assert(n == 0 ==> (n + size - 1) / size == 0) by (nonlinear_arith)
        requires
            0 < size,
    ;
    assert(0 < n <= size ==> (n + size - 1) / size == 1) by (nonlinear_arith)
        requires
            0 < size,
    ;
    assert(0 < n ==> (n + size - 1) / size >= 1) by (nonlinear_arith)
        requires
            0 < size,
    ;
}

} // verus!
