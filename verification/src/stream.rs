//! The stream engine: a strategy driven over a reader through a fixed buffer.

use vstd::prelude::*;
use vstd::slice::slice_subrange;
use crate::reader::Reader;
use crate::strategy::{chunking, joined, lemma_joined_prepend, ChunkerImpl};

verus! {

/// The capacity of the engine's buffer: the largest number of bytes that it
/// asks of the reader at once.
pub const BUF_SIZE: usize = 4096;

/// What the stream hands out: more data of the current chunk, or the end of
/// the chunk.
pub enum ChunkInput<'a> {
    Data(&'a [u8]),
    End,
}

/// What the engine emitted last.
#[derive(Clone, Copy, Debug)]
pub enum EmitStatus {
    /// No data was emitted since the last `End`, or since the start.
    End,
    /// Data was emitted, and the chunk goes on.
    Data,
    /// The last data of a chunk was emitted, but its `End` was not.
    AtSplit,
}

/// An emitted event, as a value of the model.
pub enum Event {
    Data(Seq<u8>),
    End,
}

impl<'a> ChunkInput<'a> {
    /// The event that this value stands for.
    pub open spec fn event(&self) -> Event {
        match self {
            ChunkInput::Data(d) => Event::Data(d@),
            ChunkInput::End => Event::End,
        }
    }
}

/// The bytes of all data events, in order.
pub open spec fn bytes_of(events: Seq<Event>) -> Seq<u8>
    decreases events.len(),
{
    if events.len() == 0 {
        Seq::empty()
    } else {
        match events.last() {
            Event::Data(d) => bytes_of(events.drop_last()) + d,
            Event::End => bytes_of(events.drop_last()),
        }
    }
}

/// The bytes of the chunk that is still open: those of the data events after
/// the last `End`.
pub open spec fn open_chunk(events: Seq<Event>) -> Seq<u8>
    decreases events.len(),
{
    if events.len() == 0 {
        Seq::empty()
    } else {
        match events.last() {
            Event::Data(d) => open_chunk(events.drop_last()) + d,
            Event::End => Seq::empty(),
        }
    }
}

/// The chunks that an `End` has closed, in order.
pub open spec fn closed_chunks(events: Seq<Event>) -> Seq<Seq<u8>>
    decreases events.len(),
{
    if events.len() == 0 {
        Seq::empty()
    } else {
        match events.last() {
            Event::Data(d) => closed_chunks(events.drop_last()),
            Event::End => closed_chunks(events.drop_last()).push(open_chunk(events.drop_last())),
        }
    }
}

/// Whether the events come in the order that the engine keeps: no data event
/// is empty, and every `End` closes a chunk that holds at least one byte.
/// A run of the engine that has ended is such a sequence that is empty or
/// ends in `End`: chunks of one or more data events, each followed by one `End`.
pub open spec fn well_ordered(events: Seq<Event>) -> bool
    decreases events.len(),
{
    if events.len() == 0 {
        true
    } else {
        &&& well_ordered(events.drop_last())
        &&& match events.last() {
            Event::Data(d) => d.len() > 0,
            Event::End => events.len() >= 2 && events[events.len() - 2] is Data,
        }
    }
}

/// All chunks of a trace: the closed ones, and the open one if it holds a byte.
pub open spec fn all_chunks_of(events: Seq<Event>) -> Seq<Seq<u8>> {
    if open_chunk(events).len() == 0 {
        closed_chunks(events)
    } else {
        closed_chunks(events).push(open_chunk(events))
    }
}

/// The state in which the strategy starts a chunk that follows `closed`
/// closed chunks, where `origin` is the state in which it started the first.
pub open spec fn chunk_start<I: ChunkerImpl>(origin: I::State, closed: nat) -> I::State {
    if closed == 0 {
        origin
    } else {
        I::fresh(origin)
    }
}

/// What one more data event adds to a trace.
pub proof fn lemma_push_data(events: Seq<Event>, d: Seq<u8>)
    ensures
        bytes_of(events.push(Event::Data(d))) == bytes_of(events) + d,
        open_chunk(events.push(Event::Data(d))) == open_chunk(events) + d,
        closed_chunks(events.push(Event::Data(d))) == closed_chunks(events),
        well_ordered(events.push(Event::Data(d))) == (well_ordered(events) && d.len() > 0),
{
    assert(events.push(Event::Data(d)).drop_last() =~= events);
}

/// What one more `End` adds to a trace.
pub proof fn lemma_push_end(events: Seq<Event>)
    ensures
        bytes_of(events.push(Event::End)) == bytes_of(events),
        open_chunk(events.push(Event::End)) == Seq::<u8>::empty(),
        closed_chunks(events.push(Event::End)) == closed_chunks(events).push(open_chunk(events)),
        well_ordered(events.push(Event::End)) == (well_ordered(events) && events.len() > 0
            && events.last() is Data),
{
    assert(events.push(Event::End).drop_last() =~= events);
}

/// The bytes emitted so far are those of the closed chunks, followed by those
/// of the open chunk.
pub proof fn lemma_bytes_of_chunks(events: Seq<Event>)
    ensures
        bytes_of(events) == joined(closed_chunks(events)) + open_chunk(events),
    decreases events.len(),
{
    if events.len() == 0 {
        assert(bytes_of(events) =~= joined(closed_chunks(events)) + open_chunk(events));
    } else {
        let init = events.drop_last();
        lemma_bytes_of_chunks(init);
        match events.last() {
            Event::Data(d) => {
                assert(bytes_of(events) =~= joined(closed_chunks(events)) + open_chunk(events));
            },
            Event::End => {
                let closed = closed_chunks(events);
                assert(closed.drop_last() =~= closed_chunks(init));
                assert(bytes_of(events) =~= joined(closed) + open_chunk(events));
            },
        }
    }
}

/// Every chunk that an `End` has closed holds at least one byte.
pub proof fn lemma_closed_chunks_nonempty(events: Seq<Event>, j: int)
    requires
        well_ordered(events),
        0 <= j < closed_chunks(events).len(),
    ensures
        closed_chunks(events)[j].len() > 0,
    decreases events.len(),
{
    let init = events.drop_last();
    match events.last() {
        Event::Data(d) => {
            lemma_closed_chunks_nonempty(init, j);
        },
        Event::End => {
            if j < closed_chunks(init).len() {
                lemma_closed_chunks_nonempty(init, j);
            } else {
                assert(init.last() == events[events.len() - 2]);
                assert(well_ordered(init));
                match init.last() {
                    Event::Data(d) => {
                        assert(d.len() > 0);
                        assert(open_chunk(init) == open_chunk(init.drop_last()) + d);
                    },
                    Event::End => {},
                }
            }
        },
    }
}

/// Chunks of which each closed one ends at the first boundary from its start,
/// in `closed`, but for a last one without a boundary where `tail` says so,
/// and an open chunk with no boundary before its last byte, in `open`, are
/// the chunks that a seam-invariant strategy makes of their bytes seen at once.
pub proof fn lemma_canonical_chunking<I: ChunkerImpl>(
    s: I::State,
    closed: Seq<Seq<u8>>,
    open: Seq<u8>,
    tail: bool,
)
    requires
        I::seam_invariant(),
        forall|j: int|
            0 <= j < closed.len() - (if tail {
                1int
            } else {
                0int
            }) ==> I::boundary(chunk_start::<I>(s, j as nat), #[trigger] closed[j]) == Some(
                closed[j].len() - 1,
            ),
        tail ==> closed.len() >= 1 && closed.last().len() > 0 && open.len() == 0 && I::boundary(
            chunk_start::<I>(s, (closed.len() - 1) as nat),
            closed.last(),
        ) is None,
        open.len() > 0 ==> I::boundary(chunk_start::<I>(s, closed.len()), open) is None
            || I::boundary(chunk_start::<I>(s, closed.len()), open) == Some(open.len() - 1),
    ensures
        chunking::<I>(s, joined(closed) + open) == if open.len() == 0 {
            closed
        } else {
            closed.push(open)
        },
    decreases closed.len(),
{
    if closed.len() == 0 {
        assert(joined(closed) + open =~= open);
        if open.len() > 0 {
            if I::boundary(s, open) is Some {
                assert(open.take(open.len() as int) =~= open);
                assert(open.skip(open.len() as int) =~= Seq::<u8>::empty());
                assert(chunking::<I>(I::fresh(s), Seq::<u8>::empty()) =~= Seq::<Seq<u8>>::empty());
                assert(chunking::<I>(s, open) =~= seq![open]);
            }
            assert(chunking::<I>(s, open) =~= closed.push(open));
        }
    } else {
        let c0 = closed[0];
        let rest = closed.skip(1);
        let bytes = joined(rest) + open;
        assert(closed =~= seq![c0] + rest);
        lemma_joined_prepend(c0, rest);
        assert(joined(closed) + open =~= c0 + bytes);
        if tail && closed.len() == 1 {
            assert(rest =~= Seq::<Seq<u8>>::empty());
            assert(c0 + bytes =~= c0);
            assert(chunking::<I>(s, c0) =~= closed);
        } else {
            assert(I::boundary(s, c0) == Some(c0.len() - 1));
            I::lemma_boundary_in_view(s, c0);
            I::lemma_seam(s, c0, bytes);
            I::lemma_fresh(s, Seq::empty());
            let whole = c0 + bytes;
            assert(whole.take(c0.len() as int) =~= c0);
            assert(whole.skip(c0.len() as int) =~= bytes);
            assert forall|j: int|
                0 <= j < rest.len() - (if tail {
                    1int
                } else {
                    0int
                }) implies I::boundary(
                chunk_start::<I>(I::fresh(s), j as nat),
                #[trigger] rest[j],
            ) == Some(rest[j].len() - 1) by {
                assert(rest[j] == closed[j + 1]);
            }
            if tail {
                assert(rest.last() == closed.last());
            }
            lemma_canonical_chunking::<I>(I::fresh(s), rest, open, tail);
            let tail_chunks = chunking::<I>(I::fresh(s), bytes);
            assert(chunking::<I>(s, whole) == seq![c0] + tail_chunks);
            if open.len() == 0 {
                assert(seq![c0] + rest =~= closed);
            } else {
                assert(seq![c0] + rest.push(open) =~= closed.push(open));
            }
        }
    }
}

/// The engine as a value of the model: what it emitted last, the state of
/// its strategy, the events emitted, and the bytes that are pending.
pub struct Engine<S> {
    pub status: EmitStatus,
    pub state: S,
    pub events: Seq<Event>,
    pub pending: Seq<u8>,
}

/// The engine when it has emitted all that it emits without a read: the
/// pending `End`, then the data of the pending bytes, with an `End` after
/// every boundary that the strategy finds in them.
pub open spec fn drained<I: ChunkerImpl>(e: Engine<I::State>) -> Engine<I::State>
    decreases e.pending.len(), (if e.status is AtSplit {
        1nat
    } else {
        0nat
    }),
{
    if e.status is AtSplit {
        drained::<I>(
            Engine {
                status: EmitStatus::End,
                state: I::fresh(e.state),
                events: e.events.push(Event::End),
                pending: e.pending,
            },
        )
    } else if e.pending.len() == 0 {
        e
    } else {
        let cut = I::boundary(e.state, e.pending);
        if cut is Some && 0 <= cut->0 < e.pending.len() {
            drained::<I>(
                Engine {
                    status: EmitStatus::AtSplit,
                    state: I::advance(e.state, e.pending),
                    events: e.events.push(Event::Data(e.pending.take(cut->0 + 1))),
                    pending: e.pending.skip(cut->0 + 1),
                },
            )
        } else {
            Engine {
                status: EmitStatus::Data,
                state: I::advance(e.state, e.pending),
                events: e.events.push(Event::Data(e.pending)),
                pending: Seq::empty(),
            }
        }
    }
}

/// The engine after the reader has handed out the pieces `feeds`, one after
/// the other, to a strategy that started in state `origin`, when it has
/// emitted all that it emits without another read.
pub open spec fn replayed<I: ChunkerImpl>(origin: I::State, feeds: Seq<Seq<u8>>) -> Engine<
    I::State,
>
    decreases feeds.len(),
{
    if feeds.len() == 0 {
        Engine {
            status: EmitStatus::End,
            state: origin,
            events: Seq::empty(),
            pending: Seq::empty(),
        }
    } else {
        let before = replayed::<I>(origin, feeds.drop_last());
        drained::<I>(Engine { pending: feeds.last(), ..before })
    }
}

/// The events of a whole run in which the reader hands out the pieces
/// `feeds` and then reports the end of the input: those of the pieces, and
/// the `End` of the last chunk where the last piece did not end with one.
pub open spec fn run_events<I: ChunkerImpl>(origin: I::State, feeds: Seq<Seq<u8>>) -> Seq<Event> {
    let last = replayed::<I>(origin, feeds);
    if last.status is Data {
        last.events.push(Event::End)
    } else {
        last.events
    }
}

/// Whether a trace is what the pieces that were read make the engine emit.
pub open spec fn replays<I: ChunkerImpl>(
    status: EmitStatus,
    state: I::State,
    pending: Seq<u8>,
    t: Trace<I::State>,
) -> bool {
    let last = replayed::<I>(t.origin, t.feeds);
    if t.tail_closed {
        last.status is Data && t.events == last.events.push(Event::End)
    } else {
        drained::<I>(Engine { status, state, events: t.events, pending }) == last
    }
}

/// Whether no read but the last failed, of the reads after the first `from`.
pub open spec fn failed_last_only<E>(answers: Seq<Result<usize, E>>, from: int) -> bool {
    forall|i: int| from <= i < answers.len() - 1 ==> (#[trigger] answers[i]) is Ok
}

/// Where no byte is taken from the bytes to come, all of them are left.
proof fn lemma_none_taken(source: Option<Seq<u8>>)
    ensures
        source matches Some(rest) ==> rest.skip(0) == rest && rest.take(0) == Seq::<u8>::empty(),
{
    match source {
        Some(rest) => {
            assert(rest.skip(0) =~= rest);
            assert(rest.take(0) =~= Seq::<u8>::empty());
        },
        None => {},
    }
}

/// What the engine keeps of its past, for its contracts.
pub struct Trace<S> {
    /// The events emitted so far.
    pub events: Seq<Event>,
    /// The bytes obtained from the reader so far.
    pub input: Seq<u8>,
    /// The state of the strategy when the stream was made.
    pub origin: S,
    /// Whether the last event is an `End` that was emitted because the input
    /// ended, not because the strategy found a boundary.
    pub tail_closed: bool,
    /// The pieces that the reader handed out, in order.
    pub feeds: Seq<Seq<u8>>,
}

/// Whether the chunks of a trace are those that the strategy makes of the
/// emitted bytes when it sees them at once: every closed chunk ends at the
/// first boundary from its start, but for one that the end of the input
/// closed, and the open chunk holds no boundary before its last byte.
pub open spec fn canonical<I: ChunkerImpl>(
    status: EmitStatus,
    state: I::State,
    t: Trace<I::State>,
) -> bool {
    let closed = closed_chunks(t.events);
    let open = open_chunk(t.events);
    let start = chunk_start::<I>(t.origin, closed.len());
    let whole = if t.tail_closed {
        closed.len() - 1
    } else {
        closed.len() as int
    };
    &&& forall|j: int|
        0 <= j < whole ==> I::boundary(chunk_start::<I>(t.origin, j as nat), #[trigger] closed[j])
            == Some(closed[j].len() - 1)
    &&& t.tail_closed ==> closed.len() >= 1 && I::boundary(
        chunk_start::<I>(t.origin, (closed.len() - 1) as nat),
        closed.last(),
    ) is None
    &&& status is Data ==> I::boundary(start, open) is None && state == I::advance(start, open)
    &&& status is AtSplit ==> I::boundary(start, open) == Some(open.len() - 1)
}

/// Whether the chunks of a trace keep to the limit of the strategy, where it
/// sets one: no chunk holds more bytes than the strategy let it take at its
/// start, and the open chunk leaves the strategy the others.
pub open spec fn sized<I: ChunkerImpl>(
    status: EmitStatus,
    state: I::State,
    t: Trace<I::State>,
) -> bool {
    let closed = closed_chunks(t.events);
    let open = open_chunk(t.events);
    let limit = I::room(chunk_start::<I>(t.origin, closed.len()));
    &&& forall|j: int|
        0 <= j < closed.len() && I::room(chunk_start::<I>(t.origin, j as nat)) is Some ==> (
        #[trigger] closed[j]).len() <= I::room(chunk_start::<I>(t.origin, j as nat))->0
    &&& limit is Some ==> match status {
        EmitStatus::Data => open.len() < limit->0 && I::room(state) == Some(
            (limit->0 - open.len()) as nat,
        ),
        EmitStatus::AtSplit => open.len() <= limit->0,
        EmitStatus::End => true,
    }
}

/// Whether a trace fits a stream with the given status, strategy state and
/// pending bytes, whose reader has reported the end of the input if `ended`.
pub open spec fn coherent<I: ChunkerImpl>(
    status: EmitStatus,
    state: I::State,
    pending: Seq<u8>,
    ended: bool,
    t: Trace<I::State>,
) -> bool {
    &&& well_ordered(t.events)
    &&& bytes_of(t.events) + pending == t.input
    &&& match status {
        EmitStatus::End => t.events.len() == 0 || t.events.last() is End,
        _ => t.events.len() > 0 && t.events.last() is Data,
    }
    &&& ended ==> status is End && pending.len() == 0
    &&& t.tail_closed ==> ended && t.events.len() > 0
    &&& I::fresh(state) == I::fresh(t.origin)
    &&& I::ready(I::fresh(t.origin))
    &&& !(status is AtSplit) ==> I::ready(state)
    &&& status is End && !t.tail_closed ==> state == chunk_start::<I>(
        t.origin,
        closed_chunks(t.events).len(),
    )
    &&& I::seam_invariant() ==> canonical::<I>(status, state, t)
    &&& sized::<I>(status, state, t)
    &&& t.input == joined(t.feeds)
    &&& replays::<I>(status, state, pending, t)
}

/// The `End` that follows the last data of a chunk, with the reset of the
/// strategy, keeps a trace coherent.
proof fn lemma_close_chunk<I: ChunkerImpl>(
    state: I::State,
    pending: Seq<u8>,
    t: Trace<I::State>,
)
    requires
        coherent::<I>(EmitStatus::AtSplit, state, pending, false, t),
    ensures
        coherent::<I>(
            EmitStatus::End,
            I::fresh(state),
            pending,
            false,
            Trace { events: t.events.push(Event::End), tail_closed: false, ..t },
        ),
{
    let t2 = Trace { events: t.events.push(Event::End), tail_closed: false, ..t };
    lemma_push_end(t.events);
    I::lemma_fresh(state, Seq::empty());
    let before = Engine { status: EmitStatus::AtSplit, state, events: t.events, pending };
    let after = Engine {
        status: EmitStatus::End,
        state: I::fresh(state),
        events: t2.events,
        pending,
    };
    assert(drained::<I>(before) == drained::<I>(after));
    let old_closed = closed_chunks(t.events);
    let closed = closed_chunks(t2.events);
    assert(closed.len() == old_closed.len() + 1);
    assert forall|j: int|
        0 <= j < closed.len() && I::room(chunk_start::<I>(t2.origin, j as nat)) is Some implies (
    #[trigger] closed[j]).len() <= I::room(chunk_start::<I>(t2.origin, j as nat))->0 by {
        if j < old_closed.len() {
            assert(closed[j] == old_closed[j]);
        }
    }
    if I::seam_invariant() {
        assert forall|j: int| 0 <= j < closed.len() implies I::boundary(
            chunk_start::<I>(t2.origin, j as nat),
            #[trigger] closed[j],
        ) == Some(closed[j].len() - 1) by {
            if j < old_closed.len() {
                assert(closed[j] == old_closed[j]);
            }
        }
    }
}

/// The `End` that follows the end of the input keeps a trace coherent.
proof fn lemma_close_tail<I: ChunkerImpl>(state: I::State, t: Trace<I::State>)
    requires
        coherent::<I>(EmitStatus::Data, state, Seq::empty(), false, t),
    ensures
        coherent::<I>(
            EmitStatus::End,
            state,
            Seq::empty(),
            true,
            Trace { events: t.events.push(Event::End), tail_closed: true, ..t },
        ),
{
    let t2 = Trace { events: t.events.push(Event::End), tail_closed: true, ..t };
    lemma_push_end(t.events);
    let before = Engine {
        status: EmitStatus::Data,
        state,
        events: t.events,
        pending: Seq::<u8>::empty(),
    };
    assert(drained::<I>(before) == before);
    let old_closed = closed_chunks(t.events);
    let closed = closed_chunks(t2.events);
    assert forall|j: int|
        0 <= j < closed.len() && I::room(chunk_start::<I>(t2.origin, j as nat)) is Some implies (
    #[trigger] closed[j]).len() <= I::room(chunk_start::<I>(t2.origin, j as nat))->0 by {
        if j < old_closed.len() {
            assert(closed[j] == old_closed[j]);
        }
    }
    if I::seam_invariant() {
        assert forall|j: int| 0 <= j < closed.len() - 1 implies I::boundary(
            chunk_start::<I>(t2.origin, j as nat),
            #[trigger] closed[j],
        ) == Some(closed[j].len() - 1) by {
            assert(closed[j] == old_closed[j]);
        }
        assert(closed.last() == open_chunk(t.events));
    }
}

/// New bytes from the reader keep a trace coherent.
proof fn lemma_feed<I: ChunkerImpl>(
    status: EmitStatus,
    state: I::State,
    t: Trace<I::State>,
    fed: Seq<u8>,
)
    requires
        coherent::<I>(status, state, Seq::empty(), false, t),
        !(status is AtSplit),
    ensures
        coherent::<I>(
            status,
            state,
            fed,
            false,
            Trace { input: t.input + fed, feeds: t.feeds.push(fed), ..t },
        ),
{
    assert(bytes_of(t.events) + Seq::<u8>::empty() =~= bytes_of(t.events));
    let feeds = t.feeds.push(fed);
    assert(feeds.drop_last() =~= t.feeds);
    let before = Engine { status, state, events: t.events, pending: Seq::<u8>::empty() };
    assert(drained::<I>(before) == before);
    assert(Engine { pending: fed, ..before } == Engine {
        pending: feeds.last(),
        ..replayed::<I>(t.origin, feeds.drop_last())
    });
}

/// The data event of a view that the strategy was shown keeps a trace coherent.
proof fn lemma_emit<I: ChunkerImpl>(
    status: EmitStatus,
    state: I::State,
    view: Seq<u8>,
    t: Trace<I::State>,
)
    requires
        coherent::<I>(status, state, view, false, t),
        !(status is AtSplit),
        view.len() > 0,
    ensures
        match I::boundary(state, view) {
            Some(k) => 0 <= k < view.len() && coherent::<I>(
                EmitStatus::AtSplit,
                I::advance(state, view),
                view.skip(k + 1),
                false,
                Trace {
                    events: t.events.push(Event::Data(view.take(k + 1))),
                    tail_closed: false,
                    ..t
                },
            ),
            None => coherent::<I>(
                EmitStatus::Data,
                I::advance(state, view),
                Seq::empty(),
                false,
                Trace { events: t.events.push(Event::Data(view)), tail_closed: false, ..t },
            ),
        },
{
    let open = open_chunk(t.events);
    let closed = closed_chunks(t.events);
    let start = chunk_start::<I>(t.origin, closed.len());
    I::lemma_boundary_in_view(state, view);
    I::lemma_fresh(state, view);
    I::lemma_room(state, view);
    I::lemma_ready(state, view);
    if status is End {
        assert(open =~= Seq::<u8>::empty());
    }
    let seamless = I::seam_invariant();
    if seamless {
        I::lemma_boundary_in_view(start, open);
        I::lemma_advance_empty(start);
        I::lemma_seam(start, open, view);
    }
    match I::boundary(state, view) {
        Some(k) => {
            let d = view.take(k + 1);
            let t2 = Trace { events: t.events.push(Event::Data(d)), tail_closed: false, ..t };
            lemma_push_data(t.events, d);
            let before = Engine { status, state, events: t.events, pending: view };
            let after = Engine {
                status: EmitStatus::AtSplit,
                state: I::advance(state, view),
                events: t2.events,
                pending: view.skip(k + 1),
            };
            assert(drained::<I>(before) == drained::<I>(after));
            assert(d + view.skip(k + 1) =~= view);
            assert(bytes_of(t2.events) + view.skip(k + 1) =~= t.input);
            if seamless {
                let x = open + d;
                let y = view.skip(k + 1);
                assert(x + y =~= open + view);
                I::lemma_seam(start, x, y);
                I::lemma_boundary_in_view(start, x);
                I::lemma_boundary_in_view(I::advance(start, x), y);
                assert(I::boundary(start, x) == Some(x.len() - 1));
            }
        },
        None => {
            let t2 = Trace { events: t.events.push(Event::Data(view)), tail_closed: false, ..t };
            lemma_push_data(t.events, view);
            let before = Engine { status, state, events: t.events, pending: view };
            let after = Engine {
                status: EmitStatus::Data,
                state: I::advance(state, view),
                events: t2.events,
                pending: Seq::<u8>::empty(),
            };
            assert(drained::<I>(before) == after);
            assert(drained::<I>(after) == after);
            assert(bytes_of(t2.events) + Seq::<u8>::empty() =~= t.input);
        },
    }
}

/// A stream of chunk events read from `reader` and divided by `inner`.
pub struct ChunkStream<R: Reader, I: ChunkerImpl> {
    reader: R,
    inner: I,
    buffer: [u8; BUF_SIZE],
    /// How much of the buffer has been read in from the reader.
    len: usize,
    /// Where we are in handling the buffer.
    pos: usize,
    status: EmitStatus,
    /// Whether the reader has reported the end of the input.
    ended: bool,
    trace: Ghost<Trace<I::State>>,
    /// What the reader answered to each read, in order.
    answers: Ghost<Seq<Result<usize, R::Error>>>,
}

impl<R: Reader, I: ChunkerImpl> ChunkStream<R, I> {
    /// The events emitted so far.
    pub closed spec fn events(&self) -> Seq<Event> {
        self.trace@.events
    }

    /// The bytes obtained from the reader so far.
    pub closed spec fn input(&self) -> Seq<u8> {
        self.trace@.input
    }

    /// The bytes that were read and are not emitted yet.
    pub closed spec fn pending(&self) -> Seq<u8> {
        self.buffer@.subrange(self.pos as int, self.len as int)
    }

    /// What the engine emitted last.
    pub closed spec fn status(&self) -> EmitStatus {
        self.status
    }

    /// The state of the strategy.
    pub closed spec fn strategy(&self) -> I::State {
        self.inner.state()
    }

    /// The state of the strategy when the stream was made.
    pub closed spec fn origin(&self) -> I::State {
        self.trace@.origin
    }

    /// Whether the reader has reported the end of the input. The stream asks
    /// the reader for nothing after that.
    pub closed spec fn ended(&self) -> bool {
        self.ended
    }

    /// Whether the last event is an `End` that the end of the input caused.
    pub closed spec fn tail_closed(&self) -> bool {
        self.trace@.tail_closed
    }

    /// The bytes that the reader will still hand out, where they are known.
    pub closed spec fn source(&self) -> Option<Seq<u8>> {
        self.reader.script()
    }

    /// The number of bytes that the reader hands out next, into the whole
    /// buffer of `BUF_SIZE` bytes, where it is known.
    pub closed spec fn next_piece(&self) -> Option<nat> {
        self.reader.serving(BUF_SIZE as nat)
    }

    /// What the reader answered to each read that it was asked for so far,
    /// in order: a number of bytes, or an error.
    pub closed spec fn answers(&self) -> Seq<Result<usize, R::Error>> {
        self.answers@
    }

    /// The number of reads that the reader was asked for so far, each into
    /// the whole buffer of `BUF_SIZE` bytes.
    pub open spec fn reads(&self) -> nat {
        self.answers().len()
    }

    /// The first bytes of the buffer, as many as the last read put there.
    spec fn arrived(&self, n: usize) -> Seq<u8> {
        self.buffer@.take(n as int)
    }

    /// The pieces that the reader handed out so far, in order.
    pub closed spec fn feeds(&self) -> Seq<Seq<u8>> {
        self.trace@.feeds
    }

    /// Whether the next event takes a read: no `End` and no bytes are
    /// pending, and the reader has not reported the end of the input.
    pub open spec fn wants_input(&self) -> bool {
        !(self.status() is AtSplit) && self.pending().len() == 0 && !self.ended()
    }

    /// The state in which the strategy started the chunk that is open.
    pub open spec fn open_start(&self) -> I::State {
        chunk_start::<I>(self.origin(), closed_chunks(self.events()).len())
    }

    /// The invariant of the stream.
    pub closed spec fn wf(&self) -> bool {
        &&& self.pos <= self.len <= BUF_SIZE
        &&& self.inner.inv()
        &&& self.ended && self.reader.script() is Some ==> self.reader.script()->0.len() == 0
        &&& coherent::<I>(
            self.status,
            self.inner.state(),
            self.pending(),
            self.ended,
            self.trace@,
        )
    }

    /// How a stream that shows `view` to its strategy goes from `pre` to
    /// `post`, and the data event `ev` that it emits: the bytes up to the
    /// boundary where the strategy finds one in `view`, else all of `view`.
    pub open spec fn data_step(pre: Self, post: Self, view: Seq<u8>, ev: Event) -> bool {
        &&& post.strategy() == I::advance(pre.strategy(), view)
        &&& post.events() == pre.events().push(ev)
        &&& !post.tail_closed()
        &&& !post.ended()
        &&& ev matches Event::Data(d) && d.len() > 0
        &&& match I::boundary(pre.strategy(), view) {
            Some(k) => {
                &&& ev == Event::Data(view.take(k + 1))
                &&& post.pending() == view.skip(k + 1)
                &&& post.status() is AtSplit
            },
            None => {
                &&& ev == Event::Data(view)
                &&& post.pending() == Seq::<u8>::empty()
                &&& post.status() is Data
            },
        }
    }

    /// How a stream whose reader failed or reported the end of the input goes
    /// from `pre` to `post`, with `ev` the event that it emits, if any.
    pub open spec fn idle_step(pre: Self, post: Self, failed: bool, ev: Option<Event>) -> bool {
        &&& post.strategy() == pre.strategy()
        &&& post.pending() == Seq::<u8>::empty()
        &&& post.ended() == !failed
        &&& if failed {
            &&& ev is None
            &&& post.events() == pre.events()
            &&& post.status() == pre.status()
            &&& post.tail_closed() == pre.tail_closed()
        } else if pre.status() is Data {
            &&& ev == Some(Event::End)
            &&& post.events() == pre.events().push(Event::End)
            &&& post.status() is End
            &&& post.tail_closed()
        } else {
            &&& ev is None
            &&& post.events() == pre.events()
            &&& post.status() is End
            &&& post.tail_closed() == pre.tail_closed()
        }
    }

    /// What the invariant says of the trace: the events are well ordered, and
    /// the bytes emitted, with those that are pending, are the bytes read.
    pub proof fn lemma_wf(self)
        requires
            self.wf(),
        ensures
            well_ordered(self.events()),
            bytes_of(self.events()) + self.pending() == self.input(),
            self.status() is End <==> self.events().len() == 0 || self.events().last() is End,
            self.ended() ==> self.status() is End && self.pending().len() == 0,
            self.ended() && self.source() is Some ==> self.source()->0.len() == 0,
            self.tail_closed() ==> self.ended(),
            I::fresh(self.strategy()) == I::fresh(self.origin()),
            !(self.status() is AtSplit) ==> I::ready(self.strategy()),
            self.status() is End && !self.tail_closed() ==> self.strategy() == self.open_start(),
    {
    }

    /// Where the strategy sets a limit, no chunk of the stream holds more
    /// bytes than the strategy let it take at its start.
    pub proof fn lemma_chunks_keep_limit(self, j: int)
        requires
            self.wf(),
            0 <= j < all_chunks_of(self.events()).len(),
        ensures
            I::room(chunk_start::<I>(self.origin(), j as nat)) matches Some(limit)
                ==> all_chunks_of(self.events())[j].len() <= limit,
    {
    }

    /// The chunks that a stream has emitted do not depend on the pieces in
    /// which the reader handed out the bytes, where the strategy is seam
    /// invariant: they are the chunks that the strategy makes of the emitted
    /// bytes when it sees them at once.
    pub proof fn lemma_chunks_are_canonical(self)
        requires
            self.wf(),
            I::seam_invariant(),
        ensures
            all_chunks_of(self.events()) == chunking::<I>(self.origin(), bytes_of(self.events())),
    {
        let closed = closed_chunks(self.events());
        let open = open_chunk(self.events());
        lemma_bytes_of_chunks(self.events());
        if self.tail_closed() {
            lemma_closed_chunks_nonempty(self.events(), closed.len() - 1);
        }
        lemma_canonical_chunking::<I>(self.origin(), closed, open, self.tail_closed());
    }

    /// The events of a stream are fixed by the state in which its strategy
    /// started and the pieces that the reader handed out: when the input has
    /// ended they are the events of the whole run over those pieces, and the
    /// bytes read are the pieces, one after the other.
    pub proof fn lemma_events_follow_feeds(self)
        requires
            self.wf(),
        ensures
            self.input() == joined(self.feeds()),
            self.ended() ==> self.events() == run_events::<I>(self.origin(), self.feeds()),
    {
        if self.ended() && !self.tail_closed() {
            let e = Engine {
                status: self.status(),
                state: self.strategy(),
                events: self.events(),
                pending: self.pending(),
            };
            assert(drained::<I>(e) == e);
        }
    }

    /// A stream over `reader` that has emitted nothing yet.
    pub(crate) fn new(reader: R, inner: I) -> (stream: Self)
        requires
            inner.inv(),
            I::ready(inner.state()),
        ensures
            stream.wf(),
            stream.events() == Seq::<Event>::empty(),
            stream.input() == Seq::<u8>::empty(),
            stream.pending() == Seq::<u8>::empty(),
            stream.status() is End,
            stream.strategy() == inner.state(),
            stream.origin() == inner.state(),
            !stream.ended(),
            stream.answers() == Seq::<Result<usize, R::Error>>::empty(),
            stream.feeds() == Seq::<Seq<u8>>::empty(),
            stream.source() == reader.script(),
            stream.next_piece() == reader.serving(BUF_SIZE as nat),
    {
        let ghost origin = inner.state();
        let stream = ChunkStream {
            reader,
            inner,
            buffer: [0u8; BUF_SIZE],
            len: 0,
            pos: 0,
            status: EmitStatus::End,
            ended: false,
            answers: Ghost(Seq::empty()),
            trace: Ghost(
                Trace {
                    events: Seq::empty(),
                    input: Seq::empty(),
                    origin,
                    tail_closed: false,
                    feeds: Seq::empty(),
                },
            ),
        };
        proof {
            assert(stream.pending() =~= Seq::<u8>::empty());
            assert(bytes_of(stream.events()) + stream.pending() =~= stream.input());
            I::lemma_boundary_in_view(origin, Seq::empty());
            I::lemma_ready(origin, Seq::empty());
        }
        stream
    }

    /// The next event of the stream: some data of the current chunk, or
    /// `End` at the boundary between chunks and after the last chunk; `None`
    /// when the input has ended and the last chunk is closed.
    ///
    /// A pending `End` comes first. Otherwise the strategy is shown the bytes
    /// that are pending, after a read where none are; the data up to the
    /// boundary that it finds is emitted, or all of it. An error of the
    /// reader is handed on as it is, and no event is emitted.
    pub fn read<'a>(&'a mut self) -> (res: Option<Result<ChunkInput<'a>, R::Error>>)
        requires
            old(self).wf(),
        ensures
            final(self).wf(),
            final(self).origin() == old(self).origin(),
            old(self).input().is_prefix_of(final(self).input()),
            old(self).answers().is_prefix_of(final(self).answers()),
            final(self).reads() == old(self).reads() + if old(self).wants_input() {
                1nat
            } else {
                0nat
            },
            old(self).wants_input() ==> ({
                let piece = old(self).next_piece();
                piece is Some ==> final(self).answers().last() == Ok::<usize, R::Error>(
                    piece->0 as usize,
                )
            }),
            old(self).wants_input() ==> match final(self).answers().last() {
                Err(e) => res == Some(Err::<ChunkInput<'a>, R::Error>(e)),
                Ok(n) => !(res matches Some(Err(_))) && final(self).input().len()
                    == old(self).input().len() + n,
            },
            old(self).source() matches Some(rest) ==> {
                let fed = final(self).input().skip(old(self).input().len() as int);
                &&& !(res matches Some(Err(_)))
                &&& fed.len() <= rest.len()
                &&& fed == rest.take(fed.len() as int)
                &&& final(self).source() == Some(rest.skip(fed.len() as int))
                &&& old(self).wants_input() && rest.len() > 0 ==> fed.len() > 0
            },
            !old(self).wants_input() ==> final(self).source() == old(self).source(),
            ({
                let fed = final(self).input().skip(old(self).input().len() as int);
                final(self).feeds() == if fed.len() > 0 {
                    old(self).feeds().push(fed)
                } else {
                    old(self).feeds()
                }
            }),
            ({
                let pre = *old(self);
                let post = *final(self);
                let fed = post.input().skip(pre.input().len() as int);
                if pre.status() is AtSplit {
                    &&& res matches Some(Ok(c))
                    &&& c.event() == Event::End
                    &&& post.events() == pre.events().push(Event::End)
                    &&& post.status() is End
                    &&& !post.tail_closed()
                    &&& post.strategy() == I::fresh(pre.strategy())
                    &&& post.pending() == pre.pending()
                    &&& !post.ended()
                    &&& fed.len() == 0
                } else if pre.pending().len() > 0 {
                    &&& fed.len() == 0
                    &&& res matches Some(Ok(c))
                    &&& Self::data_step(pre, post, pre.pending(), c.event())
                } else if pre.ended() {
                    &&& res is None
                    &&& fed.len() == 0
                    &&& post.events() == pre.events()
                    &&& post.status() is End
                    &&& post.strategy() == pre.strategy()
                    &&& post.pending() == pre.pending()
                    &&& post.tail_closed() == pre.tail_closed()
                    &&& post.ended()
                } else if fed.len() > 0 {
                    &&& fed.len() <= BUF_SIZE
                    &&& res matches Some(Ok(c))
                    &&& Self::data_step(pre, post, fed, c.event())
                } else {
                    match res {
                        Some(Err(_)) => Self::idle_step(pre, post, true, None),
                        Some(Ok(c)) => Self::idle_step(pre, post, false, Some(c.event())),
                        None => Self::idle_step(pre, post, false, None),
                    }
                }
            }),
    {
        let ghost pre = *self;
        proof {
            lemma_none_taken(pre.source());
        }
        if let EmitStatus::AtSplit = self.status {
            self.close_chunk();
            proof {
                assert(self.input().skip(pre.input().len() as int).len() == 0);
            }
            return Some(Ok(ChunkInput::End));
        }
        if self.pos == self.len {
            if self.ended {
                proof {
                    assert(self.input().skip(pre.input().len() as int).len() == 0);
                }
                return None;
            }
            let got = self.refill();
            return self.after_read(got);
        }
        proof {
            assert(self.input().skip(pre.input().len() as int).len() == 0);
        }
        Some(Ok(self.emit()))
    }

    /// What the stream does with the answer `got` of the reader to a read
    /// into its empty buffer. An error is handed on as it is, and nothing
    /// else changes. With no bytes the input has ended: the chunk that is
    /// open gets its `End`, and where none is open the stream has ended. Else
    /// the strategy is shown the bytes that have arrived, and their data event
    /// is emitted.
    fn after_read<'a>(&'a mut self, got: Result<usize, R::Error>) -> (res: Option<
        Result<ChunkInput<'a>, R::Error>,
    >)
        requires
            old(self).wf(),
            !(old(self).status() is AtSplit),
            !old(self).ended(),
            old(self).pos == 0,
            old(self).len == 0,
            got matches Ok(n) ==> n <= BUF_SIZE,
            got matches Ok(n) ==> n == 0 && old(self).source() is Some
                ==> old(self).source()->0.len() == 0,
        ensures
            final(self).wf(),
            final(self).origin() == old(self).origin(),
            final(self).answers() == old(self).answers(),
            final(self).source() == old(self).source(),
            old(self).input().is_prefix_of(final(self).input()),
            final(self).input().skip(old(self).input().len() as int) == match got {
                Err(_) => Seq::<u8>::empty(),
                Ok(n) => old(self).arrived(n),
            },
            match got {
                Err(e) => {
                    &&& res == Some(Err::<ChunkInput<'a>, R::Error>(e))
                    &&& Self::idle_step(*old(self), *final(self), true, None)
                    &&& final(self).input() == old(self).input()
                    &&& final(self).feeds() == old(self).feeds()
                },
                Ok(n) => if n == 0 {
                    &&& Self::idle_step(
                        *old(self),
                        *final(self),
                        false,
                        match res {
                            Some(Ok(c)) => Some(c.event()),
                            _ => None,
                        },
                    )
                    &&& !(res matches Some(Err(_)))
                    &&& res is Some <==> old(self).status() is Data
                    &&& final(self).input() == old(self).input()
                    &&& final(self).feeds() == old(self).feeds()
                } else {
                    &&& res matches Some(Ok(c))
                    &&& Self::data_step(
                        *old(self),
                        *final(self),
                        old(self).arrived(n),
                        c.event(),
                    )
                    &&& final(self).input() == old(self).input() + old(self).arrived(n)
                    &&& final(self).feeds() == old(self).feeds().push(old(self).arrived(n))
                },
            },
    {
        proof {
            assert(self.pending() =~= Seq::<u8>::empty());
            assert(self.input().skip(self.input().len() as int) =~= Seq::<u8>::empty());
            assert(self.arrived(0) =~= Seq::<u8>::empty());
        }
        match got {
            Err(e) => Some(Err(e)),
            Ok(n) => {
                if n == 0 {
                    self.ended = true;
                    if let EmitStatus::Data = self.status {
                        self.status = EmitStatus::End;
                        proof {
                            lemma_close_tail::<I>(self.inner.state(), self.trace@);
                            self.trace@.events = self.trace@.events.push(Event::End);
                            self.trace@.tail_closed = true;
                        }
                        return Some(Ok(ChunkInput::End));
                    }
                    return None;
                }
                self.len = n;
                proof {
                    assert(self.pending() =~= self.arrived(n));
                    lemma_feed::<I>(self.status, self.inner.state(), self.trace@, self.pending());
                    let before = self.trace@.input;
                    self.trace@.input = self.trace@.input + self.pending();
                    self.trace@.feeds = self.trace@.feeds.push(self.pending());
                    assert(self.trace@.input.skip(before.len() as int) =~= self.arrived(n));
                }
                Some(Ok(self.emit()))
            },
        }
    }

    /// Shows the pending bytes to the strategy and emits their data: the
    /// bytes up to the boundary that the strategy finds, or all of them.
    fn emit<'a>(&'a mut self) -> (data: ChunkInput<'a>)
        requires
            old(self).wf(),
            !(old(self).status() is AtSplit),
            old(self).pending().len() > 0,
        ensures
            final(self).wf(),
            final(self).origin() == old(self).origin(),
            final(self).input() == old(self).input(),
            final(self).feeds() == old(self).feeds(),
            final(self).answers() == old(self).answers(),
            final(self).source() == old(self).source(),
            Self::data_step(*old(self), *final(self), old(self).pending(), data.event()),
    {
        let ghost view = self.pending();
        let ghost before = self.inner.state();
        let found = self.inner.find_boundary(
            slice_subrange(self.buffer.as_slice(), self.pos, self.len),
        );
        proof {
            lemma_emit::<I>(self.status, before, view, self.trace@);
        }
        let from: usize = self.pos;
        if let Some(split) = found {
            self.status = EmitStatus::AtSplit;
            self.pos += split + 1;
            proof {
                self.trace@.events = self.trace@.events.push(Event::Data(view.take(split + 1)));
                self.trace@.tail_closed = false;
                assert(self.pending() =~= view.skip(split + 1));
                assert(self.buffer@.subrange(from as int, self.pos as int) =~= view.take(
                    split + 1,
                ));
            }
        } else {
            self.pos = self.len;
            self.status = EmitStatus::Data;
            proof {
                self.trace@.events = self.trace@.events.push(Event::Data(view));
                self.trace@.tail_closed = false;
                assert(self.pending() =~= Seq::<u8>::empty());
                assert(self.buffer@.subrange(from as int, self.pos as int) =~= view);
            }
        }
        ChunkInput::Data(slice_subrange(self.buffer.as_slice(), from, self.pos))
    }

    /// Emits the `End` of the chunk whose last data was emitted, and resets
    /// the strategy.
    fn close_chunk(&mut self)
        requires
            old(self).wf(),
            old(self).status() is AtSplit,
        ensures
            final(self).wf(),
            final(self).origin() == old(self).origin(),
            final(self).input() == old(self).input(),
            final(self).answers() == old(self).answers(),
            final(self).feeds() == old(self).feeds(),
            final(self).source() == old(self).source(),
            !final(self).ended(),
            final(self).events() == old(self).events().push(Event::End),
            final(self).status() is End,
            !final(self).tail_closed(),
            final(self).strategy() == I::fresh(old(self).strategy()),
            final(self).pending() == old(self).pending(),
    {
        proof {
            lemma_close_chunk::<I>(self.inner.state(), self.pending(), self.trace@);
        }
        self.status = EmitStatus::End;
        self.inner.reset();
        proof {
            self.trace@.events = self.trace@.events.push(Event::End);
            self.trace@.tail_closed = false;
        }
    }

    /// Asks the reader for bytes, into the whole buffer, which holds no
    /// pending bytes. Nothing is made of the answer yet.
    fn refill(&mut self) -> (got: Result<usize, R::Error>)
        requires
            old(self).wf(),
            !(old(self).status() is AtSplit),
            !old(self).ended(),
            old(self).pending().len() == 0,
        ensures
            final(self).wf(),
            final(self).pos == 0,
            final(self).len == 0,
            final(self).origin() == old(self).origin(),
            final(self).events() == old(self).events(),
            final(self).status() == old(self).status(),
            final(self).strategy() == old(self).strategy(),
            final(self).tail_closed() == old(self).tail_closed(),
            final(self).input() == old(self).input(),
            final(self).feeds() == old(self).feeds(),
            final(self).answers() == old(self).answers().push(got),
            !final(self).ended(),
            got matches Ok(n) ==> n <= BUF_SIZE,
            old(self).next_piece() matches Some(k) ==> (got matches Ok(n) && n == k),
            old(self).source() matches Some(rest) ==> {
                &&& got matches Ok(n)
                &&& n <= rest.len()
                &&& final(self).arrived(n) == rest.take(n as int)
                &&& final(self).source() == Some(rest.skip(n as int))
                &&& n == 0 ==> rest.len() == 0
            },
            old(self).source() is None ==> final(self).source() is None,
    {
        proof {
            assert(self.pending() =~= Seq::<u8>::empty());
        }
        self.pos = 0;
        self.len = 0;
        let got = self.reader.read(vstd::array::ref_mut_array_unsizing_coercion(&mut self.buffer));
        proof {
            assert(self.pending() =~= Seq::<u8>::empty());
            self.answers@ = self.answers@.push(got);
        }
        got
    }
}

} // verus!
