//! The byte source's outcomes and the session that consumes them.
//!
//! Reading from the pseudo-terminal and releasing it are left to the caller.
//! This module holds the decisions in between: what a read amounts to, what
//! the session does with it, and when the session is over.

use vstd::prelude::*;
use vstd::slice::{slice_subrange, slice_to_vec};
use crate::decoder::{decode, lemma_decode_split, Decoder};
use crate::event::{Event, EventModel};

verus! {

/// The most that one read asks of the pseudo-terminal, in bytes.
pub const READ_CAPACITY: usize = 65536;

/// Why a stream ended. Both ways end the session; the difference is kept for
/// diagnostics only.
#[derive(Debug, Clone, Copy, PartialEq, Eq)]
pub enum StreamEnd {
    /// A read returned no bytes.
    Closed,
    /// A read failed with this error number.
    Failed(i32),
}

/// What one read from the byte source amounts to.
#[derive(Debug, Clone, PartialEq, Eq)]
pub enum ReadOutcome {
    /// At least one byte of output.
    Chunk(Vec<u8>),
    /// Nothing more will come.
    EndOfStream(StreamEnd),
}

/// What a [`ReadOutcome`] means.
pub enum OutcomeModel {
    Chunk(Seq<u8>),
    EndOfStream(StreamEnd),
}

impl View for ReadOutcome {
    type V = OutcomeModel;

    open spec fn view(&self) -> OutcomeModel {
        match *self {
            ReadOutcome::Chunk(bytes) => OutcomeModel::Chunk(bytes@),
            ReadOutcome::EndOfStream(end) => OutcomeModel::EndOfStream(end),
        }
    }
}

/// The outcome of a read that returned `result` and left its bytes at the
/// front of `buffer`: a chunk of the bytes read if there are any, the end of
/// the stream on a read of nothing and on every error.
pub open spec fn outcome_of_read(buffer: Seq<u8>, result: Result<usize, i32>) -> OutcomeModel {
    match result {
        Ok(count) => if count == 0 {
            OutcomeModel::EndOfStream(StreamEnd::Closed)
        } else {
            OutcomeModel::Chunk(buffer.take(count as int))
        },
        Err(code) => OutcomeModel::EndOfStream(StreamEnd::Failed(code)),
    }
}

/// Classifies one read. `result` is the number of bytes the read stored at
/// the front of `buffer`, or the error number it failed with.
pub fn read_outcome(buffer: &[u8], result: Result<usize, i32>) -> (outcome: ReadOutcome)
    requires
        result matches Ok(count) ==> count <= buffer@.len(),
    ensures
        outcome@ == outcome_of_read(buffer@, result),
{
    match result {
        Ok(count) => {
            if count == 0 {
                ReadOutcome::EndOfStream(StreamEnd::Closed)
            } else {
                ReadOutcome::Chunk(slice_to_vec(slice_subrange(buffer, 0, count)))
            }
        },
        Err(code) => ReadOutcome::EndOfStream(StreamEnd::Failed(code)),
    }
}

/// Whether a session still reads.
#[derive(Debug, Clone, Copy, PartialEq, Eq)]
pub enum SessionState {
    /// The child is attached and the read loop is active.
    Running,
    /// The stream has ended and the handles are to be released.
    Terminated,
}

/// What the caller of a session has to do after handing it a read.
#[derive(Debug, Clone, PartialEq, Eq)]
pub enum Step {
    /// Pass these events on, then read again.
    Decoded(Vec<Event>),
    /// The stream has just ended: release the handles and stop reading.
    Finished(StreamEnd),
    /// The session was over already: there is nothing to do.
    Idle,
}

/// What a [`Step`] means.
pub enum StepModel {
    Decoded(Seq<EventModel>),
    Finished(StreamEnd),
    Idle,
}

impl View for Step {
    type V = StepModel;

    open spec fn view(&self) -> StepModel {
        match *self {
            Step::Decoded(events) => StepModel::Decoded(events.deep_view()),
            Step::Finished(end) => StepModel::Finished(end),
            Step::Idle => StepModel::Idle,
        }
    }
}

/// What a session is, as far as its behaviour goes: whether it still runs,
/// and the bytes its decoder has consumed.
pub struct SessionModel {
    pub running: bool,
    pub consumed: Seq<u8>,
}

/// The step a session takes on an outcome.
pub open spec fn step_on(session: SessionModel, outcome: OutcomeModel) -> StepModel {
    if !session.running {
        StepModel::Idle
    } else {
        match outcome {
            OutcomeModel::Chunk(bytes) => StepModel::Decoded(decode(session.consumed, bytes)),
            OutcomeModel::EndOfStream(end) => StepModel::Finished(end),
        }
    }
}

/// The session after an outcome: a running session consumes a chunk and is
/// terminated by the end of the stream; a terminated one never changes.
pub open spec fn after(session: SessionModel, outcome: OutcomeModel) -> SessionModel {
    if !session.running {
        session
    } else {
        match outcome {
            OutcomeModel::Chunk(bytes) => SessionModel {
                running: true,
                consumed: session.consumed + bytes,
            },
            OutcomeModel::EndOfStream(_) => SessionModel {
                running: false,
                consumed: session.consumed,
            },
        }
    }
}

/// The session after a series of outcomes.
pub open spec fn after_all(start: SessionModel, outcomes: Seq<OutcomeModel>) -> SessionModel
    decreases outcomes.len(),
{
    if outcomes.len() == 0 {
        start
    } else {
        after(after_all(start, outcomes.drop_last()), outcomes.last())
    }
}

/// The steps a session takes over a series of outcomes, one for each.
pub open spec fn steps_on(start: SessionModel, outcomes: Seq<OutcomeModel>) -> Seq<StepModel>
    decreases outcomes.len(),
{
    if outcomes.len() == 0 {
        Seq::empty()
    } else {
        steps_on(start, outcomes.drop_last()).push(
            step_on(after_all(start, outcomes.drop_last()), outcomes.last()),
        )
    }
}

/// How many of the steps tell the caller to release the handles.
pub open spec fn finish_count(steps: Seq<StepModel>) -> nat
    decreases steps.len(),
{
    if steps.len() == 0 {
        0
    } else {
        finish_count(steps.drop_last()) + if steps.last() is Finished {
            1nat
        } else {
            0nat
        }
    }
}

/// All events of the steps, in order.
pub open spec fn events_of(steps: Seq<StepModel>) -> Seq<EventModel>
    decreases steps.len(),
{
    if steps.len() == 0 {
        Seq::empty()
    } else {
        events_of(steps.drop_last()) + match steps.last() {
            StepModel::Decoded(events) => events,
            _ => Seq::empty(),
        }
    }
}

/// Whether every outcome is a chunk.
pub open spec fn all_chunks(outcomes: Seq<OutcomeModel>) -> bool {
    forall|i: int| 0 <= i < outcomes.len() ==> #[trigger] outcomes[i] is Chunk
}

/// A pseudo-terminal session: the decoder and the state of the read loop.
pub struct Session {
    state: SessionState,
    decoder: Decoder,
}

impl View for Session {
    type V = SessionModel;

    closed spec fn view(&self) -> SessionModel {
        SessionModel { running: self.state is Running, consumed: self.decoder.consumed() }
    }
}

impl Session {
    /// A running session whose decoder has consumed nothing.
    pub fn new() -> (session: Session)
        ensures
            session@ == (SessionModel { running: true, consumed: Seq::empty() }),
    {
        Session { state: SessionState::Running, decoder: Decoder::new() }
    }

    /// Whether the session still reads.
    pub fn state(&self) -> (state: SessionState)
        ensures
            state is Running == self@.running,
    {
        self.state
    }

    /// Takes the outcome of a read and says what to do next.
    ///
    /// A running session decodes a chunk and stays running; the end of the
    /// stream terminates it. A terminated session ignores whatever it is
    /// given, so the handles are released once and never again.
    pub fn on_read(&mut self, outcome: ReadOutcome) -> (step: Step)
        ensures
            step@ == step_on(old(self)@, outcome@),
            final(self)@ == after(old(self)@, outcome@),
    {
        match self.state {
            SessionState::Terminated => Step::Idle,
            SessionState::Running => match outcome {
                ReadOutcome::Chunk(bytes) => {
                    let events = self.decoder.feed(bytes.as_slice());
                    Step::Decoded(events)
                },
                ReadOutcome::EndOfStream(end) => {
                    self.state = SessionState::Terminated;
                    Step::Finished(end)
                },
            },
        }
    }
}

/// A terminated session stays as it is and takes only idle steps.
pub proof fn lemma_terminated_is_final(start: SessionModel, outcomes: Seq<OutcomeModel>)
    requires
        !start.running,
    ensures
        after_all(start, outcomes) == start,
        finish_count(steps_on(start, outcomes)) == 0,
        events_of(steps_on(start, outcomes)) == Seq::<EventModel>::empty(),
        forall|i: int|
            0 <= i < outcomes.len() ==> #[trigger] steps_on(start, outcomes)[i] is Idle,
        steps_on(start, outcomes).len() == outcomes.len(),
    decreases outcomes.len(),
{
    if outcomes.len() > 0 {
        lemma_terminated_is_final(start, outcomes.drop_last());
        let steps = steps_on(start, outcomes);
        assert(steps.drop_last() =~= steps_on(start, outcomes.drop_last()));
    }
}

/// The end of the stream is acted on exactly once: a session that starts
/// running is terminated by the first end of stream among its reads and by
/// nothing else, and it tells its caller to release the handles in that step
/// only, however many reads follow.
pub proof fn lemma_finishes_once(start: SessionModel, outcomes: Seq<OutcomeModel>)
    requires
        start.running,
    ensures
        after_all(start, outcomes).running == all_chunks(outcomes),
        finish_count(steps_on(start, outcomes)) == if all_chunks(outcomes) {
            0nat
        } else {
            1nat
        },
    decreases outcomes.len(),
{
    if outcomes.len() > 0 {
        let front = outcomes.drop_last();
        lemma_finishes_once(start, front);
        let steps = steps_on(start, outcomes);
        assert(steps.drop_last() =~= steps_on(start, front));
        if all_chunks(front) {
            if outcomes.last() is Chunk {
                assert forall|i: int| 0 <= i < outcomes.len() implies #[trigger] outcomes[i] is Chunk by {
                    if i < front.len() {
                        assert(front[i] is Chunk);
                    }
                }
            } else {
                assert(!(outcomes[outcomes.len() - 1] is Chunk));
            }
        } else {
            let i = choose|i: int| 0 <= i < front.len() && !(#[trigger] front[i] is Chunk);
            assert(!(outcomes[i] is Chunk));
        }
    }
}

/// The events of a session are those of the stream it has consumed, decoded
/// byte by byte: where the reads cut the stream makes no difference.
pub proof fn lemma_session_decodes_stream(start: SessionModel, outcomes: Seq<OutcomeModel>)
    ensures
        start.consumed.is_prefix_of(after_all(start, outcomes).consumed),
        events_of(steps_on(start, outcomes)) == decode(
            start.consumed,
            after_all(start, outcomes).consumed.skip(start.consumed.len() as int),
        ),
    decreases outcomes.len(),
{
    let end = after_all(start, outcomes);
    if outcomes.len() == 0 {
        assert(end.consumed.skip(start.consumed.len() as int) =~= Seq::<u8>::empty());
    } else {
        let front = outcomes.drop_last();
        lemma_session_decodes_stream(start, front);
        let middle = after_all(start, front);
        let steps = steps_on(start, outcomes);
        assert(steps.drop_last() =~= steps_on(start, front));
        let seen = middle.consumed.skip(start.consumed.len() as int);
        assert(start.consumed + seen =~= middle.consumed);
        if middle.running && outcomes.last() is Chunk {
            let bytes = outcomes.last()->Chunk_0;
            lemma_decode_split(start.consumed, seen, bytes);
            assert(end.consumed.skip(start.consumed.len() as int) =~= seen + bytes);
        } else {
            assert(end.consumed == middle.consumed);
            assert(events_of(steps) =~= events_of(steps.drop_last()));
        }
    }
}

} // verus!
