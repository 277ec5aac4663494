//! The decoder: a byte stream in, a sequence of events out.
//!
//! A [`Decoder`] is fed bytes one at a time or in chunks of any size. What it
//! hands back depends only on the bytes it has consumed so far, in order; how
//! they were cut into chunks makes no difference. [`decode`] states this as a
//! function of the stream, and the lemmas below prove the consequences.
//!
//! The parser frames the sequences, and the rules of [`crate::rules`] decide
//! what they carry. To apply them the decoder keeps a [`Track`] of the
//! stream: where it stands and which bytes of the sequence in progress it
//! still needs.

use vstd::prelude::*;
use crate::event::{Event, EventModel};
use crate::rules::{
    break_events, breaks, breaks_off, broken_events, is_break, is_escape, mode_after, next_mode,
    pending_after, settle, settled, settled_call, settled_calls, update_pending, Mode,
};
use crate::vt::{
    is_plain, is_plain_text, new_parser, parser_state, raw_events, record_byte, settles,
    starts_anew, state_after, Recorder,
};

verus! {

/// What the decoder knows of the stream behind it.
#[verifier::ext_equal]
pub struct Track {
    /// Where the decoder stands.
    pub mode: Mode,
    /// The bytes kept for the sequence in progress.
    pub pending: Seq<u8>,
    /// The bytes the parser has been given that can still show in what it
    /// does: those since it was last in its ground state for certain, or
    /// from the last escape byte on that it took as one.
    pub tail: Seq<u8>,
}

/// The track of a decoder that has consumed nothing.
pub open spec fn track_start() -> Track {
    Track { mode: Mode::Outside, pending: Seq::empty(), tail: Seq::empty() }
}

/// The track after one more byte.
///
/// A control byte that breaks a string off never reaches the parser: the
/// string is dropped, the parser is made anew, and the decoder stands where
/// it stood at the start. Every other byte goes to the parser.
pub open spec fn step_track(track: Track, byte: u8) -> Track {
    if breaks_off(track.mode, byte) {
        track_start()
    } else {
        let calls = raw_events(track.tail, byte);
        let next = mode_after(track.mode, byte, calls);
        Track {
            mode: next,
            pending: pending_after(track.mode, next, track.pending, byte, calls),
            tail: if is_escape(byte, calls) {
                seq![byte]
            } else if settles(calls) {
                Seq::empty()
            } else {
                track.tail.push(byte)
            },
        }
    }
}

/// The events of one more byte.
pub open spec fn step_events(track: Track, byte: u8) -> Seq<EventModel> {
    if breaks_off(track.mode, byte) {
        broken_events(track.mode, byte)
    } else {
        settled(track.mode, track.pending, byte, raw_events(track.tail, byte))
    }
}

/// The track of a decoder that has consumed `input`.
pub open spec fn track_after(input: Seq<u8>) -> Track
    decreases input.len(),
{
    if input.len() == 0 {
        track_start()
    } else {
        step_track(track_after(input.drop_last()), input.last())
    }
}

/// The events that one more byte gives rise to after `input`.
pub open spec fn byte_events(input: Seq<u8>, byte: u8) -> Seq<EventModel> {
    step_events(track_after(input), byte)
}

/// Whether `input` leaves the decoder inside an operating system command.
pub open spec fn in_command(input: Seq<u8>) -> bool {
    track_after(input).mode is Osc
}

/// Whether `input` leaves the decoder inside a device control string.
pub open spec fn in_control_string(input: Seq<u8>) -> bool {
    track_after(input).mode is Dcs || track_after(input).mode is DcsData
}

/// Whether `input` leaves the decoder as a new one is: outside every
/// sequence, with nothing kept and nothing behind it that could still show.
pub open spec fn at_rest(input: Seq<u8>) -> bool {
    track_after(input) == track_start()
}

/// The events of the bytes `bytes`, taken one at a time, by a decoder that
/// has already consumed `prefix`.
pub open spec fn decode(prefix: Seq<u8>, bytes: Seq<u8>) -> Seq<EventModel>
    decreases bytes.len(),
{
    if bytes.len() == 0 {
        Seq::empty()
    } else {
        decode(prefix, bytes.drop_last()) + byte_events(prefix + bytes.drop_last(), bytes.last())
    }
}

/// The chunks of a stream put end to end.
pub open spec fn joined(chunks: Seq<Seq<u8>>) -> Seq<u8>
    decreases chunks.len(),
{
    if chunks.len() == 0 {
        Seq::empty()
    } else {
        joined(chunks.drop_last()) + chunks.last()
    }
}

/// The events of a stream that arrives as `chunks`, each chunk decoded as a
/// whole by the decoder that the chunks before it have left behind.
pub open spec fn decode_chunks(prefix: Seq<u8>, chunks: Seq<Seq<u8>>) -> Seq<EventModel>
    decreases chunks.len(),
{
    if chunks.len() == 0 {
        Seq::empty()
    } else {
        decode_chunks(prefix, chunks.drop_last()) + decode(
            prefix + joined(chunks.drop_last()),
            chunks.last(),
        )
    }
}

/// A stream cut into chunks of one byte each.
pub open spec fn singles(bytes: Seq<u8>) -> Seq<Seq<u8>> {
    Seq::new(bytes.len(), |i: int| seq![bytes[i]])
}

/// One `Print` per byte of `text`, in order.
pub open spec fn prints(text: Seq<u8>) -> Seq<EventModel> {
    Seq::new(text.len(), |i: int| EventModel::Print(text[i] as char))
}

/// The parts of a decoder, kept together so that they change together.
struct Inner {
    parser: vte::Parser,
    fed: Ghost<Seq<u8>>,
    cut: Ghost<int>,
    consumed: Ghost<Seq<u8>>,
    mode: Mode,
    pending: Vec<u8>,
}

/// The parser holds what a new parser holds after the bytes it was fed, it
/// goes on as a new parser would after those from the cut on, and the parts
/// are the track of the bytes consumed.
spec fn in_step(inner: Inner) -> bool {
    &&& parser_state(inner.parser) == state_after(inner.fed@)
    &&& starts_anew(inner.fed@, inner.cut@)
    &&& track_after(inner.consumed@) == (Track {
        mode: inner.mode,
        pending: inner.pending@,
        tail: inner.fed@.skip(inner.cut@),
    })
}

/// The parts of a decoder that has consumed nothing.
fn fresh() -> (inner: Inner)
    ensures
        in_step(inner),
        inner.consumed@ == Seq::<u8>::empty(),
{
    let inner = Inner {
        parser: new_parser(),
        fed: Ghost(Seq::empty()),
        cut: Ghost(0),
        consumed: Ghost(Seq::empty()),
        mode: Mode::Outside,
        pending: Vec::new(),
    };
    assert(inner.fed@.skip(0) =~= Seq::<u8>::empty());
    inner
}

/// Appends events to events.
fn append_events(events: &mut Vec<Event>, more: Vec<Event>)
    ensures
        final(events).deep_view() == old(events).deep_view() + more.deep_view(),
{
    let mut more = more;
    let ghost added = more.deep_view();
    let ghost items = more@;
    events.append(&mut more);
    assert forall|k: int| 0 <= k < events.len() implies events.deep_view()[k] == (old(
        events,
    ).deep_view() + added)[k] by {
        if k < old(events).len() {
            assert(events[k] == old(events)[k]);
        } else {
            assert(events[k] == items[k - old(events).len()]);
        }
    }
    assert(events.deep_view() =~= old(events).deep_view() + added);
}

/// Consumes one byte: the parts move one step along the stream, and the
/// events of the byte are appended.
fn step(inner: &mut Inner, byte: u8, events: &mut Vec<Event>)
    requires
        in_step(*old(inner)),
    ensures
        in_step(*final(inner)),
        final(inner).consumed@ == old(inner).consumed@.push(byte),
        final(events).deep_view() == old(events).deep_view() + byte_events(
            old(inner).consumed@,
            byte,
        ),
{
    let ghost input = inner.consumed@;
    let ghost track = track_after(input);
    let ghost fed = inner.fed@;
    let ghost cut = inner.cut@;
    if is_break(inner.mode, byte) {
        append_events(events, break_events(inner.mode, byte));
        inner.parser = new_parser();
        inner.fed = Ghost(Seq::empty());
        inner.cut = Ghost(0);
        inner.mode = Mode::Outside;
        inner.pending.clear();
        assert(inner.fed@.skip(0) =~= Seq::<u8>::empty());
    } else {
        let mut recorder = Recorder::new();
        record_byte(&mut inner.parser, &mut inner.fed, Ghost(cut), &mut recorder, byte);
        let calls = recorder.into_events();
        assert(calls.deep_view() =~= raw_events(track.tail, byte));
        let settled = settle(inner.mode, inner.pending.as_slice(), byte, &calls);
        let next = next_mode(inner.mode, byte, &calls);
        update_pending(inner.mode, next, &mut inner.pending, byte, &calls);
        inner.mode = next;
        append_events(events, settled);
        proof {
            let longer = fed.push(byte);
            if is_escape(byte, calls.deep_view()) {
                inner.cut = Ghost(fed.len() as int);
                assert(longer.take(fed.len() as int) =~= fed);
                assert(longer.skip(fed.len() as int) =~= seq![byte]);
                assert(starts_anew(longer, fed.len() as int));
            } else if settles(calls.deep_view()) {
                inner.cut = Ghost(longer.len() as int);
                assert(longer.take(longer.len() - 1) =~= fed);
                assert(longer.skip(longer.len() as int) =~= Seq::<u8>::empty());
                assert(starts_anew(longer, longer.len() as int));
            } else {
                assert(longer.take(cut) =~= fed.take(cut));
                assert(longer.skip(cut) =~= fed.skip(cut).push(byte));
                if cut > 0 {
                    assert(longer.take(cut - 1) =~= fed.take(cut - 1));
                    assert(longer[cut - 1] == fed[cut - 1]);
                }
                assert(starts_anew(longer, cut));
            }
        }
    }
    inner.consumed = Ghost(input.push(byte));
    proof {
        assert(input.push(byte).drop_last() =~= input);
        assert(track_after(input.push(byte)) == step_track(track, byte));
        assert(track_after(inner.consumed@) =~= (Track {
            mode: inner.mode,
            pending: inner.pending@,
            tail: inner.fed@.skip(inner.cut@),
        }));
    }
}

/// A terminal-output decoder with the state it carries between bytes.
pub struct Decoder {
    inner: Inner,
}

impl Decoder {
    #[verifier::type_invariant]
    spec fn sound(&self) -> bool {
        in_step(self.inner)
    }

    /// Every byte this decoder has consumed since it was made, in order.
    pub closed spec fn consumed(&self) -> Seq<u8> {
        self.inner.consumed@
    }

    /// A decoder in its initial state.
    pub fn new() -> (decoder: Decoder)
        ensures
            decoder.consumed() == Seq::<u8>::empty(),
    {
        Decoder { inner: fresh() }
    }

    /// Consumes one byte and returns the events that it completes.
    pub fn advance(&mut self, byte: u8) -> (events: Vec<Event>)
        ensures
            final(self).consumed() == old(self).consumed().push(byte),
            events.deep_view() == byte_events(old(self).consumed(), byte),
    {
        proof {
            use_type_invariant(&*self);
        }
        let mut inner = fresh();
        core::mem::swap(&mut self.inner, &mut inner);
        let mut events: Vec<Event> = Vec::new();
        assert(events.deep_view() =~= Seq::<EventModel>::empty());
        step(&mut inner, byte, &mut events);
        core::mem::swap(&mut self.inner, &mut inner);
        assert(events.deep_view() =~= byte_events(old(self).consumed(), byte));
        events
    }

    /// Consumes a chunk, byte by byte in order, and returns the events of the
    /// whole chunk in the order in which they arose.
    pub fn feed(&mut self, bytes: &[u8]) -> (events: Vec<Event>)
        ensures
            final(self).consumed() == old(self).consumed() + bytes@,
            events.deep_view() == decode(old(self).consumed(), bytes@),
    {
        proof {
            use_type_invariant(&*self);
        }
        let mut inner = fresh();
        core::mem::swap(&mut self.inner, &mut inner);
        let mut events: Vec<Event> = Vec::new();
        let mut i: usize = 0;
        assert(bytes@.take(0) =~= Seq::<u8>::empty());
        assert(old(self).consumed() + Seq::<u8>::empty() =~= old(self).consumed());
        assert(events.deep_view() =~= Seq::<EventModel>::empty());
        while i < bytes.len()
            invariant
                i <= bytes.len(),
                in_step(inner),
                inner.consumed@ == old(self).consumed() + bytes@.take(i as int),
                events.deep_view() == decode(old(self).consumed(), bytes@.take(i as int)),
            decreases bytes.len() - i,
        {
            let ghost before = bytes@.take(i as int);
            let ghost upto = bytes@.take(i + 1);
            step(&mut inner, bytes[i], &mut events);
            proof {
                assert(upto.drop_last() =~= before);
                assert(upto.last() == bytes[i as int]);
                assert(old(self).consumed() + upto =~= (old(self).consumed() + before).push(
                    bytes[i as int],
                ));
            }
            i += 1;
        }
        assert(bytes@.take(bytes.len() as int) =~= bytes@);
        core::mem::swap(&mut self.inner, &mut inner);
        events
    }
}

/// Decoding a stream in two pieces gives the events of the first piece
/// followed by those of the second: a cut changes nothing.
pub proof fn lemma_decode_split(prefix: Seq<u8>, first: Seq<u8>, second: Seq<u8>)
    ensures
        decode(prefix, first + second) == decode(prefix, first) + decode(prefix + first, second),
    decreases second.len(),
{
    if second.len() == 0 {
        assert(first + second =~= first);
        assert(decode(prefix, first) + Seq::<EventModel>::empty() =~= decode(prefix, first));
    } else {
        let whole = first + second;
        assert(whole.drop_last() =~= first + second.drop_last());
        assert(whole.last() == second.last());
        assert(prefix + whole.drop_last() =~= (prefix + first) + second.drop_last());
        lemma_decode_split(prefix, first, second.drop_last());
        assert(decode(prefix, whole) =~= decode(prefix, first) + decode(prefix + first, second));
    }
}

/// Chunk by chunk, a decoder produces what it would produce from the same
/// stream byte by byte.
pub proof fn lemma_chunks_decode_as_stream(prefix: Seq<u8>, chunks: Seq<Seq<u8>>)
    ensures
        decode_chunks(prefix, chunks) == decode(prefix, joined(chunks)),
    decreases chunks.len(),
{
    if chunks.len() > 0 {
        lemma_chunks_decode_as_stream(prefix, chunks.drop_last());
        lemma_decode_split(prefix, joined(chunks.drop_last()), chunks.last());
    }
}

/// One-byte chunks put end to end are the stream they were cut from.
pub proof fn lemma_singles_join(bytes: Seq<u8>)
    ensures
        joined(singles(bytes)) == bytes,
    decreases bytes.len(),
{
    if bytes.len() == 0 {
        assert(joined(singles(bytes)) =~= bytes);
    } else {
        assert(singles(bytes).drop_last() =~= singles(bytes.drop_last()));
        lemma_singles_join(bytes.drop_last());
        assert(joined(singles(bytes)) =~= bytes);
    }
}

/// Chunk boundaries never affect decoding: two ways of cutting the same
/// stream give the same events.
pub proof fn lemma_chunk_boundary_invariance(
    prefix: Seq<u8>,
    one: Seq<Seq<u8>>,
    other: Seq<Seq<u8>>,
)
    requires
        joined(one) == joined(other),
    ensures
        decode_chunks(prefix, one) == decode_chunks(prefix, other),
{
    lemma_chunks_decode_as_stream(prefix, one);
    lemma_chunks_decode_as_stream(prefix, other);
}

/// Fed in chunks or one byte at a time, a stream gives the same events.
pub proof fn lemma_chunks_decode_as_singles(prefix: Seq<u8>, chunks: Seq<Seq<u8>>)
    ensures
        decode_chunks(prefix, chunks) == decode_chunks(prefix, singles(joined(chunks))),
{
    lemma_singles_join(joined(chunks));
    lemma_chunk_boundary_invariance(prefix, chunks, singles(joined(chunks)));
}

/// Two streams that leave the decoder with the same track are decoded alike
/// from there on: what lies behind shows in nothing but the track.
pub proof fn lemma_same_track_same_events(one: Seq<u8>, other: Seq<u8>, rest: Seq<u8>)
    requires
        track_after(one) == track_after(other),
    ensures
        track_after(one + rest) == track_after(other + rest),
        decode(one, rest) == decode(other, rest),
    decreases rest.len(),
{
    if rest.len() == 0 {
        assert(one + rest =~= one);
        assert(other + rest =~= other);
    } else {
        let front = rest.drop_last();
        lemma_same_track_same_events(one, other, front);
        assert((one + rest).drop_last() =~= one + front);
        assert((other + rest).drop_last() =~= other + front);
        assert((one + rest).last() == rest.last());
        assert((other + rest).last() == rest.last());
    }
}

/// A control byte inside an operating system command or a device control
/// string breaks the string off. Nothing is dispatched for it; the control
/// byte is executed, after an unhook where data had been hooked; and the
/// bytes that follow are decoded as by a decoder that has seen nothing.
pub proof fn lemma_control_breaks_string(input: Seq<u8>, byte: u8, rest: Seq<u8>)
    requires
        in_command(input) || in_control_string(input),
        breaks(byte),
    ensures
        byte_events(input, byte) == broken_events(track_after(input).mode, byte),
        in_command(input) ==> byte_events(input, byte) == seq![EventModel::Execute(byte)],
        track_after(input.push(byte)) == track_start(),
        decode(input.push(byte), rest) == decode(Seq::empty(), rest),
{
    assert(input.push(byte).drop_last() =~= input);
    lemma_same_track_same_events(input.push(byte), Seq::empty(), rest);
}

/// A byte that lands outside every sequence with calls that leave the
/// parser in its ground state leaves the decoder as a new one is: whatever
/// follows is decoded as by a decoder that has seen nothing, and no
/// parameter, intermediate or flag of what came before shows in it.
pub proof fn lemma_settled_byte_starts_anew(input: Seq<u8>, byte: u8, rest: Seq<u8>)
    requires
        !breaks_off(track_after(input).mode, byte),
        settles(raw_events(track_after(input).tail, byte)),
        mode_after(
            track_after(input).mode,
            byte,
            raw_events(track_after(input).tail, byte),
        ) is Outside,
    ensures
        at_rest(input.push(byte)),
        decode(input.push(byte), rest) == decode(Seq::empty(), rest),
{
    assert(input.push(byte).drop_last() =~= input);
    assert(track_after(input.push(byte)) =~= track_start());
    lemma_same_track_same_events(input.push(byte), Seq::empty(), rest);
}

/// Printable ASCII text that comes while the decoder is at rest is printed
/// character by character in input order, and leaves the decoder at rest.
pub proof fn lemma_plain_text_prints(prefix: Seq<u8>, text: Seq<u8>)
    requires
        at_rest(prefix),
        is_plain_text(text),
    ensures
        decode(prefix, text) == prints(text),
        at_rest(prefix + text),
    decreases text.len(),
{
    if text.len() == 0 {
        assert(prefix + text =~= prefix);
        assert(decode(prefix, text) =~= prints(text));
    } else {
        let front = text.drop_last();
        let byte = text.last();
        lemma_plain_text_prints(prefix, front);
        assert(is_plain(byte));
        assert((prefix + text).drop_last() =~= prefix + front);
        assert((prefix + text).last() == byte);
        let track = track_after(prefix + front);
        let calls = raw_events(track.tail, byte);
        assert(calls =~= seq![EventModel::Print(byte as char)]);
        assert(calls.drop_last() =~= Seq::<EventModel>::empty());
        assert(calls.last() == EventModel::Print(byte as char));
        assert(byte as char != '\u{7f}');
        assert(settled_call(track.pending, calls.last()) == seq![EventModel::Print(byte as char)]);
        assert(settled_calls(track.pending, calls.drop_last()) =~= Seq::<EventModel>::empty());
        assert(settled_calls(track.pending, calls) =~= seq![EventModel::Print(byte as char)]);
        assert(byte_events(prefix + front, byte) =~= seq![EventModel::Print(byte as char)]);
        assert(track_after(prefix + text) =~= track_start());
        assert(decode(prefix, text) =~= prints(text));
    }
}

/// After an escape byte that reaches the decoder at rest, nothing of what
/// came before shows: whatever follows is decoded as by a decoder whose
/// stream begins with that escape byte.
pub proof fn lemma_escape_at_rest_starts_anew(prefix: Seq<u8>, rest: Seq<u8>)
    requires
        at_rest(prefix),
    ensures
        decode(prefix.push(0x1b), rest) == decode(seq![0x1b], rest),
{
    let one = prefix.push(0x1b);
    let other = seq![0x1bu8];
    assert(one.drop_last() =~= prefix);
    assert(other.drop_last() =~= Seq::<u8>::empty());
    assert(track_after(other.drop_last()) == track_start());
    assert(track_after(one) =~= track_after(other));
    lemma_same_track_same_events(one, other, rest);
}

/// After an escape byte that the parser took as one, outside every string,
/// nothing of what came before shows: two streams are decoded alike from
/// there on, whatever lies behind them.
pub proof fn lemma_escape_starts_anew(one: Seq<u8>, other: Seq<u8>, rest: Seq<u8>)
    requires
        track_after(one).mode is Outside || track_after(one).mode is Escape,
        track_after(other).mode is Outside || track_after(other).mode is Escape,
        is_escape(0x1b, raw_events(track_after(one).tail, 0x1b)),
        is_escape(0x1b, raw_events(track_after(other).tail, 0x1b)),
    ensures
        decode(one.push(0x1b), rest) == decode(other.push(0x1b), rest),
{
    assert(one.push(0x1b).drop_last() =~= one);
    assert(other.push(0x1b).drop_last() =~= other);
    assert(track_after(one.push(0x1b)) =~= track_after(other.push(0x1b)));
    lemma_same_track_same_events(one.push(0x1b), other.push(0x1b), rest);
}

} // verus!
