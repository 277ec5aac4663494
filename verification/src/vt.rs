//! The boundary with the `vte` crate.
//!
//! Nothing in this file is proved about `vte` itself. The types are declared
//! so that they can be named, four spec functions give names to what the
//! parser holds and hands out, and three small functions make the calls.
//! [`Recorder`] is the performer the parser calls; its methods are
//! verified like any other code of this crate.

use vstd::prelude::*;
use vstd::slice::slice_to_vec;
use crate::event::{Event, EventModel};

verus! {

/// `vte::Parser`, carried as an opaque value.
#[verifier::external_type_specification]
#[verifier::external_body]
pub struct ExParser<const OSC_RAW_BUF_SIZE: usize>(vte::Parser<OSC_RAW_BUF_SIZE>);

/// `vte::Params`, carried as an opaque value.
#[verifier::external_type_specification]
#[verifier::external_body]
pub struct ExParams(vte::Params);

/// What `parser` holds: the state of its automaton and its buffers, as one
/// value.
pub uninterp spec fn parser_state(parser: vte::Parser) -> Seq<u8>;

/// What a parser made by `vte::Parser::new` holds once it has been given
/// `input`, byte by byte.
pub uninterp spec fn state_after(input: Seq<u8>) -> Seq<u8>;

/// The calls that `vte::Parser::advance` makes on its performer for `byte`
/// when a parser made by `vte::Parser::new` has been given `input` before,
/// each call written as the event of the same name.
pub uninterp spec fn emitted(input: Seq<u8>, byte: u8) -> Seq<EventModel>;

/// The groups that `vte::Params::iter` yields for `params`: each parameter
/// with the sub-parameters that follow it.
pub uninterp spec fn params_groups(params: vte::Params) -> Seq<Seq<u16>>;

/// A byte of printable ASCII: space up to the tilde.
pub open spec fn is_plain(byte: u8) -> bool {
    0x20 <= byte <= 0x7e
}

/// Text made of printable ASCII only.
pub open spec fn is_plain_text(bytes: Seq<u8>) -> bool {
    forall|i: int| 0 <= i < bytes.len() ==> is_plain(#[trigger] bytes[i])
}

/// Whether the last call prints.
pub open spec fn ends_in_print(calls: Seq<EventModel>) -> bool {
    calls.len() > 0 && calls.last() is Print
}

/// Whether the calls of one byte leave the parser in its ground state for
/// certain: the last of them prints, dispatches a control sequence or an
/// escape sequence, or dispatches an operating system command that the bell
/// has terminated.
pub open spec fn settles(calls: Seq<EventModel>) -> bool {
    calls.len() > 0 && match calls.last() {
        EventModel::Print(_) => true,
        EventModel::CsiDispatch { .. } => true,
        EventModel::EscDispatch { .. } => true,
        EventModel::OscDispatch { bell_terminated, .. } => bell_terminated,
        _ => false,
    }
}

/// Whether the parser, after `input`, goes on as a new parser would after
/// `input` from `cut` on. It does where nothing is cut off; where the byte
/// before the cut has left the parser in its ground state; and where what is
/// left begins with an escape byte that the parser took as one, which it has
/// not where the byte was printed as the replacement for an unfinished
/// character.
pub open spec fn starts_anew(input: Seq<u8>, cut: int) -> bool {
    0 <= cut <= input.len() && (cut == 0 || settles(
        emitted(input.take(cut - 1), input[cut - 1]),
    ) || (cut < input.len() && input[cut] == 0x1b && !ends_in_print(
        emitted(input.take(cut), 0x1b),
    )))
}

/// The calls that one more byte gives rise to after `input`, as events.
///
/// A new parser prints a printable ASCII byte as the character it encodes,
/// and makes no call for an escape byte. Everywhere else the calls are those
/// that `vte` makes.
pub open spec fn raw_events(input: Seq<u8>, byte: u8) -> Seq<EventModel> {
    if input.len() == 0 && is_plain(byte) {
        seq![EventModel::Print(byte as char)]
    } else if input.len() == 0 && byte == 0x1b {
        Seq::empty()
    } else {
        emitted(input, byte)
    }
}

/// The performer that writes down every call it gets as an [`Event`].
pub struct Recorder {
    events: Vec<Event>,
}

impl View for Recorder {
    type V = Seq<EventModel>;

    closed spec fn view(&self) -> Seq<EventModel> {
        self.events.deep_view()
    }
}

impl Recorder {
    /// A recorder that has seen nothing.
    pub fn new() -> (recorder: Recorder)
        ensures
            recorder@ == Seq::<EventModel>::empty(),
    {
        let recorder = Recorder { events: Vec::new() };
        assert(recorder.events.deep_view() =~= Seq::<EventModel>::empty());
        recorder
    }

    /// Hands out what was recorded, oldest first.
    pub fn into_events(self) -> (events: Vec<Event>)
        ensures
            events.deep_view() == self@,
    {
        self.events
    }

    fn record(&mut self, event: Event)
        ensures
            final(self)@ == old(self)@.push(event.deep_view()),
    {
        self.events.push(event);
        assert(self.events.deep_view() =~= old(self).events.deep_view().push(event.deep_view()));
    }
}

/// The values of parameter groups, widened.
pub open spec fn wide(groups: Seq<Seq<u16>>) -> Seq<Seq<u64>> {
    Seq::new(groups.len(), |g: int| Seq::new(groups[g].len(), |k: int| groups[g][k] as u64))
}

/// Widens the values of parameter groups.
fn widen(groups: &Vec<Vec<u16>>) -> (wider: Vec<Vec<u64>>)
    ensures
        wider.deep_view() == wide(groups.deep_view()),
{
    let mut wider: Vec<Vec<u64>> = Vec::new();
    let mut g: usize = 0;
    while g < groups.len()
        invariant
            g <= groups.len(),
            wider.len() == g,
            forall|i: int| 0 <= i < g ==> (#[trigger] wider[i])@ == wide(groups.deep_view())[i],
        decreases groups.len() - g,
    {
        let group = &groups[g];
        let mut values: Vec<u64> = Vec::new();
        let mut k: usize = 0;
        while k < group.len()
            invariant
                k <= group.len(),
                values.len() == k,
                forall|i: int| 0 <= i < k ==> #[trigger] values[i] == group[i] as u64,
            decreases group.len() - k,
        {
            values.push(group[k] as u64);
            k += 1;
        }
        assert(groups.deep_view()[g as int] == group@);
        assert(values@ =~= wide(groups.deep_view())[g as int]);
        wider.push(values);
        g += 1;
    }
    assert forall|i: int| 0 <= i < wider.len() implies wider.deep_view()[i] == wide(
        groups.deep_view(),
    )[i] by {
        assert(wider[i].deep_view() =~= wider[i]@);
    }
    assert(wider.deep_view() =~= wide(groups.deep_view()));
    wider
}

/// Copies a list of byte strings into vectors.
fn copy_slices(slices: &[&[u8]]) -> (copies: Vec<Vec<u8>>)
    ensures
        copies.deep_view() == slices.deep_view(),
{
    let mut copies: Vec<Vec<u8>> = Vec::new();
    let mut i: usize = 0;
    while i < slices.len()
        invariant
            i <= slices.len(),
            copies.len() == i,
            forall|k: int| 0 <= k < i ==> (#[trigger] copies[k])@ == slices[k]@,
        decreases slices.len() - i,
    {
        copies.push(slice_to_vec(slices[i]));
        i += 1;
    }
    assert(copies.deep_view() =~= slices.deep_view());
    copies
}

impl vte::Perform for Recorder {
    fn print(&mut self, c: char)
        ensures
            final(self)@ == old(self)@.push(EventModel::Print(c)),
    {
        self.record(Event::Print(c));
    }

    fn execute(&mut self, byte: u8)
        ensures
            final(self)@ == old(self)@.push(EventModel::Execute(byte)),
    {
        self.record(Event::Execute(byte));
    }

    fn hook(&mut self, params: &vte::Params, intermediates: &[u8], ignore: bool, action: char)
        ensures
            final(self)@ == old(self)@.push(
                (EventModel::Hook {
                    params: wide(params_groups(*params)),
                    intermediates: intermediates@,
                    ignore,
                    action,
                }),
            ),
    {
        self.record(
            Event::Hook {
                params: widen(&collect_params(params)),
                intermediates: slice_to_vec(intermediates),
                ignore,
                action,
            },
        );
    }

    fn put(&mut self, byte: u8)
        ensures
            final(self)@ == old(self)@.push(EventModel::Put(byte)),
    {
        self.record(Event::Put(byte));
    }

    fn unhook(&mut self)
        ensures
            final(self)@ == old(self)@.push(EventModel::Unhook),
    {
        self.record(Event::Unhook);
    }

    fn osc_dispatch(&mut self, params: &[&[u8]], bell_terminated: bool)
        ensures
            final(self)@ == old(self)@.push(
                (EventModel::OscDispatch { slices: params.deep_view(), bell_terminated }),
            ),
    {
        self.record(Event::OscDispatch { slices: copy_slices(params), bell_terminated });
    }

    fn csi_dispatch(&mut self, params: &vte::Params, intermediates: &[u8], ignore: bool, action: char)
        ensures
            final(self)@ == old(self)@.push(
                (EventModel::CsiDispatch {
                    params: wide(params_groups(*params)),
                    intermediates: intermediates@,
                    ignore,
                    action,
                }),
            ),
    {
        self.record(
            Event::CsiDispatch {
                params: widen(&collect_params(params)),
                intermediates: slice_to_vec(intermediates),
                ignore,
                action,
            },
        );
    }

    fn esc_dispatch(&mut self, intermediates: &[u8], ignore: bool, byte: u8)
        ensures
            final(self)@ == old(self)@.push(
                (EventModel::EscDispatch { intermediates: intermediates@, ignore, byte }),
            ),
    {
        self.record(Event::EscDispatch { intermediates: slice_to_vec(intermediates), ignore, byte });
    }
}

/// `vte::Params::iter`, collected: the groups of `params` as vectors.
#[verifier::external_body]
fn collect_params(params: &vte::Params) -> (groups: Vec<Vec<u16>>)
    ensures
        groups.deep_view() == params_groups(*params),
{
    let mut groups = Vec::new();
    for group in params.iter() {
        groups.push(group.to_vec());
    }
    groups
}

/// `vte::Parser::new`: the parser holds what a new parser holds.
#[verifier::external_body]
pub(crate) fn new_parser() -> (parser: vte::Parser)
    ensures
        parser_state(parser) == state_after(Seq::empty()),
{
    vte::Parser::new()
}

/// `vte::Parser::advance` with a [`Recorder`] as the performer.
///
/// What the parser holds afterwards and the calls it makes depend on what it
/// held before and on the byte, and on nothing else. So where it held what a
/// new parser holds after some input, it then holds what a new parser holds
/// after that input and the byte.
///
/// The calls are those of a new parser after the same input. They are also
/// those of a new parser after less of it, in two cases. In its ground state
/// the automaton reads none of its buffers before it has cleared them, and
/// the UTF-8 decoder is where it started; so what came before a byte that
/// has left the parser there shows in no later call. And an escape byte that
/// the parser takes as one leads to its escape state and clears the
/// intermediates, the parameters and the ignore flag, while the buffer of a
/// command is cleared when a command begins; so what came before such an
/// escape byte shows in no later call either.
///
/// A new parser is in the ground state, where a printable ASCII byte leads
/// to one call of `print` with the byte as a character, and an escape byte
/// to no call. The call does not panic.
#[verifier::external_body]
fn advance(parser: &mut vte::Parser, recorder: &mut Recorder, byte: u8)
    ensures
        forall|input: Seq<u8>|
            parser_state(*old(parser)) == #[trigger] state_after(input) ==> parser_state(
                *final(parser),
            ) == state_after(input.push(byte)),
        forall|input: Seq<u8>, cut: int|
            parser_state(*old(parser)) == #[trigger] state_after(input) && #[trigger] starts_anew(
                input,
                cut,
            ) ==> final(recorder)@ == old(recorder)@ + emitted(input.skip(cut), byte),
        forall|input: Seq<u8>, cut: int|
            parser_state(*old(parser)) == #[trigger] state_after(input) && #[trigger] starts_anew(
                input,
                cut,
            ) && cut == input.len() && is_plain(byte) ==> final(recorder)@ == old(recorder)@.push(
                EventModel::Print(byte as char),
            ),
        forall|input: Seq<u8>, cut: int|
            parser_state(*old(parser)) == #[trigger] state_after(input) && #[trigger] starts_anew(
                input,
                cut,
            ) && cut == input.len() && byte == 0x1b ==> final(recorder)@ == old(recorder)@,
{
    parser.advance(recorder, byte)
}

/// A sequence that grows by one item grows by exactly that item.
proof fn lemma_single_tail<A>(before: Seq<A>, tail: Seq<A>, item: A)
    requires
        before + tail == before.push(item),
    ensures
        tail == seq![item],
{
    assert((before + tail).len() == before.len() + 1);
    assert(tail[0] == (before + tail)[before.len() as int]);
    assert(tail =~= seq![item]);
}

/// What is appended to a sequence can be read off the result.
proof fn lemma_same_tail<A>(before: Seq<A>, one: Seq<A>, other: Seq<A>)
    requires
        before + one == before + other,
    ensures
        one == other,
{
    assert((before + one).len() == before.len() + one.len());
    assert((before + other).len() == before.len() + other.len());
    assert(one.len() == other.len());
    assert forall|i: int| 0 <= i < one.len() implies one[i] == other[i] by {
        assert(one[i] == (before + one)[before.len() + i]);
        assert(other[i] == (before + other)[before.len() + i]);
    }
    assert(one =~= other);
}

/// Gives one byte to a parser that holds what a new parser holds after
/// `input` and goes on as one would after `input` from `cut` on. The
/// recorder writes down what comes of it, and the byte is added to `input`.
pub(crate) fn record_byte(
    parser: &mut vte::Parser,
    input: &mut Ghost<Seq<u8>>,
    Ghost(cut): Ghost<int>,
    recorder: &mut Recorder,
    byte: u8,
)
    requires
        parser_state(*old(parser)) == state_after(old(input)@),
        starts_anew(old(input)@, cut),
    ensures
        final(input)@ == old(input)@.push(byte),
        parser_state(*final(parser)) == state_after(final(input)@),
        final(recorder)@ == old(recorder)@ + raw_events(old(input)@.skip(cut), byte),
        raw_events(old(input)@.skip(cut), byte) == emitted(old(input)@, byte),
{
    advance(parser, recorder, byte);
    proof {
        let whole = input@;
        let left = whole.skip(cut);
        assert(starts_anew(whole, 0));
        assert(whole.skip(0) =~= whole);
        lemma_same_tail(old(recorder)@, emitted(whole, byte), emitted(left, byte));
        if left.len() == 0 && is_plain(byte) {
            lemma_single_tail(old(recorder)@, emitted(left, byte), EventModel::Print(byte as char));
        }
        if left.len() == 0 && byte == 0x1b {
            assert(old(recorder)@ + Seq::<EventModel>::empty() =~= old(recorder)@);
            lemma_same_tail(old(recorder)@, emitted(left, byte), Seq::<EventModel>::empty());
        }
        *input = Ghost(whole.push(byte));
    }
}

} // verus!
