//! The rules this crate lays over the parser's calls.
//!
//! The parser frames the sequences. What a control sequence's parameters are
//! worth, what an operating system command carries, and what breaks a string
//! off is decided here, from the bytes themselves. Every function takes plain
//! values, so each rule can be tried on its own.

use vstd::prelude::*;
use vstd::slice::slice_to_vec;
use crate::event::{Event, EventModel};
use crate::vt::ends_in_print;

verus! {

/// Where the decoder stands, as far as the rules need to know.
#[derive(Debug, Clone, Copy, PartialEq, Eq)]
pub enum Mode {
    /// Not after an escape byte and in no string.
    Outside,
    /// After an escape byte that has introduced nothing yet.
    Escape,
    /// Inside an operating system command.
    Osc,
    /// After an escape byte inside an operating system command.
    OscEscape,
    /// Inside a device control string that has not hooked yet.
    Dcs,
    /// Inside the data of a device control string.
    DcsData,
    /// After an escape byte inside a device control string.
    DcsEscape,
}

/// A C0 control byte or the delete byte.
pub open spec fn is_control(byte: u8) -> bool {
    byte < 0x20 || byte == 0x7f
}

/// A control byte that breaks a string off: any but the bell, which ends a
/// command, and cancel, substitute and escape, which have rules of their own.
pub open spec fn breaks(byte: u8) -> bool {
    is_control(byte) && byte != 0x07 && byte != 0x18 && byte != 0x1a && byte != 0x1b
}

/// Whether `byte` breaks off the string that `mode` is in.
pub open spec fn breaks_off(mode: Mode, byte: u8) -> bool {
    (mode is Osc || mode is Dcs || mode is DcsData) && breaks(byte)
}

/// What a broken-off string leaves: the data of a device control string is
/// unhooked, and the control byte is executed as it would be anywhere else.
pub open spec fn broken_events(mode: Mode, byte: u8) -> Seq<EventModel> {
    if mode is DcsData {
        seq![EventModel::Unhook, EventModel::Execute(byte)]
    } else {
        seq![EventModel::Execute(byte)]
    }
}

/// A digit, a semicolon or a colon: the bytes parameters are written in.
pub open spec fn is_param_byte(byte: u8) -> bool {
    0x30 <= byte <= 0x3b
}

/// A semicolon, or a colon where colons separate too.
pub open spec fn is_separator(byte: u8, colons: bool) -> bool {
    byte == 0x3b || (colons && byte == 0x3a)
}

/// The pieces between the separators of `bytes`; one more than there are
/// separators, so never none.
pub open spec fn split(bytes: Seq<u8>, colons: bool) -> Seq<Seq<u8>>
    decreases bytes.len(),
{
    if bytes.len() == 0 {
        seq![Seq::empty()]
    } else {
        let front = split(bytes.drop_last(), colons);
        if is_separator(bytes.last(), colons) {
            front.push(Seq::empty())
        } else {
            front.drop_last().push(front.last().push(bytes.last()))
        }
    }
}

/// What a byte is worth as a decimal digit; nothing if it is none.
pub open spec fn digit_value(byte: u8) -> nat {
    if 0x30 <= byte <= 0x39 {
        (byte - 0x30) as nat
    } else {
        0
    }
}

/// The number that a run of digits spells, however long the run.
pub open spec fn decimal_value(digits: Seq<u8>) -> nat
    decreases digits.len(),
{
    if digits.len() == 0 {
        0
    } else {
        decimal_value(digits.drop_last()) * 10 + digit_value(digits.last())
    }
}

/// A number as an event holds it: itself where it fits, else `u64::MAX`.
pub open spec fn bounded(value: nat) -> u64 {
    if value <= u64::MAX {
        value as u64
    } else {
        u64::MAX
    }
}

/// The value of the run with index `slot`; zero where there is no such run.
pub open spec fn slot_value(runs: Seq<Seq<u8>>, slot: int) -> u64 {
    if 0 <= slot < runs.len() {
        bounded(decimal_value(runs[slot]))
    } else {
        0
    }
}

/// How many values stand in the groups before group `group`.
pub open spec fn offset(groups: Seq<Seq<u64>>, group: int) -> int
    decreases group,
{
    if group <= 0 {
        0
    } else {
        offset(groups, group - 1) + groups[group - 1].len()
    }
}

/// The parameters of a sequence whose parameter bytes are `pending`, laid
/// out as `groups` is: each value is the exact number its digit run spells.
pub open spec fn exact_params(pending: Seq<u8>, groups: Seq<Seq<u64>>) -> Seq<Seq<u64>> {
    Seq::new(
        groups.len(),
        |g: int|
            Seq::new(
                groups[g].len(),
                |k: int| slot_value(split(pending, true), offset(groups, g) + k),
            ),
    )
}

/// What becomes of one call of the parser.
///
/// A printed delete byte is executed. Parameters take their exact values. A
/// command that the bell has ended carries the slices of its own bytes; one
/// that something else has ended is not dispatched here.
pub open spec fn settled_call(pending: Seq<u8>, call: EventModel) -> Seq<EventModel> {
    match call {
        EventModel::Print(c) => if c == '\u{7f}' {
            seq![EventModel::Execute(0x7f)]
        } else {
            seq![call]
        },
        EventModel::Hook { params, intermediates, ignore, action } => seq![
            EventModel::Hook {
                params: exact_params(pending, params),
                intermediates,
                ignore,
                action,
            },
        ],
        EventModel::CsiDispatch { params, intermediates, ignore, action } => seq![
            EventModel::CsiDispatch {
                params: exact_params(pending, params),
                intermediates,
                ignore,
                action,
            },
        ],
        EventModel::OscDispatch { slices, bell_terminated } => if bell_terminated {
            seq![EventModel::OscDispatch { slices: split(pending, false), bell_terminated }]
        } else {
            Seq::empty()
        },
        _ => seq![call],
    }
}

/// What becomes of the calls of one byte, in order.
pub open spec fn settled_calls(pending: Seq<u8>, calls: Seq<EventModel>) -> Seq<EventModel>
    decreases calls.len(),
{
    if calls.len() == 0 {
        Seq::empty()
    } else {
        settled_calls(pending, calls.drop_last()) + settled_call(pending, calls.last())
    }
}

/// The events of a byte that breaks no string off, from the parser's calls
/// for it.
///
/// A backslash after an escape byte is the string terminator: it dispatches
/// the command that was held back, or ends the device control string without
/// an event of its own. Everything else is what becomes of the calls.
pub open spec fn settled(mode: Mode, pending: Seq<u8>, byte: u8, calls: Seq<EventModel>) -> Seq<
    EventModel,
> {
    if mode is OscEscape && byte == 0x5c {
        seq![EventModel::OscDispatch { slices: split(pending, false), bell_terminated: false }]
    } else if mode is DcsEscape && byte == 0x5c {
        Seq::empty()
    } else {
        settled_calls(pending, calls)
    }
}

/// Whether the last call hooks.
pub open spec fn ends_in_hook(calls: Seq<EventModel>) -> bool {
    calls.len() > 0 && calls.last() is Hook
}

/// Whether the last call unhooks.
pub open spec fn ends_in_unhook(calls: Seq<EventModel>) -> bool {
    calls.len() > 0 && calls.last() is Unhook
}

/// Whether the last call executes.
pub open spec fn ends_in_execute(calls: Seq<EventModel>) -> bool {
    calls.len() > 0 && calls.last() is Execute
}

/// Whether `byte` is an escape byte that the parser took as one. Inside an
/// unfinished character it is printed as a replacement instead.
pub open spec fn is_escape(byte: u8, calls: Seq<EventModel>) -> bool {
    byte == 0x1b && !ends_in_print(calls)
}

/// The mode after a byte that breaks no string off.
pub open spec fn mode_after(mode: Mode, byte: u8, calls: Seq<EventModel>) -> Mode {
    if is_escape(byte, calls) {
        match mode {
            Mode::Osc => Mode::OscEscape,
            Mode::Dcs | Mode::DcsData => Mode::DcsEscape,
            _ => Mode::Escape,
        }
    } else if byte == 0x18 || byte == 0x1a {
        Mode::Outside
    } else {
        match mode {
            Mode::Outside => Mode::Outside,
            Mode::Escape | Mode::OscEscape | Mode::DcsEscape => if byte == 0x5d {
                Mode::Osc
            } else if byte == 0x50 {
                Mode::Dcs
            } else if is_control(byte) || byte >= 0x80 {
                Mode::Escape
            } else {
                Mode::Outside
            },
            Mode::Osc => if byte == 0x07 {
                Mode::Outside
            } else {
                Mode::Osc
            },
            Mode::Dcs => if ends_in_hook(calls) {
                Mode::DcsData
            } else if ends_in_print(calls) {
                Mode::Outside
            } else {
                Mode::Dcs
            },
            Mode::DcsData => if ends_in_unhook(calls) || ends_in_print(calls) {
                Mode::Outside
            } else {
                Mode::DcsData
            },
        }
    }
}

/// The bytes kept for the sequence in progress after a byte that breaks no
/// string off: the bytes of a command, the parameter bytes of anything else.
pub open spec fn pending_after(
    mode: Mode,
    next: Mode,
    pending: Seq<u8>,
    byte: u8,
    calls: Seq<EventModel>,
) -> Seq<u8> {
    if next is Osc {
        if mode is Osc {
            pending.push(byte)
        } else {
            Seq::empty()
        }
    } else if next is OscEscape {
        pending
    } else if mode is Osc || mode is OscEscape {
        Seq::empty()
    } else if byte == 0x1b || byte == 0x18 || byte == 0x1a {
        Seq::empty()
    } else if calls.len() > 0 && !ends_in_execute(calls) {
        Seq::empty()
    } else if is_param_byte(byte) {
        pending.push(byte)
    } else {
        pending
    }
}

/// Whether `byte` breaks off the string that `mode` is in.
pub fn is_break(mode: Mode, byte: u8) -> (broken: bool)
    ensures
        broken == breaks_off(mode, byte),
{
    let in_string = match mode {
        Mode::Osc | Mode::Dcs | Mode::DcsData => true,
        _ => false,
    };
    in_string && (byte < 0x20 || byte == 0x7f) && byte != 0x07 && byte != 0x18 && byte != 0x1a
        && byte != 0x1b
}

/// The events of a byte that breaks a string off.
pub fn break_events(mode: Mode, byte: u8) -> (events: Vec<Event>)
    ensures
        events.deep_view() == broken_events(mode, byte),
{
    let mut events: Vec<Event> = Vec::new();
    match mode {
        Mode::DcsData => {
            events.push(Event::Unhook);
        },
        _ => {},
    }
    events.push(Event::Execute(byte));
    assert(events.deep_view() =~= broken_events(mode, byte));
    events
}

/// The number a run of digits spells, or `u64::MAX` where it does not fit.
pub fn run_value(digits: &[u8]) -> (value: u64)
    ensures
        value == bounded(decimal_value(digits@)),
{
    let mut value: u64 = 0;
    let mut i: usize = 0;
    assert(digits@.take(0) =~= Seq::<u8>::empty());
    while i < digits.len()
        invariant
            i <= digits.len(),
            value == bounded(decimal_value(digits@.take(i as int))),
        decreases digits.len() - i,
    {
        let byte = digits[i];
        let digit: u64 = if 0x30 <= byte && byte <= 0x39 {
            (byte - 0x30) as u64
        } else {
            0
        };
        proof {
            let upto = digits@.take(i + 1);
            assert(upto.drop_last() =~= digits@.take(i as int));
            assert(upto.last() == byte);
            assert(digit == digit_value(byte));
        }
        if value > (u64::MAX - digit) / 10 {
            value = u64::MAX;
        } else {
            value = value * 10 + digit;
        }
        i += 1;
    }
    assert(digits@.take(digits.len() as int) =~= digits@);
    value
}

fn push_piece(parts: &mut Vec<Vec<u8>>, piece: Vec<u8>)
    ensures
        final(parts).deep_view() == old(parts).deep_view().push(piece@),
{
    let ghost bytes = piece@;
    assert(piece.deep_view() =~= bytes);
    parts.push(piece);
    assert forall|k: int| 0 <= k < parts.len() implies parts.deep_view()[k] == old(
        parts,
    ).deep_view().push(bytes)[k] by {
        if k < old(parts).len() {
            assert(parts[k] == old(parts)[k]);
        }
    }
    assert(parts.deep_view() =~= old(parts).deep_view().push(bytes));
}

/// The pieces between the separators of `bytes`.
pub fn split_bytes(bytes: &[u8], colons: bool) -> (parts: Vec<Vec<u8>>)
    ensures
        parts.deep_view() == split(bytes@, colons),
{
    let mut parts: Vec<Vec<u8>> = Vec::new();
    let mut current: Vec<u8> = Vec::new();
    let mut i: usize = 0;
    assert(bytes@.take(0) =~= Seq::<u8>::empty());
    assert(parts.deep_view().push(current@) =~= seq![Seq::<u8>::empty()]);
    while i < bytes.len()
        invariant
            i <= bytes.len(),
            parts.deep_view().push(current@) == split(bytes@.take(i as int), colons),
        decreases bytes.len() - i,
    {
        let byte = bytes[i];
        let ghost before = parts.deep_view();
        let ghost piece = current@;
        proof {
            let upto = bytes@.take(i + 1);
            assert(upto.drop_last() =~= bytes@.take(i as int));
            assert(upto.last() == byte);
            assert(before.push(piece).last() == piece);
            assert(before.push(piece).drop_last() =~= before);
        }
        if byte == 0x3b || (colons && byte == 0x3a) {
            push_piece(&mut parts, current);
            current = Vec::new();
        } else {
            current.push(byte);
        }
        i += 1;
    }
    assert(bytes@.take(bytes.len() as int) =~= bytes@);
    push_piece(&mut parts, current);
    parts
}

/// The parameters of a sequence from its parameter bytes, laid out as
/// `groups` is.
pub fn exact(pending: &[u8], groups: &Vec<Vec<u64>>) -> (params: Vec<Vec<u64>>)
    ensures
        params.deep_view() == exact_params(pending@, groups.deep_view()),
{
    let runs = split_bytes(pending, true);
    let ghost wanted = exact_params(pending@, groups.deep_view());
    let mut params: Vec<Vec<u64>> = Vec::new();
    let mut slot: usize = 0;
    let mut g: usize = 0;
    while g < groups.len()
        invariant
            g <= groups.len(),
            runs.deep_view() == split(pending@, true),
            wanted == exact_params(pending@, groups.deep_view()),
            params.len() == g,
            forall|i: int| 0 <= i < g ==> (#[trigger] params[i])@ == wanted[i],
            slot <= runs.len(),
            slot == offset(groups.deep_view(), g as int) || (slot == runs.len() && slot <= offset(
                groups.deep_view(),
                g as int,
            )),
        decreases groups.len() - g,
    {
        let group = &groups[g];
        assert(groups.deep_view()[g as int] =~= group@);
        let ghost start = offset(groups.deep_view(), g as int);
        let mut values: Vec<u64> = Vec::new();
        let mut k: usize = 0;
        while k < group.len()
            invariant
                k <= group.len(),
                runs.deep_view() == split(pending@, true),
                values.len() == k,
                forall|i: int|
                    0 <= i < k ==> #[trigger] values[i] == slot_value(runs.deep_view(), start + i),
                slot <= runs.len(),
                0 <= start,
                slot == start + k || (slot == runs.len() && slot <= start + k),
            decreases group.len() - k,
        {
            if slot < runs.len() {
                assert(runs.deep_view()[slot as int] =~= runs[slot as int]@);
                values.push(run_value(runs[slot].as_slice()));
                slot += 1;
            } else {
                values.push(0);
            }
            k += 1;
        }
        proof {
            lemma_offset_step(groups.deep_view(), g as int);
            assert(values@ =~= wanted[g as int]);
        }
        params.push(values);
        g += 1;
    }
    assert forall|i: int| 0 <= i < params.len() implies params.deep_view()[i] == wanted[i] by {
        assert(params[i].deep_view() =~= params[i]@);
    }
    assert(params.deep_view() =~= wanted);
    params
}

/// The values before a group and the group's own make up those before the
/// next; there are never fewer than none.
proof fn lemma_offset_step(groups: Seq<Seq<u64>>, group: int)
    requires
        0 <= group < groups.len(),
    ensures
        0 <= offset(groups, group),
        offset(groups, group + 1) == offset(groups, group) + groups[group].len(),
    decreases group,
{
    if group > 0 {
        lemma_offset_step(groups, group - 1);
    }
}

/// A copy of an event that is to stay as it is.
fn same(call: &Event) -> (copy: Event)
    ensures
        copy.deep_view() == call.deep_view(),
{
    match call {
        Event::Print(c) => Event::Print(*c),
        Event::Execute(byte) => Event::Execute(*byte),
        Event::Put(byte) => Event::Put(*byte),
        Event::Unhook => Event::Unhook,
        Event::EscDispatch { intermediates, ignore, byte } => Event::EscDispatch {
            intermediates: slice_to_vec(intermediates.as_slice()),
            ignore: *ignore,
            byte: *byte,
        },
        Event::Hook { params, intermediates, ignore, action } => {
            let copy = Event::Hook {
                params: copy_groups(params),
                intermediates: slice_to_vec(intermediates.as_slice()),
                ignore: *ignore,
                action: *action,
            };
            copy
        },
        Event::CsiDispatch { params, intermediates, ignore, action } => Event::CsiDispatch {
            params: copy_groups(params),
            intermediates: slice_to_vec(intermediates.as_slice()),
            ignore: *ignore,
            action: *action,
        },
        Event::OscDispatch { slices, bell_terminated } => Event::OscDispatch {
            slices: copy_pieces(slices),
            bell_terminated: *bell_terminated,
        },
    }
}

fn copy_groups(groups: &Vec<Vec<u64>>) -> (copy: Vec<Vec<u64>>)
    ensures
        copy.deep_view() == groups.deep_view(),
{
    let mut copy: Vec<Vec<u64>> = Vec::new();
    let mut g: usize = 0;
    while g < groups.len()
        invariant
            g <= groups.len(),
            copy.len() == g,
            forall|i: int| 0 <= i < g ==> (#[trigger] copy[i])@ == groups[i]@,
        decreases groups.len() - g,
    {
        copy.push(slice_to_vec(groups[g].as_slice()));
        g += 1;
    }
    assert(copy.deep_view() =~= groups.deep_view());
    copy
}

fn copy_pieces(pieces: &Vec<Vec<u8>>) -> (copy: Vec<Vec<u8>>)
    ensures
        copy.deep_view() == pieces.deep_view(),
{
    let mut copy: Vec<Vec<u8>> = Vec::new();
    let mut g: usize = 0;
    while g < pieces.len()
        invariant
            g <= pieces.len(),
            copy.len() == g,
            forall|i: int| 0 <= i < g ==> (#[trigger] copy[i])@ == pieces[i]@,
        decreases pieces.len() - g,
    {
        copy.push(slice_to_vec(pieces[g].as_slice()));
        g += 1;
    }
    assert(copy.deep_view() =~= pieces.deep_view());
    copy
}

/// Appends what becomes of one call of the parser.
fn settle_call(events: &mut Vec<Event>, pending: &[u8], call: &Event)
    ensures
        final(events).deep_view() == old(events).deep_view() + settled_call(
            pending@,
            call.deep_view(),
        ),
{
    let ghost before = events.deep_view();
    match call {
        Event::Print(c) => {
            if *c == '\u{7f}' {
                events.push(Event::Execute(0x7f));
            } else {
                events.push(Event::Print(*c));
            }
        },
        Event::Hook { params, intermediates, ignore, action } => {
            events.push(
                Event::Hook {
                    params: exact(pending, params),
                    intermediates: slice_to_vec(intermediates.as_slice()),
                    ignore: *ignore,
                    action: *action,
                },
            );
        },
        Event::CsiDispatch { params, intermediates, ignore, action } => {
            events.push(
                Event::CsiDispatch {
                    params: exact(pending, params),
                    intermediates: slice_to_vec(intermediates.as_slice()),
                    ignore: *ignore,
                    action: *action,
                },
            );
        },
        Event::OscDispatch { slices, bell_terminated } => {
            if *bell_terminated {
                events.push(
                    Event::OscDispatch { slices: split_bytes(pending, false), bell_terminated: true },
                );
            }
        },
        _ => {
            events.push(same(call));
        },
    }
    assert(events.deep_view() =~= before + settled_call(pending@, call.deep_view()));
}

/// The events of a byte that breaks no string off, from the parser's calls
/// for it.
pub fn settle(mode: Mode, pending: &[u8], byte: u8, calls: &Vec<Event>) -> (events: Vec<Event>)
    ensures
        events.deep_view() == settled(mode, pending@, byte, calls.deep_view()),
{
    let mut events: Vec<Event> = Vec::new();
    match mode {
        Mode::OscEscape => {
            if byte == 0x5c {
                events.push(
                    Event::OscDispatch {
                        slices: split_bytes(pending, false),
                        bell_terminated: false,
                    },
                );
                assert(events.deep_view() =~= settled(mode, pending@, byte, calls.deep_view()));
                return events;
            }
        },
        Mode::DcsEscape => {
            if byte == 0x5c {
                assert(events.deep_view() =~= settled(mode, pending@, byte, calls.deep_view()));
                return events;
            }
        },
        _ => {},
    }
    let mut i: usize = 0;
    assert(calls.deep_view().take(0) =~= Seq::<EventModel>::empty());
    assert(events.deep_view() =~= Seq::<EventModel>::empty());
    while i < calls.len()
        invariant
            i <= calls.len(),
            events.deep_view() == settled_calls(pending@, calls.deep_view().take(i as int)),
        decreases calls.len() - i,
    {
        proof {
            let upto = calls.deep_view().take(i + 1);
            assert(upto.drop_last() =~= calls.deep_view().take(i as int));
            assert(upto.last() == calls[i as int].deep_view());
        }
        settle_call(&mut events, pending, &calls[i]);
        i += 1;
    }
    assert(calls.deep_view().take(calls.len() as int) =~= calls.deep_view());
    events
}

/// The mode after a byte that breaks no string off.
pub fn next_mode(mode: Mode, byte: u8, calls: &Vec<Event>) -> (next: Mode)
    ensures
        next == mode_after(mode, byte, calls.deep_view()),
{
    let count = calls.len();
    let mut prints = false;
    let mut hooks = false;
    let mut unhooks = false;
    if count > 0 {
        assert(calls.deep_view().last() == calls[count - 1].deep_view());
        match &calls[count - 1] {
            Event::Print(_) => {
                prints = true;
            },
            Event::Hook { .. } => {
                hooks = true;
            },
            Event::Unhook => {
                unhooks = true;
            },
            _ => {},
        }
    }
    if byte == 0x1b && !prints {
        match mode {
            Mode::Osc => Mode::OscEscape,
            Mode::Dcs | Mode::DcsData => Mode::DcsEscape,
            _ => Mode::Escape,
        }
    } else if byte == 0x18 || byte == 0x1a {
        Mode::Outside
    } else {
        match mode {
            Mode::Outside => Mode::Outside,
            Mode::Escape | Mode::OscEscape | Mode::DcsEscape => if byte == 0x5d {
                Mode::Osc
            } else if byte == 0x50 {
                Mode::Dcs
            } else if byte < 0x20 || byte == 0x7f || byte >= 0x80 {
                Mode::Escape
            } else {
                Mode::Outside
            },
            Mode::Osc => if byte == 0x07 {
                Mode::Outside
            } else {
                Mode::Osc
            },
            Mode::Dcs => if hooks {
                Mode::DcsData
            } else if prints {
                Mode::Outside
            } else {
                Mode::Dcs
            },
            Mode::DcsData => if unhooks || prints {
                Mode::Outside
            } else {
                Mode::DcsData
            },
        }
    }
}

/// Brings the bytes kept for the sequence in progress up to date after a
/// byte that breaks no string off.
pub fn update_pending(mode: Mode, next: Mode, pending: &mut Vec<u8>, byte: u8, calls: &Vec<Event>)
    ensures
        final(pending)@ == pending_after(mode, next, old(pending)@, byte, calls.deep_view()),
{
    let count = calls.len();
    let mut executes = false;
    if count > 0 {
        assert(calls.deep_view().last() == calls[count - 1].deep_view());
        match &calls[count - 1] {
            Event::Execute(_) => {
                executes = true;
            },
            _ => {},
        }
    }
    let was_osc = match mode {
        Mode::Osc => true,
        _ => false,
    };
    let was_osc_escape = match mode {
        Mode::OscEscape => true,
        _ => false,
    };
    match next {
        Mode::Osc => {
            if was_osc {
                pending.push(byte);
            } else {
                pending.clear();
            }
        },
        Mode::OscEscape => {},
        _ => {
            if was_osc || was_osc_escape || byte == 0x1b || byte == 0x18 || byte == 0x1a || (count
                > 0 && !executes) {
                pending.clear();
            } else if 0x30 <= byte && byte <= 0x3b {
                pending.push(byte);
            }
        },
    }
    assert(pending@ =~= pending_after(mode, next, old(pending)@, byte, calls.deep_view()));
}

} // verus!
