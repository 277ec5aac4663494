//! The logging sink: one line of text for every event.

use vstd::prelude::*;
use crate::decoder::{decode, lemma_decode_split, Decoder};
use crate::event::{Event, EventModel};
use crate::text::{
    bool_text, byte_list, byte_lists, char_debug_text, hex2, params_text, push_bool,
    push_byte_list, push_byte_lists, push_char_debug, push_hex2, push_params,
};

verus! {

/// The line for a printed character.
pub open spec fn print_line(c: char) -> Seq<char> {
    "[print] "@ + char_debug_text(c)
}

/// The line for an executed control byte.
pub open spec fn execute_line(byte: u8) -> Seq<char> {
    "[execute] "@ + hex2(byte)
}

/// The line for the start of a device control string.
pub open spec fn hook_line(
    params: Seq<Seq<u64>>,
    intermediates: Seq<u8>,
    ignore: bool,
    action: char,
) -> Seq<char> {
    "[hook] params="@ + params_text(params) + ", intermediates="@ + byte_list(intermediates)
        + ", ignore="@ + bool_text(ignore) + ", char="@ + char_debug_text(action)
}

/// The line for one data byte of a device control string.
pub open spec fn put_line(byte: u8) -> Seq<char> {
    "[put] "@ + hex2(byte)
}

/// The line for the end of a device control string.
pub open spec fn unhook_line() -> Seq<char> {
    "[unhook]"@
}

/// The line for an operating system command.
pub open spec fn osc_line(slices: Seq<Seq<u8>>, bell_terminated: bool) -> Seq<char> {
    "[osc_dispatch] params="@ + byte_lists(slices) + " bell_terminated="@ + bool_text(
        bell_terminated,
    )
}

/// The line for a control sequence.
pub open spec fn csi_line(
    params: Seq<Seq<u64>>,
    intermediates: Seq<u8>,
    ignore: bool,
    action: char,
) -> Seq<char> {
    "[csi_dispatch] params="@ + params_text(params) + ", intermediates="@ + byte_list(
        intermediates,
    ) + ", ignore="@ + bool_text(ignore) + ", char="@ + char_debug_text(action)
}

/// The line for an escape sequence.
pub open spec fn esc_line(intermediates: Seq<u8>, ignore: bool, byte: u8) -> Seq<char> {
    "[esc_dispatch] intermediates="@ + byte_list(intermediates) + ", ignore="@ + bool_text(ignore)
        + ", byte="@ + hex2(byte)
}

/// The line for an event, whatever its kind.
pub open spec fn event_line(event: EventModel) -> Seq<char> {
    match event {
        EventModel::Print(c) => print_line(c),
        EventModel::Execute(byte) => execute_line(byte),
        EventModel::Hook { params, intermediates, ignore, action } => hook_line(
            params,
            intermediates,
            ignore,
            action,
        ),
        EventModel::Put(byte) => put_line(byte),
        EventModel::Unhook => unhook_line(),
        EventModel::OscDispatch { slices, bell_terminated } => osc_line(slices, bell_terminated),
        EventModel::CsiDispatch { params, intermediates, ignore, action } => csi_line(
            params,
            intermediates,
            ignore,
            action,
        ),
        EventModel::EscDispatch { intermediates, ignore, byte } => esc_line(
            intermediates,
            ignore,
            byte,
        ),
    }
}

/// The lines for a sequence of events: one each, in the same order.
pub open spec fn log_lines(events: Seq<EventModel>) -> Seq<Seq<char>> {
    Seq::new(events.len(), |i: int| event_line(events[i]))
}

/// A sink that keeps a log: every event it is given becomes one more line.
pub struct Performer {
    lines: Vec<String>,
}

impl View for Performer {
    type V = Seq<Seq<char>>;

    closed spec fn view(&self) -> Seq<Seq<char>> {
        self.lines.deep_view()
    }
}

impl Performer {
    /// A sink with an empty log.
    pub fn new() -> (performer: Performer)
        ensures
            performer@ == Seq::<Seq<char>>::empty(),
    {
        let performer = Performer { lines: Vec::new() };
        assert(performer.lines.deep_view() =~= Seq::<Seq<char>>::empty());
        performer
    }

    fn log(&mut self, line: String)
        ensures
            final(self)@ == old(self)@.push(line@),
    {
        self.lines.push(line);
        assert(self.lines.deep_view() =~= old(self).lines.deep_view().push(line@));
    }

    /// Logs a character to draw.
    pub fn print(&mut self, c: char)
        ensures
            final(self)@ == old(self)@.push(print_line(c)),
    {
        let mut line = String::new();
        line.append("[print] ");
        push_char_debug(&mut line, c);
        assert(line@ =~= print_line(c));
        self.log(line);
    }

    /// Logs a control byte.
    pub fn execute(&mut self, byte: u8)
        ensures
            final(self)@ == old(self)@.push(execute_line(byte)),
    {
        let mut line = String::new();
        line.append("[execute] ");
        push_hex2(&mut line, byte);
        assert(line@ =~= execute_line(byte));
        self.log(line);
    }

    /// Logs the start of a device control string.
    pub fn hook(
        &mut self,
        params: &Vec<Vec<u64>>,
        intermediates: &[u8],
        ignore: bool,
        action: char,
    )
        ensures
            final(self)@ == old(self)@.push(
                hook_line(params.deep_view(), intermediates@, ignore, action),
            ),
    {
        let mut line = String::new();
        line.append("[hook] params=");
        push_params(&mut line, params);
        line.append(", intermediates=");
        push_byte_list(&mut line, intermediates);
        line.append(", ignore=");
        push_bool(&mut line, ignore);
        line.append(", char=");
        push_char_debug(&mut line, action);
        assert(line@ =~= hook_line(params.deep_view(), intermediates@, ignore, action));
        self.log(line);
    }

    /// Logs one data byte of a device control string.
    pub fn put(&mut self, byte: u8)
        ensures
            final(self)@ == old(self)@.push(put_line(byte)),
    {
        let mut line = String::new();
        line.append("[put] ");
        push_hex2(&mut line, byte);
        assert(line@ =~= put_line(byte));
        self.log(line);
    }

    /// Logs the end of a device control string.
    pub fn unhook(&mut self)
        ensures
            final(self)@ == old(self)@.push(unhook_line()),
    {
        let mut line = String::new();
        line.append("[unhook]");
        assert(line@ =~= unhook_line());
        self.log(line);
    }

    /// Logs an operating system command.
    pub fn osc_dispatch(&mut self, slices: &Vec<Vec<u8>>, bell_terminated: bool)
        ensures
            final(self)@ == old(self)@.push(osc_line(slices.deep_view(), bell_terminated)),
    {
        let mut line = String::new();
        line.append("[osc_dispatch] params=");
        push_byte_lists(&mut line, slices);
        line.append(" bell_terminated=");
        push_bool(&mut line, bell_terminated);
        assert(line@ =~= osc_line(slices.deep_view(), bell_terminated));
        self.log(line);
    }

    /// Logs a control sequence.
    pub fn csi_dispatch(
        &mut self,
        params: &Vec<Vec<u64>>,
        intermediates: &[u8],
        ignore: bool,
        action: char,
    )
        ensures
            final(self)@ == old(self)@.push(
                csi_line(params.deep_view(), intermediates@, ignore, action),
            ),
    {
        let mut line = String::new();
        line.append("[csi_dispatch] params=");
        push_params(&mut line, params);
        line.append(", intermediates=");
        push_byte_list(&mut line, intermediates);
        line.append(", ignore=");
        push_bool(&mut line, ignore);
        line.append(", char=");
        push_char_debug(&mut line, action);
        assert(line@ =~= csi_line(params.deep_view(), intermediates@, ignore, action));
        self.log(line);
    }

    /// Logs an escape sequence.
    pub fn esc_dispatch(&mut self, intermediates: &[u8], ignore: bool, byte: u8)
        ensures
            final(self)@ == old(self)@.push(esc_line(intermediates@, ignore, byte)),
    {
        let mut line = String::new();
        line.append("[esc_dispatch] intermediates=");
        push_byte_list(&mut line, intermediates);
        line.append(", ignore=");
        push_bool(&mut line, ignore);
        line.append(", byte=");
        push_hex2(&mut line, byte);
        assert(line@ =~= esc_line(intermediates@, ignore, byte));
        self.log(line);
    }

    /// Logs an event through the method of its kind.
    pub fn dispatch(&mut self, event: &Event)
        ensures
            final(self)@ == old(self)@.push(event_line(event@)),
    {
        match event {
            Event::Print(c) => self.print(*c),
            Event::Execute(byte) => self.execute(*byte),
            Event::Hook { params, intermediates, ignore, action } => self.hook(
                params,
                intermediates.as_slice(),
                *ignore,
                *action,
            ),
            Event::Put(byte) => self.put(*byte),
            Event::Unhook => self.unhook(),
            Event::OscDispatch { slices, bell_terminated } => self.osc_dispatch(
                slices,
                *bell_terminated,
            ),
            Event::CsiDispatch { params, intermediates, ignore, action } => self.csi_dispatch(
                params,
                intermediates.as_slice(),
                *ignore,
                *action,
            ),
            Event::EscDispatch { intermediates, ignore, byte } => self.esc_dispatch(
                intermediates.as_slice(),
                *ignore,
                *byte,
            ),
        }
    }

    /// Logs the events in order.
    pub fn dispatch_all(&mut self, events: &Vec<Event>)
        ensures
            final(self)@ == old(self)@ + log_lines(events.deep_view()),
    {
        let mut i: usize = 0;
        assert(old(self)@ + log_lines(events.deep_view()).take(0) =~= old(self)@);
        while i < events.len()
            invariant
                i <= events.len(),
                self@ == old(self)@ + log_lines(events.deep_view()).take(i as int),
            decreases events.len() - i,
        {
            self.dispatch(&events[i]);
            proof {
                let lines = log_lines(events.deep_view());
                assert(events.deep_view()[i as int] == events[i as int]@);
                assert(lines.take(i + 1) =~= lines.take(i as int).push(lines[i as int]));
                assert(self@ =~= old(self)@ + lines.take(i + 1));
            }
            i += 1;
        }
        assert(log_lines(events.deep_view()).take(events.len() as int) =~= log_lines(
            events.deep_view(),
        ));
    }

    /// The log so far, oldest line first.
    pub fn lines(&self) -> (lines: &Vec<String>)
        ensures
            lines.deep_view() == self@,
    {
        &self.lines
    }

    /// Hands out the log so far and starts an empty one.
    pub fn take_lines(&mut self) -> (lines: Vec<String>)
        ensures
            lines.deep_view() == old(self)@,
            final(self)@ == Seq::<Seq<char>>::empty(),
    {
        let mut lines: Vec<String> = Vec::new();
        core::mem::swap(&mut self.lines, &mut lines);
        assert(self.lines.deep_view() =~= Seq::<Seq<char>>::empty());
        lines
    }

    /// Hands out the log, oldest line first.
    pub fn into_lines(self) -> (lines: Vec<String>)
        ensures
            lines.deep_view() == self@,
    {
        self.lines
    }
}

/// Decodes the next chunk of terminal output with the decoder of its stream
/// and returns the log of the chunk: one line for each event that the chunk
/// completes, in the order of the bytes. The decoder carries what is left
/// unfinished to the next chunk.
pub fn parse_ansi_escape(decoder: &mut Decoder, read_bytes: Vec<u8>) -> (lines: Vec<String>)
    ensures
        final(decoder).consumed() == old(decoder).consumed() + read_bytes@,
        lines.deep_view() == log_lines(decode(old(decoder).consumed(), read_bytes@)),
{
    let events = decoder.feed(read_bytes.as_slice());
    let mut log = Performer::new();
    log.dispatch_all(&events);
    assert(log@ =~= log_lines(events.deep_view()));
    log.into_lines()
}

/// The log of a stream that comes in two chunks is the log of the first
/// chunk followed by that of the second: where the cut falls changes no line.
pub proof fn lemma_log_of_two_chunks(prefix: Seq<u8>, first: Seq<u8>, second: Seq<u8>)
    ensures
        log_lines(decode(prefix, first + second)) == log_lines(decode(prefix, first)) + log_lines(
            decode(prefix + first, second),
        ),
{
    lemma_decode_split(prefix, first, second);
    assert(log_lines(decode(prefix, first) + decode(prefix + first, second)) =~= log_lines(
        decode(prefix, first),
    ) + log_lines(decode(prefix + first, second)));
}

} // verus!
