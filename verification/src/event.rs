//! The events a decoder produces, and their mathematical model.

use vstd::prelude::*;

verus! {

/// One decoded unit of terminal output.
///
/// Parameters are kept as groups: each group is one parameter followed by
/// its sub-parameters, in the order they were written. A value is the decimal
/// number its digits spell, or `u64::MAX` where that does not fit.
#[derive(Debug, Clone, PartialEq, Eq)]
pub enum Event {
    /// A character to draw.
    Print(char),
    /// A control byte to act on.
    Execute(u8),
    /// The start of a device control string.
    Hook { params: Vec<Vec<u64>>, intermediates: Vec<u8>, ignore: bool, action: char },
    /// One data byte of the device control string in progress.
    Put(u8),
    /// The end of the device control string in progress.
    Unhook,
    /// A complete operating system command, split at its separators.
    OscDispatch { slices: Vec<Vec<u8>>, bell_terminated: bool },
    /// A complete control sequence.
    CsiDispatch { params: Vec<Vec<u64>>, intermediates: Vec<u8>, ignore: bool, action: char },
    /// A complete escape sequence.
    EscDispatch { intermediates: Vec<u8>, ignore: bool, byte: u8 },
}

/// What an [`Event`] means, with sequences in place of vectors.
pub enum EventModel {
    Print(char),
    Execute(u8),
    Hook { params: Seq<Seq<u64>>, intermediates: Seq<u8>, ignore: bool, action: char },
    Put(u8),
    Unhook,
    OscDispatch { slices: Seq<Seq<u8>>, bell_terminated: bool },
    CsiDispatch { params: Seq<Seq<u64>>, intermediates: Seq<u8>, ignore: bool, action: char },
    EscDispatch { intermediates: Seq<u8>, ignore: bool, byte: u8 },
}

impl DeepView for Event {
    type V = EventModel;

    open spec fn deep_view(&self) -> EventModel {
        match *self {
            Event::Print(c) => EventModel::Print(c),
            Event::Execute(byte) => EventModel::Execute(byte),
            Event::Hook { params, intermediates, ignore, action } => EventModel::Hook {
                params: params.deep_view(),
                intermediates: intermediates@,
                ignore,
                action,
            },
            Event::Put(byte) => EventModel::Put(byte),
            Event::Unhook => EventModel::Unhook,
            Event::OscDispatch { slices, bell_terminated } => EventModel::OscDispatch {
                slices: slices.deep_view(),
                bell_terminated,
            },
            Event::CsiDispatch { params, intermediates, ignore, action } => EventModel::CsiDispatch {
                params: params.deep_view(),
                intermediates: intermediates@,
                ignore,
                action,
            },
            Event::EscDispatch { intermediates, ignore, byte } => EventModel::EscDispatch {
                intermediates: intermediates@,
                ignore,
                byte,
            },
        }
    }
}

impl View for Event {
    type V = EventModel;

    open spec fn view(&self) -> EventModel {
        self.deep_view()
    }
}

} // verus!
