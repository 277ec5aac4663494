//! Decoding of terminal output into control events.
//!
//! A child process attached to a pseudo-terminal writes an unbounded stream
//! of bytes in arbitrary chunks. This crate turns that stream into a sequence
//! of [`event::Event`]s, renders the events as log lines, and holds the rules
//! of the loop that reads, decodes and stops at the end of the stream.
//!
//! The escape-sequence automaton itself is the `vte` crate's parser. It is
//! reached through the few declarations of [`vt`], whose contracts are
//! believed; everything else here is proved against them. The parser frames
//! the sequences; [`rules`] decides from the bytes what they carry.

pub mod event;
pub mod vt;
pub mod rules;
pub mod decoder;
pub mod text;
pub mod performer;
pub mod session;
