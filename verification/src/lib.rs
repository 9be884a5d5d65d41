//! Turns key transitions of a computer keyboard into MIDI Note On / Note Off
//! messages: an injective key-to-note table, the three-byte wire format, and
//! the per-note state machine that decides which message each event owes.

pub mod dispatcher;
pub mod key;
pub mod mapping;
pub mod message;
pub mod selection;
pub mod trace;
