//! The two channel voice messages and their three bytes on the wire.

use vstd::prelude::*;

verus! {

/// Status byte of a Note On on channel 0.
pub const NOTE_ON_STATUS: u8 = 0x90;

/// Status byte of a Note Off on channel 0.
pub const NOTE_OFF_STATUS: u8 = 0x80;

/// Velocity carried by every message.
pub const VELOCITY: u8 = 100;

/// Highest note number that a data byte can carry.
pub const MAX_NOTE: u8 = 127;

/// A channel voice message for one note.
#[derive(Clone, Copy, Debug, PartialEq, Eq, Structural)]
pub enum Message {
    /// Start the note.
    NoteOn { note: u8 },
    /// End the note.
    NoteOff { note: u8 },
}

impl Message {
    /// The note that the message is about.
    pub open spec fn spec_note(self) -> u8 {
        match self {
            Message::NoteOn { note } => note,
            Message::NoteOff { note } => note,
        }
    }

    /// Whether the message starts its note.
    pub open spec fn spec_is_note_on(self) -> bool {
        self is NoteOn
    }

    /// The status byte: the message kind in the high nibble, channel 0 in the low one.
    pub open spec fn status(self) -> u8 {
        match self {
            Message::NoteOn { .. } => NOTE_ON_STATUS,
            Message::NoteOff { .. } => NOTE_OFF_STATUS,
        }
    }

    /// A message is well formed when its note is a data byte.
    pub open spec fn wf(self) -> bool {
        self.spec_note() <= MAX_NOTE
    }

    /// The message as it goes over the wire: status, note, velocity.
    pub open spec fn wire(self) -> Seq<u8> {
        seq![self.status(), self.spec_note(), VELOCITY]
    }

    /// The note that the message is about.
    #[verifier::when_used_as_spec(spec_note)]
    pub fn note(self) -> (n: u8)
        ensures
            n == self.spec_note(),
    {
        match self {
            Message::NoteOn { note } => note,
            Message::NoteOff { note } => note,
        }
    }

    /// Whether the message starts its note.
    #[verifier::when_used_as_spec(spec_is_note_on)]
    pub fn is_note_on(self) -> (b: bool)
        ensures
            b == self.spec_is_note_on(),
    {
        match self {
            Message::NoteOn { .. } => true,
            Message::NoteOff { .. } => false,
        }
    }

    /// Encodes the message as its three wire bytes.
    pub fn to_bytes(&self) -> (bytes: [u8; 3])
        ensures
            bytes@ == self.wire(),
    {
        match self {
            Message::NoteOn { note } => [NOTE_ON_STATUS, *note, VELOCITY],
            Message::NoteOff { note } => [NOTE_OFF_STATUS, *note, VELOCITY],
        }
    }
}

/// Every message takes exactly three bytes, the first a status byte with the
/// high bit set and channel 0; a well-formed one has two data bytes after it.
pub proof fn lemma_wire_shape(m: Message)
    ensures
        m.wire().len() == 3,
        m.wire()[0] == NOTE_ON_STATUS || m.wire()[0] == NOTE_OFF_STATUS,
        m.wire()[0] == NOTE_ON_STATUS <==> m is NoteOn,
        m.wire()[1] == m.spec_note(),
        m.wire()[2] == VELOCITY,
        m.wf() ==> m.wire()[1] <= MAX_NOTE && m.wire()[2] <= MAX_NOTE,
{
}

} // verus!
