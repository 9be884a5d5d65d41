//! The note dispatcher: which message a key event owes, and how the per-note
//! state moves once the transport has reported on that message.
//!
//! The dispatcher never touches the transport. A caller that holds both
//! behind one lock asks for the message an event owes, sends it, and hands
//! the outcome back with `complete` before it lets the lock go.

use crate::mapping::{lemma_lookup_range, Mapping, MappingView};
use crate::message::Message;
use device_query::Keycode;
use vstd::prelude::*;

verus! {

/// Why the transport did not take a message.
#[derive(Clone, Copy, Debug, PartialEq, Eq, Structural)]
pub enum TransportError {
    /// The transport refused the bytes as no valid message.
    InvalidData,
    /// The transport failed to deliver the bytes.
    Io,
}

/// A key transition.
#[derive(Clone, Copy, Debug)]
pub enum Event {
    /// The key went down.
    KeyDown(Keycode),
    /// The key came up.
    KeyUp(Keycode),
}

/// What a dispatcher is, mathematically: the table and one flag per key,
/// in the table's order, that tells whether the key's note is sounding.
pub ghost struct DispatcherView {
    pub mapping: MappingView,
    pub sounding: Seq<bool>,
}

impl DispatcherView {
    /// A well-formed table, and one flag for each of its keys.
    pub open spec fn wf(self) -> bool {
        self.mapping.wf() && self.sounding.len() == self.mapping.keys.len()
    }

    /// Whether `note` has had its Note On and not yet its Note Off.
    pub open spec fn is_sounding(self, note: u8) -> bool {
        self.mapping.plays(note) && self.sounding[note - self.mapping.start]
    }

    /// The message that a key-down owes: a Note On for a mapped key whose
    /// note is silent, nothing for an unmapped key or a repeated key-down.
    pub open spec fn key_down(self, key: Keycode) -> Option<Message> {
        match self.mapping.lookup(key) {
            Some(note) => if self.is_sounding(note) {
                None
            } else {
                Some(Message::NoteOn { note })
            },
            None => None,
        }
    }

    /// The message that a key-up owes: a Note Off for a mapped key whose
    /// note is sounding, nothing otherwise.
    pub open spec fn key_up(self, key: Keycode) -> Option<Message> {
        match self.mapping.lookup(key) {
            Some(note) => if self.is_sounding(note) {
                Some(Message::NoteOff { note })
            } else {
                None
            },
            None => None,
        }
    }

    /// The message that `event` owes.
    pub open spec fn owed(self, event: Event) -> Option<Message> {
        match event {
            Event::KeyDown(key) => self.key_down(key),
            Event::KeyUp(key) => self.key_up(key),
        }
    }

    /// The state once `message` has gone out: its note sounds after a Note
    /// On and is silent after a Note Off. A message for a note that no key
    /// plays changes nothing.
    pub open spec fn delivered(self, message: Message) -> DispatcherView {
        if self.mapping.plays(message.spec_note()) {
            DispatcherView {
                mapping: self.mapping,
                sounding: self.sounding.update(
                    message.spec_note() - self.mapping.start,
                    message is NoteOn,
                ),
            }
        } else {
            self
        }
    }

    /// The state once the transport has reported on `message`: moved on
    /// success, untouched on failure.
    pub open spec fn settled(self, message: Message, success: bool) -> DispatcherView {
        if success {
            self.delivered(message)
        } else {
            self
        }
    }

    /// The notes that the table's keys play, in the table's order.
    pub open spec fn mapped_notes(self) -> Seq<u8> {
        Seq::new(self.mapping.keys.len(), |i: int| (self.mapping.start + i) as u8)
    }

    /// The test that picks the sounding notes.
    pub open spec fn sounding_test(self) -> spec_fn(u8) -> bool {
        |note: u8| self.is_sounding(note)
    }

    /// The sounding notes, ascending.
    pub open spec fn sounding_notes(self) -> Seq<u8> {
        self.mapped_notes().filter(self.sounding_test())
    }

    /// One Note Off for each sounding note, ascending.
    pub open spec fn note_offs(self) -> Seq<Message> {
        self.sounding_notes().map_values(|note: u8| Message::NoteOff { note })
    }

    /// The same table with every note silent.
    pub open spec fn silenced(self) -> DispatcherView {
        DispatcherView {
            mapping: self.mapping,
            sounding: Seq::new(self.mapping.keys.len(), |i: int| false),
        }
    }
}

/// The table together with the state of its notes.
pub struct Dispatcher {
    mapping: Mapping,
    sounding: Vec<bool>,
}

impl View for Dispatcher {
    type V = DispatcherView;

    closed spec fn view(&self) -> DispatcherView {
        DispatcherView { mapping: self.mapping@, sounding: self.sounding@ }
    }
}

impl Dispatcher {
    #[verifier::type_invariant]
    spec fn inv(self) -> bool {
        self@.wf()
    }

    /// A dispatcher for `mapping` with every note silent.
    pub fn new(mapping: Mapping) -> (d: Dispatcher)
        ensures
            d@.wf(),
            d@.mapping == mapping@,
            d@ == d@.silenced(),
    {
        let n = mapping.len();
        let mut sounding: Vec<bool> = Vec::new();
        let mut i: usize = 0;
        while i < n
            invariant
                i <= n,
                sounding@.len() == i,
                forall|j: int| 0 <= j < i ==> !sounding@[j],
            decreases n - i,
        {
            sounding.push(false);
            i += 1;
        }
        let d = Dispatcher { mapping, sounding };
        assert(d@.sounding =~= d@.silenced().sounding);
        d
    }

    /// The table that the dispatcher works with.
    pub fn mapping(&self) -> (m: &Mapping)
        ensures
            m@ == self@.mapping,
            self@.wf(),
    {
        proof {
            use_type_invariant(self);
        }
        &self.mapping
    }

    /// Whether `note` is sounding.
    pub fn is_sounding(&self, note: u8) -> (b: bool)
        ensures
            b == self@.is_sounding(note),
            self@.wf(),
    {
        proof {
            use_type_invariant(self);
        }
        let start = self.mapping.start();
        if note < start {
            return false;
        }
        let offset: usize = (note - start) as usize;
        offset < self.sounding.len() && self.sounding[offset]
    }

    /// The message that a key-down of `key` owes, if it owes one. The state
    /// stays as it is until `complete` reports the send.
    pub fn on_key_down(&self, key: Keycode) -> (owed: Option<Message>)
        ensures
            owed == self@.key_down(key),
            self@.wf(),
            owed is Some ==> owed.unwrap().wf(),
    {
        proof {
            use_type_invariant(self);
            lemma_lookup_range(self@.mapping, key);
        }
        match self.mapping.lookup(key) {
            Some(note) => {
                if self.is_sounding(note) {
                    None
                } else {
                    Some(Message::NoteOn { note })
                }
            },
            None => None,
        }
    }

    /// The message that a key-up of `key` owes, if it owes one. The state
    /// stays as it is until `complete` reports the send.
    pub fn on_key_up(&self, key: Keycode) -> (owed: Option<Message>)
        ensures
            owed == self@.key_up(key),
            self@.wf(),
            owed is Some ==> owed.unwrap().wf(),
    {
        proof {
            use_type_invariant(self);
            lemma_lookup_range(self@.mapping, key);
        }
        match self.mapping.lookup(key) {
            Some(note) => {
                if self.is_sounding(note) {
                    Some(Message::NoteOff { note })
                } else {
                    None
                }
            },
            None => None,
        }
    }

    /// The message that `event` owes, if it owes one.
    pub fn on_event(&self, event: Event) -> (owed: Option<Message>)
        ensures
            owed == self@.owed(event),
            self@.wf(),
            owed is Some ==> owed.unwrap().wf(),
    {
        match event {
            Event::KeyDown(key) => self.on_key_down(key),
            Event::KeyUp(key) => self.on_key_up(key),
        }
    }

    /// Takes the transport's report on `message`. After a success the note
    /// sounds (Note On) or is silent (Note Off); after a failure the state is
    /// untouched. The report is handed back for the caller to surface.
    pub fn complete(&mut self, message: Message, outcome: Result<(), TransportError>) -> (r: Result<
        (),
        TransportError,
    >)
        ensures
            r == outcome,
            final(self)@ == old(self)@.settled(message, outcome is Ok),
            final(self)@.wf(),
    {
        proof {
            use_type_invariant(&*self);
        }
        if outcome.is_ok() {
            let note = message.note();
            let start = self.mapping.start();
            if note >= start {
                let offset: usize = (note - start) as usize;
                if offset < self.sounding.len() {
                    let sounds = message.is_note_on();
                    self.sounding[offset] = sounds;
                }
            }
        }
        outcome
    }

    /// Forces every note back to silent and returns the Note Off messages
    /// that the sounding ones are owed, ascending by note. The state is
    /// cleared whatever becomes of those messages.
    pub fn shutdown(&mut self) -> (offs: Vec<Message>)
        ensures
            offs@ == old(self)@.note_offs(),
            final(self)@ == old(self)@.silenced(),
            final(self)@.wf(),
            forall|i: int| 0 <= i < offs@.len() ==> (#[trigger] offs@[i]).wf(),
    {
        proof {
            use_type_invariant(&*self);
        }
        let ghost before = self@;
        let ghost test = before.sounding_test();
        let ghost notes = before.mapped_notes();
        let start = self.mapping.start();
        let n = self.sounding.len();
        let mut offs: Vec<Message> = Vec::new();
        let mut i: usize = 0;
        assert(notes.take(0).filter(test) =~= Seq::<u8>::empty()) by {
            reveal(Seq::filter);
        }
        while i < n
            invariant
                i <= n == before.sounding.len(),
                before.wf(),
                start == before.mapping.start,
                test == before.sounding_test(),
                notes == before.mapped_notes(),
                self.mapping@ == before.mapping,
                self.sounding@.len() == n,
                forall|j: int| 0 <= j < i ==> !self.sounding@[j],
                forall|j: int| i <= j < n ==> self.sounding@[j] == before.sounding[j],
                offs@ == notes.take(i as int).filter(test).map_values(
                    |note: u8| Message::NoteOff { note },
                ),
                forall|j: int| 0 <= j < offs@.len() ==> (#[trigger] offs@[j]).wf(),
            decreases n - i,
        {
            let ghost done = notes.take(i as int);
            proof {
                assert(notes.take(i + 1) =~= done.push(notes[i as int]));
                done.lemma_filter_push(notes[i as int], test);
                assert(test(notes[i as int]) == before.sounding[i as int]);
            }
            if self.sounding[i] {
                let note: u8 = start + i as u8;
                offs.push(Message::NoteOff { note });
                self.sounding[i] = false;
                assert(offs@ =~= notes.take(i + 1).filter(test).map_values(
                    |note: u8| Message::NoteOff { note },
                ));
            }
            i += 1;
        }
        assert(notes.take(n as int) =~= notes);
        assert(self@.sounding =~= before.silenced().sounding);
        offs
    }
}

/// The sounding notes among the first `count` of the table: each of them
/// once, ascending, and nothing else.
proof fn lemma_sounding_prefix(s: DispatcherView, count: int)
    requires
        s.wf(),
        0 <= count <= s.mapping.keys.len(),
    ensures
        ({
            let found = s.mapped_notes().take(count).filter(s.sounding_test());
            &&& forall|i: int, j: int| 0 <= i < j < found.len() ==> found[i] < found[j]
            &&& forall|i: int|
                0 <= i < found.len() ==> s.is_sounding(#[trigger] found[i]) && found[i]
                    < s.mapping.start + count
            &&& forall|note: u8|
                s.is_sounding(note) && note < s.mapping.start + count ==> found.contains(note)
        }),
    decreases count,
{
    let notes = s.mapped_notes();
    let test = s.sounding_test();
    if count == 0 {
        assert(notes.take(0).filter(test) =~= Seq::<u8>::empty()) by {
            reveal(Seq::filter);
        }
    } else {
        let last = notes[count - 1];
        let earlier = notes.take(count - 1).filter(test);
        let found = notes.take(count).filter(test);
        lemma_sounding_prefix(s, count - 1);
        assert(notes.take(count) =~= notes.take(count - 1).push(last));
        notes.take(count - 1).lemma_filter_push(last, test);
        assert(test(last) == s.is_sounding(last));
        assert forall|note: u8|
            s.is_sounding(note) && note < s.mapping.start + count implies found.contains(
            note,
        ) by {
            if note == last {
                assert(found[found.len() - 1] == note);
            } else {
                let i = earlier.index_of(note);
                assert(earlier.contains(note));
                assert(found[i] == note);
            }
        }
    }
}

/// What a shutdown sends: Note Off messages only, one for every sounding
/// note and none for a silent one, ascending by note, so that no note is
/// ended twice. Afterwards no note sounds.
pub proof fn lemma_shutdown(s: DispatcherView)
    requires
        s.wf(),
    ensures
        forall|i: int|
            0 <= i < s.note_offs().len() ==> {
                &&& (#[trigger] s.note_offs()[i]) is NoteOff
                &&& s.note_offs()[i].wf()
                &&& s.is_sounding(s.note_offs()[i].spec_note())
            },
        forall|i: int, j: int|
            0 <= i < j < s.note_offs().len() ==> s.note_offs()[i].spec_note()
                < s.note_offs()[j].spec_note(),
        forall|note: u8| #[trigger]
            s.is_sounding(note) ==> s.note_offs().contains(Message::NoteOff { note }),
        s.silenced().wf(),
        forall|note: u8| !s.silenced().is_sounding(note),
{
    let count = s.mapping.keys.len() as int;
    let found = s.sounding_notes();
    lemma_sounding_prefix(s, count);
    assert(s.mapped_notes().take(count) =~= s.mapped_notes());
    assert forall|note: u8| #[trigger] s.is_sounding(note) implies s.note_offs().contains(
        Message::NoteOff { note },
    ) by {
        assert(found.contains(note));
        let i = found.index_of(note);
        assert(s.note_offs()[i] == Message::NoteOff { note });
    }
}

} // verus!
