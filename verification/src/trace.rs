//! What holds of whole runs of key events, every send succeeding: a repeated
//! key-down is silent, a down and its up give one Note On and one Note Off,
//! an unmapped key gives nothing, and a note ends up sounding exactly when
//! the last event of its key was a key-down.

use crate::dispatcher::{DispatcherView, Event};
use crate::mapping::lemma_lookup_range;
use crate::message::{lemma_wire_shape, Message};
use device_query::Keycode;
use vstd::prelude::*;

verus! {

impl Event {
    /// The key that the event is about.
    pub open spec fn key(self) -> Keycode {
        match self {
            Event::KeyDown(key) => key,
            Event::KeyUp(key) => key,
        }
    }
}

impl DispatcherView {
    /// The state after `event`, its message delivered if it owed one.
    pub open spec fn step(self, event: Event) -> DispatcherView {
        match self.owed(event) {
            Some(message) => self.delivered(message),
            None => self,
        }
    }

    /// The state after `events`, in order.
    pub open spec fn run(self, events: Seq<Event>) -> DispatcherView
        decreases events.len(),
    {
        if events.len() == 0 {
            self
        } else {
            self.run(events.drop_last()).step(events.last())
        }
    }

    /// The messages that `events` send, in order.
    pub open spec fn emitted(self, events: Seq<Event>) -> Seq<Message>
        decreases events.len(),
    {
        if events.len() == 0 {
            Seq::empty()
        } else {
            let earlier = self.emitted(events.drop_last());
            match self.run(events.drop_last()).owed(events.last()) {
                Some(message) => earlier.push(message),
                None => earlier,
            }
        }
    }
}

/// Whether `key` is held after `events`, given whether it was held before:
/// its last event decides, and without one nothing has changed.
pub open spec fn held_after(events: Seq<Event>, key: Keycode, held_before: bool) -> bool
    decreases events.len(),
{
    if events.len() == 0 {
        held_before
    } else if events.last().key() == key {
        events.last() is KeyDown
    } else {
        held_after(events.drop_last(), key, held_before)
    }
}

/// How many of `events` are about `key`.
pub open spec fn transitions_of(events: Seq<Event>, key: Keycode) -> nat
    decreases events.len(),
{
    if events.len() == 0 {
        0
    } else if events.last().key() == key {
        transitions_of(events.drop_last(), key) + 1
    } else {
        transitions_of(events.drop_last(), key)
    }
}

/// Whether the events of `key` come as a keyboard without repeat delivers
/// them: a key-down only while the key is up, a key-up only while it is down.
pub open spec fn alternates(events: Seq<Event>, key: Keycode, held_before: bool) -> bool
    decreases events.len(),
{
    if events.len() == 0 {
        true
    } else {
        &&& alternates(events.drop_last(), key, held_before)
        &&& events.last().key() == key ==> (events.last() is KeyDown) != held_after(
            events.drop_last(),
            key,
            held_before,
        )
    }
}

/// Whether `note` sounds once `messages` have gone out, given whether it
/// sounded before: the last message about it decides.
pub open spec fn sounding_after(messages: Seq<Message>, note: u8, sounding_before: bool) -> bool
    decreases messages.len(),
{
    if messages.len() == 0 {
        sounding_before
    } else if messages.last().spec_note() == note {
        messages.last() is NoteOn
    } else {
        sounding_after(messages.drop_last(), note, sounding_before)
    }
}

/// Whether the messages about `note` pair up: a Note On only while the note
/// is silent, a Note Off only while it sounds.
pub open spec fn paired(messages: Seq<Message>, note: u8, sounding_before: bool) -> bool
    decreases messages.len(),
{
    if messages.len() == 0 {
        true
    } else {
        &&& paired(messages.drop_last(), note, sounding_before)
        &&& messages.last().spec_note() == note ==> (messages.last() is NoteOn) != sounding_after(
            messages.drop_last(),
            note,
            sounding_before,
        )
    }
}

/// One event keeps the state well formed and the table as it is. A message
/// that it owes is well formed, about the event's own key, and flips that
/// note: a Note On goes out only for a silent note, a Note Off only for a
/// sounding one. Every other note stays as it was.
pub proof fn lemma_step(s: DispatcherView, event: Event)
    requires
        s.wf(),
    ensures
        s.step(event).wf(),
        s.step(event).mapping == s.mapping,
        match s.owed(event) {
            Some(message) => {
                &&& message.wf()
                &&& s.mapping.lookup(event.key()) == Some(message.spec_note())
                &&& message is NoteOn <==> event is KeyDown
                &&& s.is_sounding(message.spec_note()) == (message is NoteOff)
                &&& s.step(event).is_sounding(message.spec_note()) == (message is NoteOn)
                &&& forall|other: u8|
                    other != message.spec_note() ==> s.step(event).is_sounding(other)
                        == s.is_sounding(other)
            },
            None => s.step(event) == s,
        },
{
    lemma_lookup_range(s.mapping, event.key());
}

/// A run keeps the state well formed and the table as it is.
pub proof fn lemma_run_wf(s: DispatcherView, events: Seq<Event>)
    requires
        s.wf(),
    ensures
        s.run(events).wf(),
        s.run(events).mapping == s.mapping,
    decreases events.len(),
{
    if events.len() > 0 {
        lemma_run_wf(s, events.drop_last());
        lemma_step(s.run(events.drop_last()), events.last());
    }
}

/// Every message of a run is well formed and takes exactly three bytes on
/// the wire, and no run sends more messages than it has events.
pub proof fn lemma_emitted_wf(s: DispatcherView, events: Seq<Event>)
    requires
        s.wf(),
    ensures
        s.emitted(events).len() <= events.len(),
        forall|i: int|
            0 <= i < s.emitted(events).len() ==> {
                &&& (#[trigger] s.emitted(events)[i]).wf()
                &&& s.emitted(events)[i].wire().len() == 3
            },
    decreases events.len(),
{
    if events.len() > 0 {
        lemma_emitted_wf(s, events.drop_last());
        lemma_run_wf(s, events.drop_last());
        lemma_step(s.run(events.drop_last()), events.last());
        assert forall|i: int| 0 <= i < s.emitted(events).len() implies {
            &&& (#[trigger] s.emitted(events)[i]).wf()
            &&& s.emitted(events)[i].wire().len() == 3
        } by {
            lemma_wire_shape(s.emitted(events)[i]);
        }
    }
}

/// The messages of a run pair up for every note: no Note On for a note that
/// already sounds, no Note Off for a silent one. The state after the run is
/// what those messages leave sounding.
pub proof fn lemma_emitted_paired(s: DispatcherView, events: Seq<Event>, note: u8)
    requires
        s.wf(),
    ensures
        paired(s.emitted(events), note, s.is_sounding(note)),
        sounding_after(s.emitted(events), note, s.is_sounding(note)) == s.run(events).is_sounding(
            note,
        ),
    decreases events.len(),
{
    if events.len() > 0 {
        let before = s.run(events.drop_last());
        let earlier = s.emitted(events.drop_last());
        lemma_emitted_paired(s, events.drop_last(), note);
        lemma_run_wf(s, events.drop_last());
        lemma_step(before, events.last());
        match before.owed(events.last()) {
            Some(message) => {
                assert(earlier.push(message).drop_last() =~= earlier);
            },
            None => {},
        }
    }
}

/// What one event, and what two events, run and send.
pub proof fn lemma_unfold(s: DispatcherView, first: Event, second: Event)
    ensures
        s.run(seq![first]) == s.step(first),
        s.emitted(seq![first]) == match s.owed(first) {
            Some(message) => seq![message],
            None => Seq::<Message>::empty(),
        },
        s.run(seq![first, second]) == s.step(first).step(second),
        s.emitted(seq![first, second]) == match s.step(first).owed(second) {
            Some(message) => s.emitted(seq![first]).push(message),
            None => s.emitted(seq![first]),
        },
{
    let one = seq![first];
    let two = seq![first, second];
    assert(one.drop_last() =~= Seq::<Event>::empty());
    assert(two.drop_last() =~= one);
    assert(s.run(one.drop_last()) == s);
    assert(s.emitted(one.drop_last()) =~= Seq::<Message>::empty());
    assert(s.run(one) == s.step(first));
    match s.owed(first) {
        Some(message) => {
            assert(s.emitted(one) =~= seq![message]);
        },
        None => {},
    }
}

/// A key-down that follows a key-down of the same key sends nothing and
/// changes nothing: the two together send what the first alone sends, which
/// is one Note On if the key is mapped and its note was silent, and nothing
/// otherwise.
pub proof fn lemma_key_down_idempotent(s: DispatcherView, key: Keycode)
    requires
        s.wf(),
    ensures
        s.step(Event::KeyDown(key)).key_down(key) is None,
        s.run(seq![Event::KeyDown(key), Event::KeyDown(key)]) == s.run(seq![Event::KeyDown(key)]),
        s.emitted(seq![Event::KeyDown(key), Event::KeyDown(key)]) == s.emitted(
            seq![Event::KeyDown(key)],
        ),
        s.emitted(seq![Event::KeyDown(key), Event::KeyDown(key)]) == match s.mapping.lookup(key) {
            Some(note) => if s.is_sounding(note) {
                Seq::<Message>::empty()
            } else {
                seq![Message::NoteOn { note }]
            },
            None => Seq::<Message>::empty(),
        },
{
    let down = Event::KeyDown(key);
    lemma_step(s, down);
    lemma_lookup_range(s.mapping, key);
    lemma_unfold(s, down, down);
    lemma_step(s.step(down), down);
}

/// A key-down and the key-up of the same key, for a mapped key whose note was
/// silent, send the note's Note On and then its Note Off, and leave the state
/// as it was.
pub proof fn lemma_round_trip(s: DispatcherView, key: Keycode)
    requires
        s.wf(),
        s.mapping.lookup(key) is Some,
        !s.is_sounding(s.mapping.lookup(key).unwrap()),
    ensures
        s.emitted(seq![Event::KeyDown(key), Event::KeyUp(key)]) == seq![
            Message::NoteOn { note: s.mapping.lookup(key).unwrap() },
            Message::NoteOff { note: s.mapping.lookup(key).unwrap() },
        ],
        s.run(seq![Event::KeyDown(key), Event::KeyUp(key)]) == s,
{
    let down = Event::KeyDown(key);
    let up = Event::KeyUp(key);
    let note = s.mapping.lookup(key).unwrap();
    lemma_lookup_range(s.mapping, key);
    lemma_unfold(s, down, up);
    lemma_step(s, down);
    lemma_step(s.step(down), up);
    let end = s.step(down).step(up);
    assert(end.sounding =~= s.sounding);
    assert(s.emitted(seq![down, up]) =~= seq![
        Message::NoteOn { note },
        Message::NoteOff { note },
    ]);
}

/// Events of a key outside the table send nothing and change nothing,
/// wherever in a run they stand.
pub proof fn lemma_unmapped_key(s: DispatcherView, events: Seq<Event>, event: Event)
    requires
        s.mapping.lookup(event.key()) is None,
    ensures
        s.owed(event) is None,
        s.step(event) == s,
        s.run(events.push(event)) == s.run(events),
        s.emitted(events.push(event)) == s.emitted(events),
        s.emitted(seq![event]) == Seq::<Message>::empty(),
{
    assert(events.push(event).drop_last() =~= events);
    lemma_run_mapping(s, events);
    lemma_unfold(s, event, event);
}

/// A run leaves the table as it is, well formed or not.
pub proof fn lemma_run_mapping(s: DispatcherView, events: Seq<Event>)
    ensures
        s.run(events).mapping == s.mapping,
    decreases events.len(),
{
    if events.len() > 0 {
        lemma_run_mapping(s, events.drop_last());
    }
}

/// After a run, the note of a mapped key sounds exactly when the key is
/// held: when its last event was a key-down, or, without any event of its
/// own, when the note sounded before.
pub proof fn lemma_last_event_decides(s: DispatcherView, events: Seq<Event>, key: Keycode)
    requires
        s.wf(),
        s.mapping.lookup(key) is Some,
    ensures
        s.run(events).is_sounding(s.mapping.lookup(key).unwrap()) == held_after(
            events,
            key,
            s.is_sounding(s.mapping.lookup(key).unwrap()),
        ),
    decreases events.len(),
{
    if events.len() > 0 {
        let note = s.mapping.lookup(key).unwrap();
        let before = s.run(events.drop_last());
        let last = events.last();
        lemma_last_event_decides(s, events.drop_last(), key);
        lemma_run_wf(s, events.drop_last());
        lemma_step(before, last);
        lemma_lookup_range(s.mapping, key);
        lemma_lookup_range(s.mapping, last.key());
        if last.key() != key && before.owed(last) is Some {
            assert(before.owed(last).unwrap().spec_note() != note);
        }
    }
}

/// Where the events of a key alternate, the key is held after a run exactly
/// when the number of its events has changed parity against the start.
pub proof fn lemma_alternation_parity(events: Seq<Event>, key: Keycode, held_before: bool)
    requires
        alternates(events, key, held_before),
    ensures
        held_after(events, key, held_before) == (held_before != (transitions_of(events, key) % 2
            == 1)),
    decreases events.len(),
{
    if events.len() > 0 {
        lemma_alternation_parity(events.drop_last(), key, held_before);
    }
}

/// From silence, with the events of a mapped key alternating, the key's note
/// sounds after a run exactly when the key has had an odd number of events.
pub proof fn lemma_final_state_is_parity(s: DispatcherView, events: Seq<Event>, key: Keycode)
    requires
        s.wf(),
        s.mapping.lookup(key) is Some,
        !s.is_sounding(s.mapping.lookup(key).unwrap()),
        alternates(events, key, false),
    ensures
        s.run(events).is_sounding(s.mapping.lookup(key).unwrap()) == (transitions_of(events, key)
            % 2 == 1),
{
    lemma_last_event_decides(s, events, key);
    lemma_alternation_parity(events, key, false);
}

} // verus!
