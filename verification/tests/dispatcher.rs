use device_query::Keycode;
use keymidi::dispatcher::{Dispatcher, Event, TransportError};
use keymidi::mapping::Mapping;
use keymidi::message::Message;

/// A transport that keeps what it was sent, and fails while `broken` is set.
struct Wire {
    sent: Vec<[u8; 3]>,
    broken: bool,
}

impl Wire {
    fn new() -> Wire {
        Wire { sent: Vec::new(), broken: false }
    }

    fn send(&mut self, bytes: [u8; 3]) -> Result<(), TransportError> {
        if self.broken {
            Err(TransportError::Io)
        } else {
            self.sent.push(bytes);
            Ok(())
        }
    }
}

fn handle(dispatcher: &mut Dispatcher, wire: &mut Wire, event: Event) -> Result<(), TransportError> {
    match dispatcher.on_event(event) {
        Some(message) => {
            let outcome = wire.send(message.to_bytes());
            dispatcher.complete(message, outcome)
        }
        None => Ok(()),
    }
}

fn jkl() -> Dispatcher {
    let mapping = Mapping::build(36, vec![Keycode::J, Keycode::K, Keycode::L]).ok().unwrap();
    Dispatcher::new(mapping)
}

#[test]
fn new_dispatcher_is_silent() {
    let d = jkl();
    for note in 0..=255u8 {
        assert!(!d.is_sounding(note));
    }
    assert_eq!(d.mapping().len(), 3);
    assert_eq!(d.mapping().start(), 36);
}

#[test]
fn example_down_down_up_down() {
    let mut d = jkl();
    let mut wire = Wire::new();
    assert_eq!(handle(&mut d, &mut wire, Event::KeyDown(Keycode::J)), Ok(()));
    assert_eq!(wire.sent, vec![[0x90, 36, 100]]);
    assert_eq!(handle(&mut d, &mut wire, Event::KeyDown(Keycode::K)), Ok(()));
    assert_eq!(wire.sent, vec![[0x90, 36, 100], [0x90, 37, 100]]);
    assert_eq!(handle(&mut d, &mut wire, Event::KeyUp(Keycode::J)), Ok(()));
    assert_eq!(wire.sent, vec![[0x90, 36, 100], [0x90, 37, 100], [0x80, 36, 100]]);
    assert_eq!(handle(&mut d, &mut wire, Event::KeyDown(Keycode::J)), Ok(()));
    assert_eq!(
        wire.sent,
        vec![[0x90, 36, 100], [0x90, 37, 100], [0x80, 36, 100], [0x90, 36, 100]]
    );
}

#[test]
fn shutdown_silences_sounding_notes() {
    let mut d = jkl();
    let mut wire = Wire::new();
    handle(&mut d, &mut wire, Event::KeyDown(Keycode::J)).unwrap();
    handle(&mut d, &mut wire, Event::KeyDown(Keycode::L)).unwrap();
    assert!(d.is_sounding(36) && !d.is_sounding(37) && d.is_sounding(38));
    let offs = d.shutdown();
    let bytes: Vec<[u8; 3]> = offs.iter().map(|m| m.to_bytes()).collect();
    assert_eq!(bytes.iter().filter(|b| **b == [0x80, 36, 100]).count(), 1);
    assert_eq!(bytes.iter().filter(|b| **b == [0x80, 38, 100]).count(), 1);
    assert_eq!(bytes.len(), 2);
    assert_eq!(offs, vec![Message::NoteOff { note: 36 }, Message::NoteOff { note: 38 }]);
    for note in 0..=255u8 {
        assert!(!d.is_sounding(note));
    }
}

#[test]
fn shutdown_of_silent_dispatcher_sends_nothing() {
    let mut d = jkl();
    assert_eq!(d.shutdown(), Vec::new());
    assert_eq!(d.shutdown(), Vec::new());
}

#[test]
fn shutdown_clears_state_whatever_the_sends_do() {
    let mut d = jkl();
    let mut wire = Wire::new();
    handle(&mut d, &mut wire, Event::KeyDown(Keycode::K)).unwrap();
    wire.broken = true;
    let offs = d.shutdown();
    assert_eq!(offs, vec![Message::NoteOff { note: 37 }]);
    for message in offs {
        assert_eq!(wire.send(message.to_bytes()), Err(TransportError::Io));
    }
    assert!(!d.is_sounding(37));
    assert_eq!(d.on_key_down(Keycode::K), Some(Message::NoteOn { note: 37 }));
}

#[test]
fn repeated_key_down_sends_one_note_on() {
    let mut d = jkl();
    let mut wire = Wire::new();
    handle(&mut d, &mut wire, Event::KeyDown(Keycode::K)).unwrap();
    handle(&mut d, &mut wire, Event::KeyDown(Keycode::K)).unwrap();
    handle(&mut d, &mut wire, Event::KeyDown(Keycode::K)).unwrap();
    assert_eq!(wire.sent, vec![[0x90, 37, 100]]);
    assert!(d.is_sounding(37));
    assert_eq!(d.on_key_down(Keycode::K), None);
}

#[test]
fn down_then_up_sends_on_then_off() {
    let mut d = jkl();
    let mut wire = Wire::new();
    handle(&mut d, &mut wire, Event::KeyDown(Keycode::L)).unwrap();
    handle(&mut d, &mut wire, Event::KeyUp(Keycode::L)).unwrap();
    assert_eq!(wire.sent, vec![[0x90, 38, 100], [0x80, 38, 100]]);
    assert!(!d.is_sounding(38));
}

#[test]
fn unmapped_key_sends_nothing() {
    let mut d = jkl();
    let mut wire = Wire::new();
    assert_eq!(d.on_key_down(Keycode::A), None);
    assert_eq!(d.on_key_up(Keycode::A), None);
    handle(&mut d, &mut wire, Event::KeyDown(Keycode::A)).unwrap();
    handle(&mut d, &mut wire, Event::KeyUp(Keycode::A)).unwrap();
    assert!(wire.sent.is_empty());
    for note in 0..=255u8 {
        assert!(!d.is_sounding(note));
    }
}

#[test]
fn key_up_of_silent_note_sends_nothing() {
    let mut d = jkl();
    let mut wire = Wire::new();
    assert_eq!(d.on_key_up(Keycode::J), None);
    handle(&mut d, &mut wire, Event::KeyUp(Keycode::J)).unwrap();
    assert!(wire.sent.is_empty());
}

#[test]
fn owed_message_does_not_move_the_state() {
    let d = jkl();
    assert_eq!(d.on_key_down(Keycode::J), Some(Message::NoteOn { note: 36 }));
    assert!(!d.is_sounding(36));
    assert_eq!(d.on_key_down(Keycode::J), Some(Message::NoteOn { note: 36 }));
}

#[test]
fn failed_note_on_leaves_note_silent() {
    let mut d = jkl();
    let mut wire = Wire::new();
    wire.broken = true;
    assert_eq!(handle(&mut d, &mut wire, Event::KeyDown(Keycode::J)), Err(TransportError::Io));
    assert!(!d.is_sounding(36));
    assert_eq!(handle(&mut d, &mut wire, Event::KeyUp(Keycode::J)), Ok(()));
    wire.broken = false;
    assert_eq!(handle(&mut d, &mut wire, Event::KeyDown(Keycode::J)), Ok(()));
    assert_eq!(wire.sent, vec![[0x90, 36, 100]]);
    assert!(d.is_sounding(36));
}

#[test]
fn failed_note_off_leaves_note_sounding() {
    let mut d = jkl();
    let mut wire = Wire::new();
    handle(&mut d, &mut wire, Event::KeyDown(Keycode::J)).unwrap();
    wire.broken = true;
    assert_eq!(handle(&mut d, &mut wire, Event::KeyUp(Keycode::J)), Err(TransportError::Io));
    assert!(d.is_sounding(36));
    wire.broken = false;
    assert_eq!(handle(&mut d, &mut wire, Event::KeyUp(Keycode::J)), Ok(()));
    assert_eq!(wire.sent, vec![[0x90, 36, 100], [0x80, 36, 100]]);
    assert!(!d.is_sounding(36));
}

#[test]
fn complete_hands_the_outcome_back() {
    let mut d = jkl();
    let on = Message::NoteOn { note: 37 };
    assert_eq!(d.complete(on, Err(TransportError::InvalidData)), Err(TransportError::InvalidData));
    assert!(!d.is_sounding(37));
    assert_eq!(d.complete(on, Ok(())), Ok(()));
    assert!(d.is_sounding(37));
    assert_eq!(d.complete(Message::NoteOff { note: 37 }, Ok(())), Ok(()));
    assert!(!d.is_sounding(37));
}

#[test]
fn complete_ignores_notes_outside_the_table() {
    let mut d = jkl();
    assert_eq!(d.complete(Message::NoteOn { note: 35 }, Ok(())), Ok(()));
    assert_eq!(d.complete(Message::NoteOn { note: 39 }, Ok(())), Ok(()));
    assert_eq!(d.complete(Message::NoteOn { note: 200 }, Ok(())), Ok(()));
    for note in 0..=255u8 {
        assert!(!d.is_sounding(note));
    }
}

#[test]
fn final_state_follows_parity_of_alternating_events() {
    let keys = [Keycode::J, Keycode::K, Keycode::L];
    let counts = [5usize, 4, 1];
    let mut d = jkl();
    let mut wire = Wire::new();
    for round in 0..5 {
        for (key, count) in keys.iter().zip(counts.iter()) {
            if round < *count {
                let event = if round % 2 == 0 { Event::KeyDown(*key) } else { Event::KeyUp(*key) };
                handle(&mut d, &mut wire, event).unwrap();
            }
        }
    }
    assert!(d.is_sounding(36));
    assert!(!d.is_sounding(37));
    assert!(d.is_sounding(38));
    assert_eq!(wire.sent.len(), 10);
    for bytes in wire.sent.iter() {
        assert!(bytes[0] == 0x90 || bytes[0] == 0x80);
        assert!((36..=38).contains(&bytes[1]));
        assert_eq!(bytes[2], 100);
    }
}

#[test]
fn last_event_decides_under_key_repeat() {
    let mut d = jkl();
    let mut wire = Wire::new();
    for event in [
        Event::KeyDown(Keycode::J),
        Event::KeyDown(Keycode::J),
        Event::KeyUp(Keycode::J),
    ] {
        handle(&mut d, &mut wire, event).unwrap();
    }
    assert!(!d.is_sounding(36));
    assert_eq!(wire.sent, vec![[0x90, 36, 100], [0x80, 36, 100]]);
}

#[test]
fn dispatcher_at_the_top_of_the_range() {
    let mapping = Mapping::build(126, vec![Keycode::A, Keycode::B]).ok().unwrap();
    let mut d = Dispatcher::new(mapping);
    let mut wire = Wire::new();
    handle(&mut d, &mut wire, Event::KeyDown(Keycode::B)).unwrap();
    assert_eq!(wire.sent, vec![[0x90, 127, 100]]);
    assert!(d.is_sounding(127));
    assert!(!d.is_sounding(128));
    assert_eq!(d.shutdown(), vec![Message::NoteOff { note: 127 }]);
}
