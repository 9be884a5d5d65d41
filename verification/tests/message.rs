use keymidi::message::{Message, MAX_NOTE, NOTE_OFF_STATUS, NOTE_ON_STATUS, VELOCITY};

#[test]
fn note_on_wire_bytes() {
    assert_eq!(Message::NoteOn { note: 36 }.to_bytes(), [0x90, 36, 100]);
    assert_eq!(Message::NoteOn { note: 0 }.to_bytes(), [0x90, 0, 100]);
    assert_eq!(Message::NoteOn { note: 127 }.to_bytes(), [0x90, 127, 100]);
}

#[test]
fn note_off_wire_bytes() {
    assert_eq!(Message::NoteOff { note: 36 }.to_bytes(), [0x80, 36, 100]);
    assert_eq!(Message::NoteOff { note: 127 }.to_bytes(), [0x80, 127, 100]);
}

#[test]
fn wire_constants() {
    assert_eq!(NOTE_ON_STATUS, 0x90);
    assert_eq!(NOTE_OFF_STATUS, 0x80);
    assert_eq!(VELOCITY, 100);
    assert_eq!(MAX_NOTE, 127);
}

#[test]
fn message_accessors() {
    let on = Message::NoteOn { note: 60 };
    let off = Message::NoteOff { note: 61 };
    assert_eq!(on.note(), 60);
    assert_eq!(off.note(), 61);
    assert!(on.is_note_on());
    assert!(!off.is_note_on());
}

#[test]
fn every_note_encodes_to_status_and_two_data_bytes() {
    for note in 0..=127u8 {
        for message in [Message::NoteOn { note }, Message::NoteOff { note }] {
            let bytes = message.to_bytes();
            assert_eq!(bytes.len(), 3);
            assert!(bytes[0] & 0x80 != 0);
            assert_eq!(bytes[0] & 0x0f, 0);
            assert_eq!(bytes[1], note);
            assert!(bytes[1] < 0x80 && bytes[2] < 0x80);
        }
    }
}
