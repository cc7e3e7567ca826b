use acorn_storage::names::{checksum, name_units, short_name, utf16_to_utf8};
use acorn_storage::storage::DirEntry;
use acorn_storage::{Axis, InputDevice, InputEvent, Key, PS2Keyboard, PS2Mouse, Error};

#[test]
fn short_names_drop_padding() {
    assert_eq!(short_name(b"HELLO   TXT"), b"HELLO.TXT".to_vec());
    assert_eq!(short_name(b"README     "), b"README".to_vec());
    assert_eq!(short_name(b"A       B  "), b"A.B".to_vec());
}

#[test]
fn short_name_checksum() {
    assert_eq!(checksum(b"LONGFI~1TXT"), 0xD4);
    assert_eq!(checksum(b"           "), 0xF7);
}

#[test]
fn long_name_units_in_order() {
    let mut slot = [0u8; 32];
    let places: [usize; 13] = [1, 3, 5, 7, 9, 14, 16, 18, 20, 22, 24, 28, 30];
    for (i, p) in places.iter().enumerate() {
        slot[*p] = b'a' + i as u8;
    }
    let u = name_units(&slot);
    let expected: Vec<u16> = (0..13u16).map(|i| b'a' as u16 + i).collect();
    assert_eq!(u, expected);
}

#[test]
fn utf16_text_to_utf8() {
    let u: Vec<u16> = "longfilename.txt".encode_utf16().chain([0, 0xFFFF]).collect();
    assert_eq!(utf16_to_utf8(&u), Some(b"longfilename.txt".to_vec()));
    let mixed: Vec<u16> = "é€😀".encode_utf16().collect();
    assert_eq!(utf16_to_utf8(&mixed), Some("é€😀".as_bytes().to_vec()));
    assert_eq!(utf16_to_utf8(&[0x41, 0xD800, 0x41]), None);
    assert_eq!(utf16_to_utf8(&[0xDC00]), None);
    assert_eq!(utf16_to_utf8(&[0, 0xD800]), Some(Vec::new()));
}

#[test]
fn dir_entry_name_text() {
    let mut e = DirEntry::empty();
    assert_eq!(e.name(), "");
    e.name = b"notes.md and more".to_vec();
    e.name_length = 8;
    assert_eq!(e.name(), "notes.md");
}

#[test]
fn mouse_packet_events() {
    let events = PS2Mouse::decode(0b0001_0101, 3, 4, 0b0010_0001);
    assert_eq!(
        events,
        vec![
            InputEvent::Key { key: Key::MouseLeft, value: true },
            InputEvent::Key { key: Key::MouseRight, value: true },
            InputEvent::Rel { axis: Axis::X, value: -3 },
            InputEvent::Rel { axis: Axis::Y, value: 4 },
            InputEvent::Rel { axis: Axis::Z, value: 33 },
            InputEvent::Key { key: Key::BrowserForward, value: true },
        ]
    );
    let quiet = PS2Mouse::decode(0b0010_0010, 0, 9, 0b0001_0000);
    assert_eq!(
        quiet,
        vec![
            InputEvent::Key { key: Key::MouseMiddle, value: true },
            InputEvent::Rel { axis: Axis::X, value: 0 },
            InputEvent::Rel { axis: Axis::Y, value: -9 },
            InputEvent::Rel { axis: Axis::Z, value: 16 },
            InputEvent::Key { key: Key::BrowserBack, value: true },
        ]
    );
}

#[test]
fn ps2_devices_have_no_controller() {
    assert!(matches!(PS2Keyboard {}.read(), Err(Error::Unimplemented)));
    assert!(matches!(PS2Mouse {}.read(), Err(Error::Unimplemented)));
}
