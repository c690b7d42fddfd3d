use sordahe::chars_or_bytes::CharsOrBytes;
use sordahe::frontends::chord::ChordTracker;
use sordahe::frontends::gemini::decode;
use sordahe::frontends::typing::{
    has_ascii, surrounding_delete, type_ascii, type_char, type_output, type_str, KeyPress,
};
use sordahe::keys::{Key, Keys};
use sordahe::steno::Output;

#[test]
fn chord_is_complete_when_the_last_key_goes_up() {
    let mut tracker = ChordTracker::new();
    assert_eq!(tracker.key_released(Key::S), None);
    tracker.key_pressed(Key::S);
    tracker.key_pressed(Key::T);
    assert_eq!(tracker.seen, Key::S | Key::T);
    assert_eq!(tracker.current, Key::S | Key::T);
    assert_eq!(tracker.key_released(Key::S), None);
    assert_eq!(tracker.current, Keys::from(Key::T));
    tracker.key_pressed(Key::A);
    assert_eq!(tracker.key_released(Key::A), None);
    assert_eq!(tracker.key_released(Key::T), Some(Key::S | Key::T | Key::A));
    assert_eq!(tracker, ChordTracker::new());
    assert_eq!(tracker.key_released(Key::T), None);
    tracker.key_pressed(Key::Z);
    assert_eq!(tracker.key_released(Key::Z), Some(Keys::from(Key::Z)));
}

#[test]
fn packets_of_the_machine() {
    assert_eq!(decode(&[0x80, 0, 0, 0, 0, 0]), Some(Keys::empty()));
    assert_eq!(decode(&[0x00, 0, 0, 0, 0, 1]), None);
    assert_eq!(decode(&[0x7f, 0xff, 0xff, 0xff, 0xff, 0xff]), None);
    assert_eq!(decode(&[0x80, 0, 0, 0, 0, 0x01]), Some(Keys::from(Key::Z)));
    assert_eq!(decode(&[0x80, 0, 0, 0, 0, 0x02]), Some(Keys::empty()));
    assert_eq!(
        decode(&[0x80, 0, 0, 0, 0, 0x28]),
        Some(Keys::from(Key::NumberBar))
    );
    assert_eq!(
        decode(&[0x80, 0, 0, 0, 0x01, 0]),
        Some(Keys::from(Key::D))
    );
    assert_eq!(
        decode(&[0x80, 0x20, 0, 0, 0, 0]),
        Some(Keys::from(Key::S))
    );
    assert_eq!(
        decode(&[0x80, 0x10, 0x20, 0, 0x02, 0]),
        Some(Key::T | Key::A | Key::S2)
    );
    assert_eq!(decode(&[0x94, 0, 0, 0, 0, 0]), Some(Keys::from(Key::NumberBar)));
    assert_eq!(decode(&[0xff, 0xff, 0xff, 0xff, 0xff, 0xff]), Some(Keys::all()));
}

fn pressed(text: &str) -> Vec<KeyPress> {
    let mut out = Vec::new();
    type_str(&mut out, text);
    out
}

#[test]
fn keys_for_text() {
    assert!(has_ascii(8));
    assert!(has_ascii(126));
    assert!(!has_ascii(7));
    assert!(!has_ascii(127));
    assert_eq!(type_ascii(b'a'), KeyPress::Key(89));
    assert_eq!(type_ascii(8), KeyPress::Key(0));
    assert_eq!(
        pressed("Hi\n"),
        [KeyPress::Key(64), KeyPress::Key(97), KeyPress::Key(2)]
    );
    assert_eq!(pressed(""), []);
    let unicode = |digits: &[u8]| {
        let mut keys = vec![
            KeyPress::Modifiers {
                ctrl: true,
                shift: true,
            },
            KeyPress::Key(u32::from(b'u') - 8),
            KeyPress::Modifiers {
                ctrl: false,
                shift: false,
            },
            KeyPress::Key(u32::from(b'0') - 8),
            KeyPress::Key(u32::from(b'x') - 8),
        ];
        keys.extend(digits.iter().map(|&digit| KeyPress::Key(u32::from(digit) - 8)));
        keys.push(KeyPress::Key(2));
        keys
    };
    assert_eq!(pressed("\u{e9}"), unicode(b"e9"));
    assert_eq!(pressed("\u{1f600}"), unicode(b"1f600"));
    assert_eq!(pressed("\u{7f}"), unicode(b"7f"));
    assert_eq!(pressed("\0"), unicode(b"0"));
    assert_eq!(pressed("\u{7}"), unicode(b"7"));
    assert_eq!(pressed("\u{10}"), [KeyPress::Key(8)]);
    assert_eq!(pressed("\u{abcd}"), unicode(b"abcd"));
    let mut out = vec![KeyPress::Key(1)];
    type_char(&mut out, '~');
    assert_eq!(out, [KeyPress::Key(1), KeyPress::Key(118)]);
}

#[test]
fn keys_for_an_edit() {
    let mut output = Output::default();
    output.delete = CharsOrBytes { chars: 2, bytes: 3 };
    output.delete_words = 1;
    output.append("ok");
    let control = KeyPress::Modifiers {
        ctrl: true,
        shift: false,
    };
    let none = KeyPress::Modifiers {
        ctrl: false,
        shift: false,
    };
    assert_eq!(
        type_output(&output),
        [
            KeyPress::Key(0),
            KeyPress::Key(0),
            control,
            KeyPress::Key(0),
            none,
            KeyPress::Key(103),
            KeyPress::Key(99),
        ]
    );
    assert_eq!(type_output(&Output::default()), [control, none]);
    assert_eq!(surrounding_delete(&output), Some(4));
    assert_eq!(surrounding_delete(&Output::default()), Some(0));
    output.delete = CharsOrBytes { chars: 0, bytes: u32::MAX as usize };
    assert_eq!(surrounding_delete(&output), None);
    output.delete_words = 0;
    assert_eq!(surrounding_delete(&output), Some(u32::MAX));
}
