use sordahe::keys::{Key, Keys};

const ALL: [Key; 23] = [
    Key::NumberBar,
    Key::S,
    Key::T,
    Key::K,
    Key::P,
    Key::W,
    Key::H,
    Key::R,
    Key::A,
    Key::O,
    Key::Star,
    Key::E,
    Key::U,
    Key::F,
    Key::R2,
    Key::P2,
    Key::B,
    Key::L,
    Key::G,
    Key::T2,
    Key::S2,
    Key::D,
    Key::Z,
];

fn collect(keys: Keys) -> Vec<Key> {
    let mut iter = keys.into_iter();
    let mut out = Vec::new();
    while let Some(key) = iter.next() {
        out.push(key);
    }
    out
}

#[test]
fn test_all() {
    assert_eq!(collect(Keys::all()), ALL);
    assert_eq!(Keys::all().to_vec(), ALL);
}

#[test]
fn keys_test_parse_part() {
    assert_eq!("S".parse::<Keys>().unwrap(), Keys::from(Key::S));
    assert_eq!("-S".parse::<Keys>().unwrap(), Keys::from(Key::S2));
    assert_eq!("SS".parse::<Keys>().unwrap(), Key::S | Key::S2);
    assert_eq!("S-S".parse::<Keys>().unwrap(), Key::S | Key::S2);
    // Respect steno order. This should not be `B | T`.
    assert_eq!("BT".parse::<Keys>().unwrap(), Key::B | Key::T2);
    assert_eq!(
        "AOEU".parse::<Keys>().unwrap(),
        Key::A | Key::O | Key::E | Key::U
    );
    assert_eq!(
        "1234".parse::<Keys>().unwrap(),
        Key::NumberBar | Key::S | Key::T | Key::P | Key::H
    );
    assert_eq!(
        "#*EU".parse::<Keys>().unwrap(),
        Key::NumberBar | Key::Star | Key::E | Key::U,
    );
    assert_eq!(
        "1234ER78S".parse::<Keys>().unwrap(),
        Key::NumberBar
            | Key::S
            | Key::T
            | Key::P
            | Key::H
            | Key::E
            | Key::R2
            | Key::P2
            | Key::L
            | Key::S2,
    );
    assert_eq!(
        "1-RBGS".parse::<Keys>().unwrap(),
        Key::NumberBar | Key::S | Key::R2 | Key::B | Key::G | Key::S2,
    );
    assert_eq!(
        "KPA*BT".parse::<Keys>().unwrap(),
        Key::K | Key::P | Key::A | Key::Star | Key::B | Key::T2,
    );
}

#[test]
fn test_display() {
    assert_eq!((Key::S | Key::S2).format(), "SS");
    assert_eq!(Keys::from(Key::S2).format(), "-S");
    assert_eq!((Key::A | Key::O | Key::S2).format(), "AOS");
}

#[test]
fn test_iterator() {
    assert_eq!(
        collect(Key::A | Key::O | Key::S2),
        [Key::A, Key::O, Key::S2],
    );
}

use sordahe::keys::ParseError;

#[test]
fn parse_errors() {
    assert_eq!(Keys::parse("S-"), Err(ParseError::TrailingDash));
    assert_eq!(Keys::parse("-"), Err(ParseError::TrailingDash));
    assert_eq!(
        Keys::parse("AA"),
        Err(ParseError::Duplicate(Keys::from(Key::A)))
    );
    assert_eq!(
        Keys::parse("SSS"),
        Err(ParseError::Duplicate(Keys::from(Key::S2)))
    );
    assert_eq!(Keys::parse("Sx"), Err(ParseError::Unrecognized('x')));
    assert_eq!(Keys::parse("s"), Err(ParseError::Unrecognized('s')));
    assert_eq!("S/T".parse::<Keys>(), Err(ParseError::Unrecognized('/')));
}

#[test]
fn number_bar_may_repeat() {
    assert_eq!(
        Keys::parse("#12").unwrap(),
        Key::NumberBar | Key::S | Key::T
    );
    assert_eq!(Keys::parse("##").unwrap(), Keys::from(Key::NumberBar));
    assert_eq!(Keys::parse("").unwrap(), Keys::empty());
}

#[test]
fn dash_is_dropped_before_a_one_hand_letter() {
    assert_eq!(Keys::parse("-F").unwrap(), Keys::from(Key::F));
    assert_eq!(Keys::parse("-K").unwrap(), Keys::from(Key::K));
    assert_eq!(Keys::parse("S-K").unwrap(), Key::S | Key::K);
    assert_eq!(Keys::parse("-KS").unwrap(), Key::K | Key::S2);
}

#[test]
fn format_writes_a_dash_where_it_is_needed() {
    assert_eq!(Keys::empty().format(), "");
    assert_eq!(Keys::from(Key::F).format(), "-F");
    assert_eq!((Key::B | Key::G).format(), "-BG");
    assert_eq!((Key::NumberBar | Key::F).format(), "#-F");
    assert_eq!((Key::NumberBar | Key::S).format(), "#S");
    assert_eq!((Key::U | Key::F).format(), "UF");
    assert_eq!((Key::K | Key::F).format(), "KF");
    assert_eq!((Key::F | Key::S2).format(), "-FS");
    assert_eq!((Key::S | Key::T2).format(), "S-T");
    assert_eq!((Key::T | Key::S2).format(), "TS");
    assert_eq!((Key::NumberBar | Key::S2).format(), "#-S");
    assert_eq!((Key::K | Key::W | Key::R | Key::B).format(), "KWRB");
    assert_eq!((Key::P | Key::R2 | Key::P2).format(), "P-RP");
    assert_eq!((Key::Star | Key::R2).format(), "*R");
    assert_eq!(Keys::from(Key::R2).format(), "-R");
    assert_eq!(Keys::from(Key::Z).format(), "-Z");
    assert_eq!(Keys::from(Key::U).format(), "U");
    assert_eq!(
        Keys::all().format(),
        "#STKPWHRAO*EUFRPBLGTSDZ"
    );
}

#[test]
fn reading_what_was_written_gives_the_chord_back() {
    for key in ALL {
        let keys = Keys::from(key);
        assert_eq!(Keys::parse(&keys.format()), Ok(keys));
    }
    for a in ALL {
        for b in ALL {
            for c in ALL {
                let keys = a | b | c;
                assert_eq!(Keys::parse(&keys.format()), Ok(keys));
            }
        }
    }
    let mut bits: u32 = 0;
    while bits < (1 << 23) {
        let keys = Keys(bits);
        assert_eq!(Keys::parse(&keys.format()), Ok(keys));
        bits += 977;
    }
}

#[test]
fn set_operations() {
    let mut keys = Key::S | Key::T | Key::A;
    assert!(keys.contains(Key::S));
    assert!(!keys.contains(Key::S2));
    assert_eq!(keys.bits(), 0b1_0000_0110);
    assert!(!keys.is_empty());
    assert!(Keys::empty().is_empty());
    assert_eq!(Keys::default(), Keys::empty());
    assert_eq!(Keys::single(Key::Z).bits(), 1 << 22);
    assert_eq!(Keys::all().bits(), (1 << 23) - 1);

    assert!(!keys.remove(Key::S | Key::K));
    assert_eq!(keys, Key::S | Key::T | Key::A);
    assert!(keys.remove(Key::S | Key::T));
    assert_eq!(keys, Keys::from(Key::A));
    assert!(keys.remove_key(Key::A));
    assert!(!keys.remove_key(Key::A));
    assert!(keys.is_empty());

    assert_eq!((Key::S | Key::T) & (Key::T | Key::K), Keys::from(Key::T));
    assert_eq!((Key::S | Key::T) & Key::S, Keys::from(Key::S));
    assert_eq!((Key::S | Key::T) ^ (Key::T | Key::K), Key::S | Key::K);
    assert_eq!((Key::S | Key::T) ^ Key::T, Keys::from(Key::S));
    assert_eq!(Key::S | (Key::T | Key::K), Keys(0b1110));
    assert_eq!((Key::S | Key::T) | Key::K, Keys(0b1110));
    assert_eq!(!Keys::all(), Keys::empty());
    assert_eq!(!Keys::empty(), Keys::all());
    assert_eq!(!Key::NumberBar, Keys(((1 << 23) - 1) & !1));
    assert_eq!(!Keys(u32::MAX), Keys::empty());
}

#[test]
fn keys_of_the_other_hand() {
    assert_eq!(Key::S.other(), Some(Key::S2));
    assert_eq!(Key::S2.other(), Some(Key::S));
    assert_eq!(Key::R.other(), Some(Key::R2));
    assert_eq!(Key::P2.other(), Some(Key::P));
    assert_eq!(Key::T2.other(), Some(Key::T));
    assert_eq!(Key::K.other(), None);
    assert_eq!(Key::S.other_before(), None);
    assert_eq!(Key::S.other_after(), Some(Key::S2));
    assert_eq!(Key::S2.other_before(), Some(Key::S));
    assert_eq!(Key::S2.other_after(), None);
    assert_eq!(Key::Star.other_before(), None);
    assert_eq!(Key::Star.other_after(), None);
}

#[test]
fn keys_by_code_and_place() {
    assert_eq!(Key::from_code(1), None);
    assert_eq!(Key::from_code(2), Some(Key::NumberBar));
    assert_eq!(Key::from_code(11), Some(Key::NumberBar));
    assert_eq!(Key::from_code(12), None);
    assert_eq!(Key::from_code(16), Some(Key::S));
    assert_eq!(Key::from_code(30), Some(Key::S));
    assert_eq!(Key::from_code(20), Some(Key::Star));
    assert_eq!(Key::from_code(34), Some(Key::Star));
    assert_eq!(Key::from_code(18), Some(Key::P));
    assert_eq!(Key::from_code(22), Some(Key::P2));
    assert_eq!(Key::from_code(38), Some(Key::S2));
    assert_eq!(Key::from_code(39), Some(Key::Z));
    assert_eq!(Key::from_code(49), Some(Key::U));
    assert_eq!(Key::from_code(50), None);
    for (place, key) in ALL.iter().enumerate() {
        assert_eq!(key.index() as usize, place);
        assert_eq!(Key::from_index(place as u32), Some(*key));
    }
    assert_eq!(Key::from_index(23), None);
    assert_eq!(Key::NumberBar.to_char(), '#');
    assert_eq!(Key::Star.to_char(), '*');
    assert_eq!(Key::S2.to_char(), 'S');
    assert_eq!(Key::R2.to_char(), 'R');
}

#[test]
fn iterator_stops_at_bits_of_no_key() {
    let mut iter = Keys(1 << 23).into_iter();
    assert_eq!(iter.next(), None);
    let mut iter = Keys((1 << 25) | 2).into_iter();
    assert_eq!(iter.next(), Some(Key::S));
    assert_eq!(iter.next(), None);
}
