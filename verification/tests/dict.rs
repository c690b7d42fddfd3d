use sordahe::dict::entry::{find_with_escapes, Part};
use sordahe::dict::{parse_part, Entry};
use sordahe::keys::{Key, Keys};

#[test]
fn dict_test_parse_part() {
    assert_eq!(parse_part("S").unwrap(), Keys::from(Key::S));
    assert_eq!(parse_part("-S").unwrap(), Keys::from(Key::S2));
    assert_eq!(parse_part("SS").unwrap(), Key::S | Key::S2);
    assert_eq!(parse_part("S-S").unwrap(), Key::S | Key::S2);
    // Respect steno order. This should not be `B | T`.
    assert_eq!(parse_part("BT").unwrap(), Key::B | Key::T2);
    assert_eq!(
        parse_part("AOEU").unwrap(),
        Key::A | Key::O | Key::E | Key::U
    );
    assert_eq!(
        parse_part("1234").unwrap(),
        Key::NumberBar | Key::S | Key::T | Key::P | Key::H
    );
    assert_eq!(
        parse_part("#*EU").unwrap(),
        Key::NumberBar | Key::Star | Key::E | Key::U,
    );
    assert_eq!(
        parse_part("1234ER78S").unwrap(),
        Key::NumberBar
            | Key::S
            | Key::T
            | Key::P
            | Key::H
            | Key::E
            | Key::R2
            | Key::P2
            | Key::L
            | Key::S2
    );
    assert_eq!(
        parse_part("1-RBGS").unwrap(),
        Key::NumberBar | Key::S | Key::R2 | Key::B | Key::G | Key::S2
    );
    assert_eq!(
        parse_part("KPA*BT").unwrap(),
        Key::K | Key::P | Key::A | Key::Star | Key::B | Key::T2
    );
}

#[test]
fn test_find_unescaped() {
    assert_eq!(find_with_escapes("abc", 'b'), Some(1));
    assert_eq!(find_with_escapes(r"a\bc", 'b'), None);
    assert_eq!(find_with_escapes(r"a\\bc", 'b'), Some(3));
}

#[test]
fn entry_test_parse_entry() {
    assert_eq!(
        r"\{{>}\} {&p\^} abc".parse::<Entry>().unwrap().0.as_slice(),
        &[
            Part::Verbatim("{".into()),
            Part::SetCaps(false),
            Part::Verbatim("}".into()),
            Part::Glue("p^".into()),
            Part::Verbatim("abc".into()),
        ],
    );
    assert_eq!(
        r"{^ ^}".parse::<Entry>().unwrap().0.as_slice(),
        &[Part::Suffix(" ".into()), Part::SetSpace(false)],
    );
    assert_eq!(
        r"{\\^}".parse::<Entry>().unwrap().0.as_slice(),
        &[Part::Verbatim("\\".into()), Part::SetSpace(false)],
    );
    assert_eq!(
        r"{^\\\\\^}".parse::<Entry>().unwrap().0.as_slice(),
        &[Part::Suffix(r"\\^".into())],
    );
}

use sordahe::dict::entry::{
    unescape, ParseError, PloverCommandFromStrError, SpecialPunctFromStrError, UnescapeError,
};
use sordahe::dict::{Dict, LoadError, PloverCommand, SpecialPunct, Strokes};

fn parts(entry: &str) -> Vec<Part> {
    entry.parse::<Entry>().unwrap().0.as_ref().clone()
}

#[test]
fn entry_specials() {
    assert_eq!(parts("{-|}"), [Part::SetCaps(true)]);
    assert_eq!(parts("{>}"), [Part::SetCaps(false)]);
    assert_eq!(parts("{^}"), [Part::SetSpace(false)]);
    assert_eq!(parts("{ }"), [Part::Verbatim(" ".into())]);
    assert_eq!(parts("{~|}"), [Part::CarryToNext]);
    assert_eq!(parts("{.}"), [Part::SpecialPunct(SpecialPunct::Period)]);
    assert_eq!(parts("{,}"), [Part::SpecialPunct(SpecialPunct::Comma)]);
    assert_eq!(parts("{:}"), [Part::SpecialPunct(SpecialPunct::Colon)]);
    assert_eq!(parts("{;}"), [Part::SpecialPunct(SpecialPunct::Semi)]);
    assert_eq!(parts("{!}"), [Part::SpecialPunct(SpecialPunct::Bang)]);
    assert_eq!(parts("{?}"), [Part::SpecialPunct(SpecialPunct::Question)]);
    assert_eq!(
        parts("{PLOVER:backspace}"),
        [Part::PloverCommand(PloverCommand::Backspace)]
    );
    assert_eq!(
        parts("{PLOVER:quit}"),
        [Part::PloverCommand(PloverCommand::Quit)]
    );
    assert_eq!(
        parts("{PLOVER:reset}"),
        [Part::PloverCommand(PloverCommand::Reset)]
    );
    assert_eq!(parts("{&a}"), [Part::Glue("a".into())]);
    assert_eq!(parts("{&a^}"), [Part::Glue("a^".into())]);
    assert_eq!(parts("{^ing}"), [Part::Suffix("ing".into())]);
    assert_eq!(
        parts("{pre^}"),
        [Part::Verbatim("pre".into()), Part::SetSpace(false)]
    );
    assert_eq!(
        parts("{^-^}"),
        [Part::Suffix("-".into()), Part::SetSpace(false)]
    );
    assert_eq!(
        parts("  two words  "),
        [Part::Verbatim("two words".into())]
    );
    assert_eq!(parts(""), []);
    assert_eq!(parts("   "), []);
    assert_eq!(
        parts("a{.}b"),
        [
            Part::Verbatim("a".into()),
            Part::SpecialPunct(SpecialPunct::Period),
            Part::Verbatim("b".into())
        ]
    );
}

#[test]
fn entry_errors() {
    assert_eq!("{abc".parse::<Entry>(), Err(ParseError::UnclosedBracket));
    assert_eq!("abc{".parse::<Entry>(), Err(ParseError::UnclosedBracket));
    assert_eq!(
        "{abc}".parse::<Entry>(),
        Err(ParseError::PointlessBrackets("abc".into()))
    );
    assert_eq!(
        "{}".parse::<Entry>(),
        Err(ParseError::PointlessBrackets("".into()))
    );
    assert_eq!(
        "{PLOVER:fly}".parse::<Entry>(),
        Err(ParseError::PloverCommand(PloverCommandFromStrError(
            "fly".into()
        )))
    );
    assert_eq!(
        r"a\b".parse::<Entry>(),
        Err(ParseError::Unescape(UnescapeError::UnknownEscape('b')))
    );
    assert_eq!(
        "a\\".parse::<Entry>(),
        Err(ParseError::Unescape(UnescapeError::UnexpectedEof))
    );
    assert_eq!(
        r"{&\x}".parse::<Entry>(),
        Err(ParseError::Unescape(UnescapeError::UnknownEscape('x')))
    );
    assert_eq!(
        r"{^\q}".parse::<Entry>(),
        Err(ParseError::Unescape(UnescapeError::UnknownEscape('q')))
    );
    assert_eq!(
        r"\x{abc".parse::<Entry>(),
        Err(ParseError::Unescape(UnescapeError::UnknownEscape('x')))
    );
}

#[test]
fn unescape_takes_backslashes_off() {
    assert_eq!(unescape(r"a\{b\}c\^d\\e").unwrap(), r"a{b}c^d\e");
    assert_eq!(unescape("").unwrap(), "");
    assert_eq!(unescape("\\"), Err(UnescapeError::UnexpectedEof));
    assert_eq!(unescape(r"\n"), Err(UnescapeError::UnknownEscape('n')));
}

#[test]
fn find_counts_characters() {
    assert_eq!(find_with_escapes("\u{e9}b", 'b'), Some(1));
    assert_eq!(find_with_escapes("", 'b'), None);
    assert_eq!(find_with_escapes(r"\bb", 'b'), Some(2));
}

#[test]
fn commands_and_marks_by_name() {
    assert_eq!(PloverCommand::parse("backspace"), Ok(PloverCommand::Backspace));
    assert_eq!(PloverCommand::parse("quit"), Ok(PloverCommand::Quit));
    assert_eq!(PloverCommand::parse("reset"), Ok(PloverCommand::Reset));
    assert_eq!(
        PloverCommand::parse("Quit"),
        Err(PloverCommandFromStrError("Quit".into()))
    );
    assert_eq!(PloverCommand::Backspace.as_str(), "backspace");
    assert_eq!(PloverCommand::Quit.as_str(), "quit");
    assert_eq!(PloverCommand::Reset.as_str(), "reset");
    assert_eq!(SpecialPunct::Period.as_str(), ".");
    assert_eq!(SpecialPunct::Question.as_str(), "?");
    assert_eq!(SpecialPunct::Semi.to_char(), ';');
    assert!(SpecialPunct::Period.is_sentence_end());
    assert!(SpecialPunct::Bang.is_sentence_end());
    assert!(SpecialPunct::Question.is_sentence_end());
    assert!(!SpecialPunct::Comma.is_sentence_end());
    assert!(!SpecialPunct::Colon.is_sentence_end());
    assert!(!SpecialPunct::Semi.is_sentence_end());
}

#[test]
fn strokes_read_and_written() {
    let strokes: Strokes = "HEL/HRO".parse().unwrap();
    assert_eq!(strokes.num_strokes(), 2);
    assert_eq!(
        strokes.0,
        [
            Key::H | Key::E | Key::L,
            Key::H | Key::R | Key::O
        ]
    );
    assert_eq!(strokes.format(), "HEL/HRO");
    assert_eq!("".parse::<Strokes>().unwrap().0, [Keys::empty()]);
    assert_eq!("S//T".parse::<Strokes>().unwrap().num_strokes(), 3);
    assert_eq!(
        "S/x/T-".parse::<Strokes>(),
        Err(sordahe::keys::ParseError::Unrecognized('x'))
    );
    assert_eq!(
        "S/T-".parse::<Strokes>(),
        Err(sordahe::keys::ParseError::TrailingDash)
    );
    assert_eq!(
        Strokes::from(vec![Keys::from(Key::S2), Keys::from(Key::A), Keys::from(Key::L)]).format(),
        "-S/A/-L"
    );
    assert_eq!(Strokes::default().format(), "");
}

fn pairs(list: &[(&str, &str)]) -> Vec<(String, String)> {
    list.iter()
        .map(|&(key, value)| (key.to_string(), value.to_string()))
        .collect()
}

#[test]
fn dictionary_lookup() {
    let dict = Dict::from_pairs(&pairs(&[
        ("TEFT", "test"),
        ("HEL/HRO/HRA", "hello la"),
        ("S", "is"),
    ]))
    .unwrap();
    assert_eq!(dict.max_strokes(), 3);
    let key: Strokes = "TEFT".parse().unwrap();
    assert_eq!(dict.get(&key.0), Some(&"test".parse::<Entry>().unwrap()));
    let key: Strokes = "HEL/HRO/HRA".parse().unwrap();
    assert_eq!(dict.get(&key.0), Some(&"hello la".parse::<Entry>().unwrap()));
    let key: Strokes = "HEL/HRO".parse().unwrap();
    assert_eq!(dict.get(&key.0), None);
    assert_eq!(dict.get(&[]), None);

    let empty = Dict::from_pairs(&Vec::new()).unwrap();
    assert_eq!(empty.max_strokes(), 1);
    assert_eq!(Dict::new().max_strokes(), 1);
}

#[test]
fn dictionary_errors() {
    let error = Dict::from_pairs(&pairs(&[("TEFT", "test"), ("T-", "x")])).err();
    assert_eq!(
        error,
        Some(LoadError::Strokes {
            index: 1,
            error: sordahe::keys::ParseError::TrailingDash
        })
    );
    let error = Dict::from_pairs(&pairs(&[("TEFT", "{test")])).err();
    assert_eq!(
        error,
        Some(LoadError::Entry {
            index: 0,
            error: ParseError::UnclosedBracket
        })
    );
    let error = Dict::from_pairs(&pairs(&[("S-S", "a"), ("T", "b"), ("SS", "c")])).err();
    assert_eq!(error, Some(LoadError::Duplicate { index: 2 }));
    let error = Dict::from_pairs(&pairs(&[("S", "a"), ("x", "{"), ("S", "c")])).err();
    assert_eq!(
        error,
        Some(LoadError::Strokes {
            index: 1,
            error: sordahe::keys::ParseError::Unrecognized('x')
        })
    );
}

#[test]
fn marks_by_text() {
    assert_eq!(".".parse::<SpecialPunct>(), Ok(SpecialPunct::Period));
    assert_eq!(",".parse::<SpecialPunct>(), Ok(SpecialPunct::Comma));
    assert_eq!(":".parse::<SpecialPunct>(), Ok(SpecialPunct::Colon));
    assert_eq!(";".parse::<SpecialPunct>(), Ok(SpecialPunct::Semi));
    assert_eq!("!".parse::<SpecialPunct>(), Ok(SpecialPunct::Bang));
    assert_eq!("?".parse::<SpecialPunct>(), Ok(SpecialPunct::Question));
    assert_eq!(
        "..".parse::<SpecialPunct>(),
        Err(SpecialPunctFromStrError("..".into()))
    );
    assert_eq!(
        SpecialPunct::parse(""),
        Err(SpecialPunctFromStrError("".into()))
    );
    assert_eq!("quit".parse::<PloverCommand>(), Ok(PloverCommand::Quit));
    assert!("".parse::<PloverCommand>().is_err());
}

#[test]
fn dict_test_parse_entry() {
    assert_eq!(
        r"{>} {&p\^}".parse::<Entry>().unwrap().0.as_slice(),
        &[Part::SetCaps(false), Part::Glue("p^".into())],
    );
}
