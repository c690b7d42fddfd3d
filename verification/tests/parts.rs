use sordahe::args::{StenoProtocol, StenoProtocolFromStrError};
use sordahe::bounded_queue::BoundedQueue;
use sordahe::chars_or_bytes::CharsOrBytes;
use sordahe::keys::{Key, Keys};
use sordahe::steno::find_action::{
    make_fallback_action, make_numbers, make_simple_action, make_text_action, split_suffix,
};
use sordahe::steno::orthography::apply_orthography_rules;
use sordahe::steno::Output;
use sordahe::text::{capitalize, is_whitespace, str_eq, to_lowercase, to_lower, to_upper, trim};
use sordahe::word_list::WordList;

fn items(queue: &BoundedQueue<u8>) -> Vec<u8> {
    queue.inner().iter().copied().collect()
}

#[test]
fn queue_drops_the_oldest() {
    let mut queue: BoundedQueue<u8> = BoundedQueue::new(3);
    assert_eq!(queue.len(), 0);
    assert_eq!(queue.pop_back(), None);
    assert_eq!(queue.back(), None);
    for item in 1..=5 {
        queue.push(item);
    }
    assert_eq!(queue.len(), 3);
    assert_eq!(items(&queue), [3, 4, 5]);
    assert_eq!(queue.back(), Some(&5));
    assert_eq!(*queue.get(0), 3);
    assert_eq!(queue.last_n(2), [&4, &5]);
    assert_eq!(queue.last_n(0), Vec::<&u8>::new());
    assert_eq!(queue.last_n(7), [&3, &4, &5]);
    assert_eq!(queue.pop_back(), Some(5));
    assert_eq!(items(&queue), [3, 4]);
    queue.clear();
    assert_eq!(queue.len(), 0);
}

#[test]
fn queue_of_bound_zero_keeps_the_newest() {
    let mut queue: BoundedQueue<u8> = BoundedQueue::new(0);
    queue.push(1);
    queue.push(2);
    assert_eq!(items(&queue), [2]);
}

#[test]
fn sizes_in_chars_and_bytes() {
    let size = CharsOrBytes::for_str("caf\u{e9}");
    assert_eq!(size.chars(), 4);
    assert_eq!(size.bytes(), 5);
    let empty = CharsOrBytes::for_str("");
    assert_eq!((empty.chars(), empty.bytes()), (0, 0));
    assert_eq!(CharsOrBytes::default(), empty);
    let sum = size + CharsOrBytes::for_str("ab");
    assert_eq!((sum.chars(), sum.bytes()), (6, 7));
    let difference = sum - size;
    assert_eq!((difference.chars(), difference.bytes()), (2, 2));
    assert_eq!(size.checked_sub(sum), None);
    assert_eq!(sum.checked_sub(size), Some(difference));
    assert_eq!(size.checked_add(empty), Some(size));
    assert_eq!(
        size.checked_add(CharsOrBytes { chars: usize::MAX, bytes: 0 }),
        None
    );
}

#[test]
fn output_deletes_from_what_it_types_first() {
    let mut output = Output::default();
    output.append("hello w\u{f6}rld");
    assert!(output.delete(CharsOrBytes::for_str("w\u{f6}rld")));
    assert_eq!(output.append, "hello ");
    assert_eq!(output.delete.chars(), 0);
    assert!(output.delete(CharsOrBytes::for_str("\u{e9}\u{e9} hello ")));
    assert_eq!(output.append, "");
    assert_eq!(output.delete.chars(), 3);
    assert_eq!(output.delete.bytes(), 5);
    output.append("x");
    assert_eq!(output.append, "x");
    assert!(!output.types_nothing());
    output.clear();
    assert!(output.types_nothing());
    assert_eq!(output.append, "");
    assert_eq!(output.delete.chars(), 0);
    assert_eq!(output.delete.bytes(), 0);
    assert_eq!(output.delete_words, 0);
}

#[test]
fn output_decides_by_bytes_where_to_delete() {
    // One letter of two bytes is more than the one byte that is typed: the
    // typed text goes, and the rest is counted in both units.
    let mut output = Output::default();
    output.append("a");
    assert!(output.delete(CharsOrBytes::for_str("\u{e9}")));
    assert_eq!(output.append, "");
    assert_eq!(output.delete, CharsOrBytes { chars: 0, bytes: 1 });

    // Two letters of one byte each fit into one typed letter of two bytes.
    let mut output = Output::default();
    output.append("x\u{e9}");
    assert!(output.delete(CharsOrBytes::for_str("ab")));
    assert_eq!(output.append, "x");
    assert_eq!(output.delete, CharsOrBytes { chars: 0, bytes: 0 });

    // As many bytes as are typed.
    let mut output = Output::default();
    output.append("caf\u{e9}");
    assert!(output.delete(CharsOrBytes::for_str("caf\u{e9}")));
    assert_eq!(output.append, "");
    assert_eq!(output.delete, CharsOrBytes { chars: 0, bytes: 0 });

    // Nothing is typed, and nothing is to be deleted.
    let mut output = Output::default();
    assert!(output.delete(CharsOrBytes { chars: 0, bytes: 0 }));
    assert_eq!(output.append, "");
    assert_eq!(output.delete, CharsOrBytes { chars: 0, bytes: 0 });
}

#[test]
fn output_refuses_what_it_cannot_count() {
    let mut output = Output::default();
    output.delete = CharsOrBytes { chars: usize::MAX, bytes: usize::MAX };
    assert!(!output.delete(CharsOrBytes { chars: 1, bytes: 1 }));
    assert_eq!(output.delete.chars(), usize::MAX);

    // The cut would fall inside a character.
    let mut output = Output::default();
    output.append("\u{e9}");
    assert!(!output.delete(CharsOrBytes { chars: 2, bytes: 1 }));
    assert_eq!(output.append, "\u{e9}");
    assert_eq!(output.delete, CharsOrBytes { chars: 0, bytes: 0 });

    // More bytes than are typed, and yet fewer characters.
    let mut output = Output::default();
    output.append("aa");
    assert!(!output.delete(CharsOrBytes { chars: 1, bytes: 3 }));
    assert_eq!(output.append, "aa");
    assert_eq!(output.delete, CharsOrBytes { chars: 0, bytes: 0 });

    let mut output = Output::default();
    output.delete_words = usize::MAX;
    assert!(!output.delete_words(1));
}

#[test]
fn output_is_shortened_by_the_buffer() {
    let mut buffer: BoundedQueue<u8> = BoundedQueue::new(7);
    for &byte in "xx caf\u{e9}".as_bytes() {
        buffer.push(byte);
    }
    assert_eq!(items(&buffer), "x caf\u{e9}".as_bytes());

    let mut output = Output::default();
    output.delete = CharsOrBytes::for_str("caf\u{e9}");
    output.append("caf\u{e8}s".to_string().as_str());
    output.diff_with_buffer(&mut buffer);
    assert_eq!(output.delete.chars(), 1);
    assert_eq!(output.delete.bytes(), 2);
    assert_eq!(output.append, "\u{e8}s");
    assert_eq!(items(&buffer), "x caf\u{e9}".as_bytes());
    output.apply_to_buffer(&mut buffer);
    assert_eq!(items(&buffer), " caf\u{e8}s".as_bytes());

    let mut words = Output::default();
    words.delete_words = 1;
    words.diff_with_buffer(&mut buffer);
    assert_eq!(words.delete_words, 1);
    words.apply_to_buffer(&mut buffer);
    assert_eq!(items(&buffer), b"");

    let mut far = Output::default();
    far.delete = CharsOrBytes { chars: 3, bytes: 3 };
    far.append("abc");
    far.diff_with_buffer(&mut buffer);
    assert_eq!(far.delete.bytes(), 3);
    assert_eq!(far.append, "abc");
    far.apply_to_buffer(&mut buffer);
    assert_eq!(items(&buffer), b"abc");

    let mut odd = Output::default();
    odd.delete = CharsOrBytes { chars: 1, bytes: 3 };
    odd.append("abc");
    odd.diff_with_buffer(&mut buffer);
    assert_eq!(odd.delete.chars(), 1);
    assert_eq!(odd.append, "abc");
}

#[test]
fn word_list_of_lines() {
    let list: WordList = "alpha\nbeta \r\ngamma\n\ndelta\r".parse().unwrap();
    assert!(list.contains("alpha"));
    assert!(list.contains("beta "));
    assert!(!list.contains("beta"));
    assert!(list.contains("gamma"));
    assert!(list.contains(""));
    assert!(list.contains("delta\r"));
    assert!(!list.contains("delta"));
    assert!(!list.contains("Alpha"));
    let none: WordList = "".parse().unwrap();
    assert!(!none.contains(""));
    assert!(!WordList::new().contains("alpha"));
    let twice = WordList::parse("a\na\n");
    assert!(twice.contains("a"));
}

#[test]
fn spelling_rules() {
    let rule = |first: &str, second: &str| apply_orthography_rules(first, second);
    assert_eq!(rule("artistic", "ly").as_deref(), Some("artistically"));
    assert_eq!(rule("statute", "ry").as_deref(), Some("statutory"));
    assert_eq!(rule("frequent", "cy").as_deref(), Some("frequency"));
    assert_eq!(rule("adequate", "cy").as_deref(), Some("adequacy"));
    assert_eq!(rule("establish", "s").as_deref(), Some("establishes"));
    assert_eq!(rule("class", "s").as_deref(), Some("classes"));
    assert_eq!(rule("speech", "s").as_deref(), Some("speeches"));
    assert_eq!(rule("teach", "s").as_deref(), Some("teaches"));
    assert_eq!(rule("cherry", "s").as_deref(), Some("cherries"));
    assert_eq!(rule("carry", "ed").as_deref(), Some("carried"));
    assert_eq!(rule("die", "ing").as_deref(), Some("dying"));
    assert_eq!(rule("metallurgy", "ist").as_deref(), Some("metallurgist"));
    assert_eq!(rule("beauty", "ful").as_deref(), Some("beautiful"));
    assert_eq!(rule("write", "en").as_deref(), Some("written"));
    assert_eq!(rule("free", "ed").as_deref(), Some("freed"));
    assert_eq!(rule("narrate", "ing").as_deref(), Some("narrating"));
    assert_eq!(rule("defer", "ed").as_deref(), Some("deferred"));
    assert_eq!(rule("sit", "ing").as_deref(), Some("sitting"));
    assert_eq!(rule("big", "est").as_deref(), Some("biggest"));
    assert_eq!(rule("test", "ing"), None);
    assert_eq!(rule("test", "s"), None);
    assert_eq!(rule("", ""), None);
    for (first, second) in [("artistic", "ly"), ("test", "s"), ("die", "ing")] {
        assert_eq!(rule(first, second), rule(first, second));
    }
}

#[test]
fn numbers_of_chords() {
    let number = |chord: &str| make_numbers(Keys::parse(chord).unwrap());
    assert_eq!(number("123").as_deref(), Some("123"));
    assert_eq!(number("123EU").as_deref(), Some("321"));
    assert_eq!(number("1D").as_deref(), Some("11"));
    assert_eq!(number("1Z").as_deref(), Some("100"));
    assert_eq!(number("1DZ").as_deref(), Some("$100"));
    assert_eq!(number("12K").as_deref(), Some("12:00"));
    assert_eq!(number("12BG").as_deref(), Some("12:00"));
    assert_eq!(number("12KBG"), None);
    assert_eq!(number("12B"), None);
    assert_eq!(number("12E"), None);
    assert_eq!(number("#"), None);
    assert_eq!(number("#EU"), None);
    assert_eq!(number("1W"), None);
    assert_eq!(number("1234506789").as_deref(), Some("1234506789"));
    assert_eq!(
        number("1234567890EUBGDZ").as_deref(),
        Some("$987605432100:00")
    );
    assert_eq!(make_numbers(Key::S | Key::T).as_deref(), Some("12"));
}

#[test]
fn actions_for_one_chord() {
    let keys = Key::K | Key::W | Key::R2;
    let fallback = make_fallback_action(keys);
    assert_eq!(fallback.entry, "KW-R".parse().unwrap());
    assert_eq!(
        make_fallback_action(Key::F | Key::L).entry,
        "-FL".parse().unwrap()
    );
    assert_eq!(fallback.strokes.0, [keys]);
    assert_eq!(fallback.delete_before, 0);
    assert!(fallback.removed_suffix.is_none());
    let text = make_text_action("word".to_string(), keys);
    assert_eq!(text.entry, "word".parse().unwrap());
    let simple = make_simple_action("{.}".parse().unwrap(), keys);
    assert_eq!(simple.entry, "{.}".parse().unwrap());
    assert_eq!(simple.strokes.0, [keys]);

    assert_eq!(split_suffix(Key::T | Key::E), None);
    assert_eq!(
        split_suffix(Key::T | Key::E | Key::G | Key::Z),
        Some((Key::T | Key::E, Key::G | Key::Z))
    );
    assert_eq!(
        split_suffix(Keys::from(Key::D)),
        Some((Keys::empty(), Keys::from(Key::D)))
    );
    assert_eq!(split_suffix(Keys::from(Key::S)), None);
    assert_eq!(
        split_suffix(Key::S | Key::S2),
        Some((Keys::from(Key::S), Keys::from(Key::S2)))
    );
}

#[test]
fn whitespace_is_what_the_standard_library_says() {
    for code in 0..=0x10ffffu32 {
        if let Some(c) = char::from_u32(code) {
            assert_eq!(is_whitespace(c), c.is_whitespace(), "U+{code:04X}");
        }
    }
    for text in ["", " ", "\u{2028}a\u{85}", "\u{3000}\u{1680} x y\u{205f}\u{202f}", "\u{200b}x\u{feff}"] {
        assert_eq!(trim(text), text.trim(), "{text:?}");
    }
}

#[test]
fn text_helpers() {
    assert_eq!(capitalize("word"), "Word");
    assert_eq!(capitalize(" word"), " word");
    assert_eq!(capitalize("\u{e9}t\u{e9}"), "\u{e9}t\u{e9}");
    assert_eq!(capitalize(""), "");
    assert_eq!(to_lowercase("MiXed \u{c9}"), "mixed \u{c9}");
    assert_eq!(trim("  a b \t\n"), "a b");
    assert_eq!(trim("\u{a0}x\u{2003}"), "x");
    assert_eq!(trim("   "), "");
    assert_eq!(to_upper('a'), 'A');
    assert_eq!(to_upper('z'), 'Z');
    assert_eq!(to_upper('{'), '{');
    assert_eq!(to_lower('A'), 'a');
    assert_eq!(to_lower('Z'), 'z');
    assert_eq!(to_lower('@'), '@');
    assert!(str_eq("abc", "abc"));
    assert!(!str_eq("abc", "abd"));
    assert!(!str_eq("abc", "ab"));
}

#[test]
fn protocols_by_name() {
    assert_eq!("gemini".parse::<StenoProtocol>(), Ok(StenoProtocol::Gemini));
    assert_eq!(
        "Gemini".parse::<StenoProtocol>(),
        Err(StenoProtocolFromStrError)
    );
    assert_eq!(StenoProtocol::parse(""), Err(StenoProtocolFromStrError));
    assert_eq!(StenoProtocol::default(), StenoProtocol::Gemini);
}

use sordahe::dict::entry::Part;
use sordahe::dict::Entry;
use sordahe::trainer::Words;

#[test]
fn entries_joined() {
    let first: Entry = "{>} a".parse().unwrap();
    let second: Entry = "{^b}".parse().unwrap();
    let both = first.concat(&second);
    assert_eq!(
        both.0.as_slice(),
        &[
            Part::SetCaps(false),
            Part::Verbatim("a".into()),
            Part::Suffix("b".into())
        ]
    );
    assert_eq!(both.len(), 3);
    assert_eq!(both.part(2), &Part::Suffix("b".into()));
    assert_eq!(first.len(), 2);
    assert_eq!(first.share(), first);
    assert_eq!(Entry::new(Vec::new()).concat(&first), first);
    assert_eq!(Part::Glue("x".into()).duplicate(), Part::Glue("x".into()));
}

#[test]
fn output_replaces_text() {
    let mut output = Output::new();
    output.append("Settle");
    assert!(output.replace(CharsOrBytes::for_str("le"), "led"));
    assert_eq!(output.append, "Settled");
    assert!(output.replace(CharsOrBytes::for_str("xSettled"), "y"));
    assert_eq!(output.delete.chars(), 1);
    assert_eq!(output.append, "y");
}

#[test]
fn practice_words() {
    assert!(Words::new("none".into(), Vec::new(), 0).is_none());
    let list = vec!["Alpha".to_string(), "beta".to_string(), "gamma".to_string()];
    let mut words = Words::new("greek".into(), list, 1).unwrap();
    assert_eq!(words.name, "greek");
    assert_eq!((words.start, words.end), (0, 3));
    assert_eq!(words.current(), "beta");
    assert!(!words.is_correct());
    words.type_buf.push_str("  BeTa \n");
    assert!(words.is_correct());
    words.type_buf.push('x');
    assert!(!words.is_correct());

    words.next(1);
    assert_eq!(words.current_index, 2);
    assert_eq!(words.type_buf, "");
    words.next(1);
    assert_eq!(words.current_index, 1);
    words.next(0);
    assert_eq!(words.current_index, 0);
    assert_eq!(words.current(), "Alpha");
    words.type_buf.push_str("alpha");
    assert!(words.is_correct());
    words.next(0);
    assert_eq!(words.current_index, 1);

    words.set_range(0, 2, 0);
    assert_eq!(words.current_index, 1);
    words.set_range(2, 3, 2);
    assert_eq!(words.current_index, 2);
    assert_eq!((words.start, words.end), (2, 3));
}
