use sordahe::bounded_queue::BoundedQueue;
use sordahe::dict::{Dict, Strokes};
use sordahe::keys::{Key, Keys};
use sordahe::steno::model::{InputState, BACKLOG_DEPTH};
use sordahe::steno::{Output, SpecialAction, Steno};
use sordahe::word_list::WordList;

fn small_dict() -> Dict {
    let pairs: Vec<(String, String)> = [
        ("TEFT", "test"),
        ("TH", "this"),
        ("S", "is"),
        ("HEL", "hell"),
        ("HEL/HRO", "hello"),
        ("*", "{PLOVER:backspace}"),
        ("-P", "{.}"),
        ("KW-BG", "{,}"),
        ("G", "{^ing}"),
        ("D", "{^ed}"),
        ("SELT", "settle"),
        ("KPA", "{-|}"),
        ("TK-LS", "{^}"),
        ("PHROLG", "{PLOVER:quit}"),
        ("R-R", "{PLOVER:reset}"),
        ("PWAD", "x{PLOVER:backspace}"),
        ("TEFTD", "tested already"),
        ("KA*RD", "{~|}card"),
        ("TPAOEU", "caf\u{e9}"),
        ("TPAO", "foo{PLOVER:reset}bar"),
    ]
    .iter()
    .map(|&(key, value)| (key.to_string(), value.to_string()))
    .collect();
    Dict::from_pairs(&pairs).unwrap()
}

fn words() -> WordList {
    "test\ntesting\n".parse().unwrap()
}

fn chords(raw: &str) -> Vec<Keys> {
    raw.parse::<Strokes>().unwrap().0
}

/// What stands on a surface that held `surface` after the edit `output`.
fn apply(surface: &str, output: &Output) -> String {
    assert_eq!(output.delete_words, 0);
    let kept = surface.chars().count().saturating_sub(output.delete.chars());
    let mut text: String = surface.chars().take(kept).collect();
    text.push_str(&output.append);
    text
}

#[test]
fn new_engine_is_initial() {
    let dict = small_dict();
    let words = words();
    let mut steno = Steno::new(&dict, &words);
    assert_eq!(
        steno.state(),
        InputState {
            caps: true,
            space: false,
            carry_to_next: false,
            glue: false
        }
    );
    assert_eq!(steno.backlog().len(), 0);
    let output = steno.flush();
    assert_eq!(output.delete_words, 0);
    assert_eq!(output.delete.chars(), 0);
    assert_eq!(output.delete.bytes(), 0);
    assert_eq!(output.append, "");
}

#[test]
fn flush_after_each_chord_gives_the_same_surface() {
    let dict = small_dict();
    let words = words();
    for raw in [
        "TH/S/TEFT",
        "HEL/HRO/*",
        "SELT/D/*/TEFT",
        "TEFT/G/-P/TEFT/*/*",
        "TPAOEU/*/TEFT",
        "HEL/HRO/TEFT/-P/HEL/HRO/*/*",
    ] {
        let input = chords(raw);

        let mut gathered = Steno::new(&dict, &words);
        for &keys in &input {
            gathered.try_run_keys(keys).expect("the engine can run the chord").unwrap();
        }
        let once = apply("", &gathered.flush());

        let mut flushing = Steno::new(&dict, &words);
        let mut surface = String::new();
        for &keys in &input {
            flushing.try_run_keys(keys).expect("the engine can run the chord").unwrap();
            surface = apply(&surface, &flushing.flush());
        }

        assert_eq!(once, surface, "input {raw:?}");
    }
}

#[test]
fn flushed_undo_deletes_by_chars_and_bytes() {
    let dict = small_dict();
    let words = words();
    let mut steno = Steno::new(&dict, &words);
    steno.try_run_keys(chords("TEFT")[0]).expect("the engine can run the chord").unwrap();
    steno.try_run_keys(chords("TPAOEU")[0]).expect("the engine can run the chord").unwrap();
    let first = steno.flush();
    assert_eq!(first.append, "Test caf\u{e9}");
    steno.try_run_keys(chords("*")[0]).expect("the engine can run the chord").unwrap();
    let second = steno.flush();
    assert_eq!(second.delete_words, 0);
    assert_eq!(second.delete.chars(), 5);
    assert_eq!(second.delete.bytes(), 6);
    assert_eq!(second.append, "");
    assert_eq!(apply("Test caf\u{e9}", &second), "Test");
}

#[test]
fn events_hold_the_state_before_them() {
    let dict = small_dict();
    let words = words();
    let input = chords("TH/S/TEFT");
    let mut steno = Steno::new(&dict, &words);
    let mut states = Vec::new();
    for &keys in &input {
        states.push(steno.state());
        steno.try_run_keys(keys).expect("the engine can run the chord").unwrap();
    }
    let backlog = steno.backlog();
    assert_eq!(backlog.len(), 3);
    for at in 0..3 {
        let event = backlog.get(at);
        assert_eq!(event.strokes.0, vec![input[at]]);
        assert_eq!(event.state_before, states[at]);
    }
    assert_eq!(
        backlog.get(0).state_before,
        InputState {
            caps: true,
            space: false,
            carry_to_next: false,
            glue: false
        }
    );
    assert_eq!(
        backlog.get(1).state_before,
        InputState {
            caps: false,
            space: true,
            carry_to_next: false,
            glue: false
        }
    );
}

#[test]
fn backlog_can_be_replayed() {
    let dict = small_dict();
    let words = words();
    for raw in ["TH/S/TEFT", "TH/HEL/HRO/TEFT/G/-P/HEL", "SELTD/12/TPAOEU/D/D"] {
        let input = chords(raw);
        let mut steno = Steno::new(&dict, &words);
        for &keys in &input {
            steno.try_run_keys(keys).expect("the engine can run the chord").unwrap();
        }
        let backlog = steno.backlog();
        let mut replayed = Vec::new();
        for at in 0..backlog.len() {
            let mut replay = Steno::new(&dict, &words);
            for &keys in &replayed {
                replay.try_run_keys(keys).expect("the engine can run the chord").unwrap();
            }
            assert_eq!(replay.state(), backlog.get(at).state_before, "input {raw:?}");
            replayed.extend(backlog.get(at).strokes.0.iter().copied());
        }
        assert_eq!(replayed, input);
    }
}

#[test]
fn backlog_can_be_replayed_after_backspaces() {
    let dict = small_dict();
    let words = words();
    for (raw, left) in [
        ("TH/S/*/TEFT", "TH/TEFT"),
        ("HEL/HRO/*/TEFT/G", "HEL/TEFT/G"),
        ("TH/HEL/HRO/*/*/S/TEFT/*", "TH/S"),
        ("*/TEFT/*/*/TH", "TH"),
    ] {
        let mut steno = Steno::new(&dict, &words);
        for &keys in &chords(raw) {
            steno.try_run_keys(keys).expect("the engine can run the chord").unwrap();
        }
        let backlog = steno.backlog();
        let mut replayed = Vec::new();
        for at in 0..backlog.len() {
            let mut replay = Steno::new(&dict, &words);
            for &keys in &replayed {
                replay.try_run_keys(keys).expect("the engine can run the chord").unwrap();
            }
            assert_eq!(replay.state(), backlog.get(at).state_before, "input {raw:?}");
            assert_eq!(replay.backlog().len(), at, "input {raw:?}");
            replayed.extend(backlog.get(at).strokes.0.iter().copied());
        }
        assert_eq!(replayed, chords(left), "input {raw:?}");
    }
}

#[test]
fn reset_drops_what_was_not_flushed() {
    let dict = small_dict();
    let words = words();

    let mut gathered = Steno::new(&dict, &words);
    gathered.try_run_keys(chords("TEFT")[0]).expect("the engine can run the chord").unwrap();
    gathered.try_run_keys(chords("R-R")[0]).expect("the engine can run the chord").unwrap();
    assert_eq!(apply("", &gathered.flush()), "");

    let mut flushing = Steno::new(&dict, &words);
    flushing.try_run_keys(chords("TEFT")[0]).expect("the engine can run the chord").unwrap();
    let surface = apply("", &flushing.flush());
    flushing.try_run_keys(chords("R-R")[0]).expect("the engine can run the chord").unwrap();
    assert_eq!(apply(&surface, &flushing.flush()), "Test");
}

#[test]
fn backlog_stays_within_its_depth() {
    let dict = small_dict();
    let words = words();
    let mut steno = Steno::new(&dict, &words);
    let test = chords("TEFT")[0];
    for round in 0..(BACKLOG_DEPTH + 50) {
        steno.try_run_keys(test).expect("the engine can run the chord").unwrap();
        assert!(steno.backlog().len() <= BACKLOG_DEPTH);
        assert_eq!(steno.backlog().len(), (round + 1).min(BACKLOG_DEPTH));
        steno.flush();
    }
    assert_eq!(steno.backlog().len(), 1000);
}

#[test]
fn every_event_holds_text() {
    let dict = small_dict();
    let words = words();
    let mut steno = Steno::new(&dict, &words);
    for &keys in &chords("KPA/TEFT/TK-LS/G/KPA/-P/HEL/HRO/*/KW-BG/123/KA*RD") {
        steno.try_run_keys(keys).expect("the engine can run the chord").unwrap();
        let backlog = steno.backlog();
        for at in 0..backlog.len() {
            assert!(!backlog.get(at).text.is_empty());
            assert!(!backlog.get(at).strokes.0.is_empty());
        }
    }
    assert_eq!(steno.flush().append, "Testing. Hell, 123 card");
}

#[test]
fn backspace_with_empty_backlog_deletes_a_word() {
    let dict = small_dict();
    let words = words();
    let mut steno = Steno::new(&dict, &words);
    assert_eq!(steno.try_run_keys(chords("*")[0]), Some(Ok(())));
    let output = steno.flush();
    assert_eq!(output.delete_words, 1);
    assert_eq!(output.delete.chars(), 0);
    assert_eq!(output.append, "");

    steno.try_run_keys(chords("*")[0]).expect("the engine can run the chord").unwrap();
    steno.try_run_keys(chords("*")[0]).expect("the engine can run the chord").unwrap();
    let output = steno.flush();
    assert_eq!(output.delete_words, 2);
    assert_eq!(output.append, "");
}

#[test]
fn words_are_deleted_only_while_nothing_is_typed() {
    let mut output = Output::default();
    assert!(output.types_nothing());
    assert!(output.delete_words(1));
    assert_eq!(output.delete_words, 1);
    assert!(output.delete_words(2));
    assert_eq!(output.delete_words, 3);
    output.append("text");
    assert!(!output.types_nothing());
    assert_eq!(output.delete_words, 3);
    assert_eq!(output.append, "text");
}

#[test]
fn joined_ending_is_written_as_it_was_spelled() {
    let dict = small_dict();
    let words = words();

    let mut steno = Steno::new(&dict, &words);
    steno.write_joined("cherry", "s", Some("cherries".to_string()));
    assert_eq!(steno.flush().append, "Cherries");

    let mut steno = Steno::new(&dict, &words);
    steno.write_joined("cherry", "s", None);
    assert_eq!(steno.flush().append, "Cherrys");

    let mut steno = Steno::new(&dict, &words);
    steno.try_run_keys(chords("TEFT")[0]).expect("the engine can run the chord").unwrap();
    steno.write_joined("settle", "ed", Some("settled".to_string()));
    assert_eq!(steno.flush().append, "Test settled");
}

#[test]
fn backspace_undoes_a_single_chord() {
    let dict = small_dict();
    let words = words();
    for (before, chord) in [
        ("", "TEFT"),
        ("TH/S", "TEFT"),
        ("TH/S", "-P"),
        ("SELT", "D"),
        ("TH/TEFT", "G"),
        ("TH", "12"),
        ("TEFT/KPA", "TPAOEU"),
    ] {
        let mut steno = Steno::new(&dict, &words);
        for &keys in &chords(before) {
            steno.try_run_keys(keys).expect("the engine can run the chord").unwrap();
        }
        let surface = apply("", &steno.flush());
        let state = steno.state();
        let events = steno.backlog().len();

        steno.try_run_keys(chords(chord)[0]).expect("the engine can run the chord").unwrap();
        let typed = apply(&surface, &steno.flush());
        assert_ne!(typed, surface);
        steno.try_run_keys(chords("*")[0]).expect("the engine can run the chord").unwrap();
        let undone = apply(&typed, &steno.flush());

        assert_eq!(undone, surface, "chord {chord:?} after {before:?}");
        assert_eq!(steno.state(), state);
        assert_eq!(steno.backlog().len(), events);
    }
}

#[test]
fn lookup_with_empty_backlog() {
    let dict = small_dict();
    let words = words();
    let steno = Steno::new(&dict, &words);
    let action = steno.find_action(chords("TEFT")[0]);
    assert_eq!(action.delete_before, 0);
    assert_eq!(action.strokes.0, chords("TEFT"));
    assert!(action.removed_suffix.is_none());
    assert_eq!(action.entry, "test".parse().unwrap());
}

#[test]
fn match_over_the_whole_backlog() {
    let dict = small_dict();
    let words = words();
    let mut steno = Steno::new(&dict, &words);
    steno.try_run_keys(chords("HEL")[0]).expect("the engine can run the chord").unwrap();
    assert_eq!(steno.backlog().len(), 1);
    let action = steno.find_action(chords("HRO")[0]);
    assert_eq!(action.delete_before, 1);
    assert_eq!(action.strokes.0, chords("HEL/HRO"));
    assert_eq!(action.entry, "hello".parse().unwrap());
    steno.try_run_keys(chords("HRO")[0]).expect("the engine can run the chord").unwrap();
    assert_eq!(steno.backlog().len(), 1);
    assert_eq!(steno.flush().append, "Hello");
}

#[test]
fn whole_key_wins_over_suffix_split() {
    let dict = small_dict();
    let words = words();
    let mut steno = Steno::new(&dict, &words);
    let action = steno.find_action(chords("TEFTD")[0]);
    assert!(action.removed_suffix.is_none());
    assert_eq!(action.entry, "tested already".parse().unwrap());
    steno.try_run_keys(chords("TEFTD")[0]).expect("the engine can run the chord").unwrap();
    assert_eq!(steno.flush().append, "Tested already");
}

#[test]
fn suffix_is_split_off_an_unknown_chord() {
    let dict = small_dict();
    let words = words();
    let steno = Steno::new(&dict, &words);
    let action = steno.find_action(chords("SELTD")[0]);
    assert_eq!(action.delete_before, 0);
    assert_eq!(action.strokes.0, chords("SELTD"));
    assert_eq!(action.entry, "settle".parse().unwrap());
    assert_eq!(action.removed_suffix, Some("{^ed}".parse().unwrap()));
}

#[test]
fn unknown_chord_is_spelled_out() {
    let dict = small_dict();
    let words = words();
    let mut steno = Steno::new(&dict, &words);
    steno.try_run_keys(chords("TEFT")[0]).expect("the engine can run the chord").unwrap();
    steno.try_run_keys(chords("KWR-B")[0]).expect("the engine can run the chord").unwrap();
    steno.try_run_keys(chords("1-R")[0]).expect("the engine can run the chord").unwrap();
    steno.try_run_keys(chords("S-T")[0]).expect("the engine can run the chord").unwrap();
    assert_eq!(steno.flush().append, "Test KWRB #S-R S-T");
}

#[test]
fn reset_in_the_middle_clears_everything() {
    let dict = small_dict();
    let words = words();
    let mut steno = Steno::new(&dict, &words);
    steno.try_run_keys(chords("TEFT")[0]).expect("the engine can run the chord").unwrap();
    steno.try_run_keys(chords("TEFT")[0]).expect("the engine can run the chord").unwrap();
    steno.try_run_keys(chords("R-R")[0]).expect("the engine can run the chord").unwrap();
    assert_eq!(steno.backlog().len(), 0);
    assert_eq!(steno.state(), InputState { caps: true, space: false, carry_to_next: false, glue: false });
    let output = steno.flush();
    assert_eq!(output.append, "");
    assert_eq!(output.delete.chars(), 0);
    steno.try_run_keys(chords("TEFT")[0]).expect("the engine can run the chord").unwrap();
    assert_eq!(steno.flush().append, "Test");
}

#[test]
fn reset_in_the_middle_of_an_entry() {
    let dict = small_dict();
    let words = words();
    let mut steno = Steno::new(&dict, &words);
    steno.try_run_keys(chords("TEFT")[0]).expect("the engine can run the chord").unwrap();
    let before = steno.state();
    steno.try_run_keys(chords("TPAO")[0]).expect("the engine can run the chord").unwrap();
    let output = steno.flush();
    assert_eq!(output.append, "Bar");
    assert_eq!(output.delete.chars(), 0);
    assert_eq!(output.delete_words, 0);
    assert_eq!(steno.backlog().len(), 1);
    assert_eq!(steno.backlog().get(0).text, "Bar");
    assert_eq!(steno.backlog().get(0).strokes.0, chords("TPAO"));
    assert_eq!(steno.backlog().get(0).state_before, before);
    assert!(!steno.backlog().get(0).replaced_previous);
    assert_eq!(
        steno.state(),
        InputState {
            caps: false,
            space: true,
            carry_to_next: false,
            glue: false
        }
    );
}

#[test]
fn quit_is_handed_to_the_caller() {
    let dict = small_dict();
    let words = words();
    let mut steno = Steno::new(&dict, &words);
    steno.try_run_keys(chords("TEFT")[0]).expect("the engine can run the chord").unwrap();
    assert_eq!(steno.try_run_keys(chords("PHROLG")[0]), Some(Err(SpecialAction::Quit)));
    assert_eq!(steno.try_run_keys(chords("PHROLG")[0]), Some(Err(SpecialAction::Quit)));
    assert_eq!(steno.flush().append, "Test");
}

#[test]
fn run_keys_does_what_try_run_keys_does() {
    let dict = small_dict();
    let words = words();
    let input = chords("TH/S/TEFT/G/-P/HEL/HRO/*/SELT/D/*/PHROLG/TPAOEU");
    // The first engine shows that each chord can be run; the second, which
    // is in the same state, then runs it without asking.
    let mut asked = Steno::new(&dict, &words);
    let mut unasked = Steno::new(&dict, &words);
    for &keys in &input {
        let result = asked.try_run_keys(keys).expect("the engine can run the chord");
        assert_eq!(unasked.run_keys(keys), result);
        assert_eq!(unasked.state(), asked.state());
        assert_eq!(unasked.backlog().len(), asked.backlog().len());
    }
    let first = asked.flush();
    let second = unasked.flush();
    assert_eq!(first.append, second.append);
    assert_eq!(first.delete, second.delete);
    assert_eq!(first.delete_words, second.delete_words);
    assert_eq!(first.append, "This is testing. Hell settle caf\u{e9}");
}

#[test]
fn backspace_after_text_is_refused() {
    let dict = small_dict();
    let words = words();
    let mut steno = Steno::new(&dict, &words);
    assert_eq!(steno.try_run_keys(chords("TEFT")[0]), Some(Ok(())));
    assert_eq!(steno.try_run_keys(chords("PWAD")[0]), None);
}

#[test]
fn handle_keys_hands_out_the_edit() {
    let dict = small_dict();
    let words = words();
    let mut steno = Steno::new(&dict, &words);
    let first = steno.handle_keys(chords("TEFT")[0]).unwrap();
    assert_eq!(first.append, "Test");
    let second = steno.handle_keys(chords("G")[0]).unwrap();
    assert_eq!(second.delete.chars(), 4);
    assert_eq!(second.delete.bytes(), 4);
    assert_eq!(second.append, "Testing");
    assert!(steno.handle_keys(chords("PHROLG")[0]).is_err());
}

#[test]
fn capital_and_space_follow_the_state() {
    let dict = small_dict();
    let words = words();
    let mut steno = Steno::new(&dict, &words);
    for &keys in &chords("TEFT/KW-BG/TEFT/-P/TEFT/KPA/TEFT/TK-LS/TEFT") {
        steno.try_run_keys(keys).expect("the engine can run the chord").unwrap();
    }
    assert_eq!(steno.flush().append, "Test, test. Test Testtest");
}

#[test]
fn engine_over_owned_dictionary() {
    let mut steno: Steno = Steno::new(small_dict(), words());
    steno.try_run_keys(Keys::from(Key::S)).expect("the engine can run the chord").unwrap();
    assert_eq!(steno.flush().append, "Is");
}

#[test]
fn buffer_of_the_surface() {
    let mut buffer: BoundedQueue<u8> = BoundedQueue::new(100);
    let dict = small_dict();
    let words = words();
    let mut steno = Steno::new(&dict, &words);

    steno.try_run_keys(chords("TEFT")[0]).expect("the engine can run the chord").unwrap();
    let mut output = steno.flush();
    output.use_buffer(&mut buffer);
    assert_eq!(output.append, "Test");
    assert_eq!(buffer.inner().iter().copied().collect::<Vec<u8>>(), b"Test");

    steno.try_run_keys(chords("G")[0]).expect("the engine can run the chord").unwrap();
    let mut output = steno.flush();
    assert_eq!(output.delete.bytes(), 4);
    assert_eq!(output.append, "Testing");
    output.use_buffer(&mut buffer);
    assert_eq!(output.delete.bytes(), 0);
    assert_eq!(output.delete.chars(), 0);
    assert_eq!(output.append, "ing");
    assert_eq!(buffer.inner().iter().copied().collect::<Vec<u8>>(), b"Testing");
}
