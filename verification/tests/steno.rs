use sordahe::dict::{Dict, Strokes};
use sordahe::keys::Keys;
use sordahe::steno::Steno;
use sordahe::word_list::WordList;

const DICT: &[(&str, &str)] = &[
    ("TH", "this"),
    ("S", "is"),
    ("AEU", "a"),
    ("TEFT", "test"),
    ("-P", "{.}"),
    ("HEL", "hell"),
    ("HEL/HRO", "hello"),
    ("HRA", "la"),
    ("*", "{PLOVER:backspace}"),
    ("G", "{^ing}"),
    ("-S", "{^s}"),
    ("D", "{^ed}"),
    ("AR", "are"),
    ("AR/TEUS", "artist"),
    ("AR/TEUS/TEUBG", "artistic"),
    ("HREU", "{^ly}"),
    ("HROPBLG", "lodge"),
    ("HROPBLG/EUBG", "logic"),
    ("STAUT", "statute"),
    ("REU", "{^ry}"),
    ("APL", "am"),
    ("APL/HRAEUT", "ambulate"),
    ("TPREBG", "frequent"),
    ("SEU", "{^cy}"),
    ("RE", "re"),
    ("RE/SKWREPBT", "regent"),
    ("AD", "ad"),
    ("AD/KWAT", "adequate"),
    ("STAEB", "establish"),
    ("SPAOEFP", "speech"),
    ("KHER", "cher"),
    ("KHER/REU", "cherry"),
    ("TKAOEU", "die"),
    ("PHET", "met"),
    ("PHET/HRURPBLG", "metallurgy"),
    ("EUFT", "{^ist}"),
    ("PWAOUT", "beauty"),
    ("FL", "{^ful}"),
    ("WREU", "write"),
    ("*EPB", "{^en}"),
    ("TPRAOE", "free"),
    ("TPHAR", "nar"),
    ("TPHAR/RAEUT", "narrate"),
    ("TKEFR", "defer"),
    ("TEUPBT", "tint"),
    ("SEUT", "sit"),
    ("RUB", "rub"),
    ("*ER", "{^er}"),
    ("PWEUG", "big"),
    ("EFT", "{^est}"),
    ("SELT", "settle"),
    ("PHAOET", "meet"),
    ("KP*", "{>}{&x}"),
    ("TP*DZ", "{&F}"),
    ("*U", "{>}{&u}"),
    ("*EU", "{>}{&i}"),
    ("HR*", "{>}{&l}"),
    ("KPA", "{-|}"),
    ("TK-LS", "{^^}"),
    ("KW-BG", "{,}"),
    ("KW-PL", "{?}"),
    ("PHROLG", "{PLOVER:quit}"),
    ("R-R", "{PLOVER:reset}"),
    ("KA*RD", "{~|}{^card}"),
];

const WORDS: &str = "meeting\ntesting\ntests\ntest\nhello\n";

fn dict() -> Dict {
    let pairs: Vec<(String, String)> = DICT
        .iter()
        .map(|&(key, value)| (key.to_string(), value.to_string()))
        .collect();
    Dict::from_pairs(&pairs).unwrap()
}

fn word_list() -> WordList {
    WORDS.parse().unwrap()
}

fn steno_to_string(dict: &Dict, word_list: &WordList, input: &[Keys]) -> String {
    let mut steno = Steno::new(dict, word_list);

    for &keys in input {
        steno.try_run_keys(keys).expect("the engine can run the chord").unwrap();
    }

    let output = steno.flush();
    assert_eq!(output.delete.bytes(), 0);
    assert_eq!(output.delete_words, 0);
    output.append
}

const TESTS: &[(&str, &str)] = &[
    // Basic
    ("TH/S/AEU/TEFT", "This is a test"),
    // Punctuation
    ("TEFT/-P/TEFT/-P/TEFT", "Test. Test. Test"),
    // Chords
    ("HEL/HRO", "Hello"),
    ("HEL/HRO/*", "Hell"),
    ("HEL/HRO/HRA", "Hello la"),
    // Numbers
    ("123", "123"),
    ("123EU", "321"),
    ("1D", "11"),
    ("123D", "123123"),
    ("123Z", "12300"),
    ("123DZ", "$12300"),
    ("50", "50"),
    ("056", "506"),
    ("12K", "12:00"),
    ("12BG", "12:00"),
    ("1234567890EUBGDZ", "$987605432100:00"),
    // Orthography
    ("TEFT/G", "Testing"),
    ("TEFT/-S", "Tests"),
    ("TEFTS", "Tests"),
    ("AR/TEUS/TEUBG", "Artistic"),
    ("AR/TEUS/TEUBG/HREU", "Artistically"),
    ("HROPBLG/EUBG", "Logic"),
    ("HROPBLG/EUBG/HREU", "Logically"),
    ("STAUT", "Statute"),
    ("STAUT/REU", "Statutory"),
    ("APL/HRAEUT", "Ambulate"),
    ("APL/HRAEUT/REU", "Ambulatory"),
    ("TPREBG", "Frequent"),
    ("TPREBG/SEU", "Frequency"),
    ("RE/SKWREPBT", "Regent"),
    ("RE/SKWREPBT/SEU", "Regency"),
    ("AD/KWAT", "Adequate"),
    ("AD/KWAT/SEU", "Adequacy"),
    ("STAEB", "Establish"),
    ("STAEB/-S", "Establishes"),
    ("STAEBS", "Establishes"),
    ("SPAOEFP", "Speech"),
    ("SPAOEFP/-S", "Speeches"),
    ("SPAOEFPS", "Speeches"),
    ("KHER/REU", "Cherry"),
    ("KHER/REU/-S", "Cherries"),
    ("TKAOEU", "Die"),
    ("TKAOEU/G", "Dying"),
    ("TKAOEUG", "Dying"),
    ("PHET/HRURPBLG", "Metallurgy"),
    ("PHET/HRURPBLG/EUFT", "Metallurgist"),
    ("PWAOUT", "Beauty"),
    ("PWAOUT/FL", "Beautiful"),
    ("WREU", "Write"),
    ("WREU/*EPB", "Written"),
    ("TPRAOE", "Free"),
    ("TPRAOE/D", "Freed"),
    ("TPRAOED", "Freed"),
    ("TPHAR/RAEUT", "Narrate"),
    ("TPHAR/RAEUT/G", "Narrating"),
    ("TPHAR/RAEUTG", "Narrating"),
    ("TKEFR", "Defer"),
    ("TKEFR/D", "Deferred"),
    ("TKEFRD", "Deferred"),
    ("TEUPBT", "Tint"),
    ("TEUPBT/G", "Tinting"),
    ("TEUPBTG", "Tinting"),
    ("SEUT", "Sit"),
    ("SEUT/G", "Sitting"),
    ("RUB", "Rub"),
    ("RUB/*ER", "Rubber"),
    ("PWEUG", "Big"),
    ("PWEUG/EFT", "Biggest"),
    ("SELT", "Settle"),
    ("SELT/D", "Settled"),
    ("SELTD", "Settled"),
    ("SELT/D/TEFT", "Settled test"),
    ("SELT/D/*", "Settle"),
    ("TH/S/AEU/TEFT/SELT/D/*/*/*", "This is a"),
    ("PHAOET/G/PHAOET/G", "Meeting meeting"),
    // Glue
    ("KP*", "x"),
    ("KP*/KP*/KP*", "xxx"),
    ("TP*DZ/*U/*EU/HR*", "Fuil"),
];

#[test]
fn test() {
    let dict = dict();
    let word_list = word_list();
    let mut success = true;

    for &(raw_input, expected_output) in TESTS {
        let input_strokes = raw_input.parse::<Strokes>().unwrap().0;
        let actual_output = steno_to_string(&dict, &word_list, &input_strokes);
        let correct = actual_output == expected_output;
        success &= correct;
        if !correct {
            println!("failed: input {raw_input:?}, expected output {expected_output:?}, actual output {actual_output:?}");
        }
    }

    assert!(success, "some tests failed");
}
