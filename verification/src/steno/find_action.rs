use vstd::prelude::*;

use crate::bounded_queue::tail_of;
use crate::dict::entry::PartModel;
use crate::dict::{Entry, Part, Strokes};
use crate::keys::{Key, Keys, ALL_BITS};
use crate::steno::model::{
    all_digits, digit_keys, digit_of, digits_from, events_view, fallback_action, found_action,
    joinable, longest_match, matched_action, number_reversed, number_scaled, number_text,
    number_timed, pair, simple_action, split_suffix_spec, strokes_after, ActionModel, EventModel,
    InputEvent, NumberModel,
};
use crate::steno::{Dict, Steno, WordList};
use crate::text::{chars_of, string_of};

verus! {

/// What the engine does for a chord.
#[derive(Debug)]
pub struct Action {
    /// The parts to run.
    pub entry: Entry,
    /// The chords that the action stands for.
    pub strokes: Strokes,
    /// If `Some`, this is run after `entry`.
    pub removed_suffix: Option<Entry>,
    /// The number of events of the backlog that are taken back before the
    /// entry is run.
    pub delete_before: usize,
}

impl View for Action {
    type V = ActionModel;

    open spec fn view(&self) -> ActionModel {
        ActionModel {
            entry: self.entry@,
            strokes: self.strokes@,
            removed_suffix: match self.removed_suffix {
                Some(suffix) => Some(suffix@),
                None => None,
            },
            delete_before: self.delete_before as nat,
        }
    }
}

fn bit(key: Key) -> (r: u32)
    ensures
        r == key.mask(),
{
    1u32 << key.index()
}

fn two(a: Key, b: Key) -> (r: Keys)
    ensures
        r == pair(a, b),
{
    Keys(bit(a) | bit(b))
}

fn number_keys() -> (r: Vec<(Key, char)>)
    ensures
        r@.len() == digit_keys().len(),
        forall|i: int|
            0 <= i < r@.len() ==> (#[trigger] r@[i]).0 == digit_keys()[i] && digit_of(r@[i].0)
                == Some(r@[i].1),
{
    let r = vec![
        (Key::S, '1'),
        (Key::T, '2'),
        (Key::P, '3'),
        (Key::H, '4'),
        (Key::A, '5'),
        (Key::O, '0'),
        (Key::F, '6'),
        (Key::P2, '7'),
        (Key::L, '8'),
        (Key::T2, '9'),
    ];
    assert(r@.len() == 10);
    r
}

/// A number in the making.
struct Number {
    keys: Keys,
    text: Vec<char>,
}

impl View for Number {
    type V = NumberModel;

    closed spec fn view(&self) -> NumberModel {
        NumberModel { keys: self.keys, text: self.text@ }
    }
}

fn reversed(text: &Vec<char>) -> (r: Vec<char>)
    ensures
        r@ == text@.reverse(),
{
    let mut out: Vec<char> = Vec::new();
    let n = text.len();
    let mut i: usize = 0;
    while i < n
        invariant
            n == text@.len(),
            i <= n,
            out@ == text@.reverse().take(i as int),
        decreases n - i,
    {
        out.push(text[n - 1 - i]);
        assert(out@ =~= text@.reverse().take(i + 1));
        i += 1;
    }
    assert(out@ =~= text@.reverse());
    out
}

fn extend(out: &mut Vec<char>, more: &Vec<char>)
    ensures
        final(out)@ == old(out)@ + more@,
{
    let mut i: usize = 0;
    assert(out@ =~= old(out)@ + more@.take(0));
    while i < more.len()
        invariant
            i <= more@.len(),
            out@ == old(out)@ + more@.take(i as int),
        decreases more@.len() - i,
    {
        out.push(more[i]);
        assert(out@ =~= old(out)@ + more@.take(i + 1));
        i += 1;
    }
    assert(more@.take(i as int) =~= more@);
}

fn reverse_number(n: Number) -> (r: Number)
    ensures
        r@ == number_reversed(n@),
{
    let mut keys = n.keys;
    if keys.remove(two(Key::E, Key::U)) {
        Number { keys, text: reversed(&n.text) }
    } else {
        n
    }
}

fn scale_number(n: Number) -> (r: Number)
    ensures
        r@ == number_scaled(n@),
{
    let mut keys = n.keys;
    let mut text = n.text;
    if keys.remove(two(Key::D, Key::Z)) {
        let mut out: Vec<char> = Vec::new();
        out.push('$');
        extend(&mut out, &text);
        out.push('0');
        out.push('0');
        assert(out@ =~= seq!['$'] + n.text@ + seq!['0', '0']);
        Number { keys, text: out }
    } else {
        if keys.remove_key(Key::D) {
            let ghost once = text@;
            let copy = text.clone();
            extend(&mut text, &copy);
            assert(text@ =~= once + once);
        }
        if keys.remove_key(Key::Z) {
            let ghost before = text@;
            text.push('0');
            text.push('0');
            assert(text@ =~= before + seq!['0', '0']);
        }
        Number { keys, text }
    }
}

fn time_number(n: Number) -> (r: Number)
    ensures
        r@ == number_timed(n@),
{
    let mut keys = n.keys;
    let mut text = n.text;
    let ghost before = text@;
    if keys.remove_key(Key::K) || keys.remove(two(Key::B, Key::G)) {
        text.push(':');
        text.push('0');
        text.push('0');
        assert(text@ =~= before + seq![':', '0', '0']);
    }
    Number { keys, text }
}

/// The number that a chord with the number bar stands for, if it stands for
/// one.
pub fn make_numbers(keys: Keys) -> (r: Option<String>)
    ensures
        match r {
            Some(text) => number_text(keys) == Some(text@),
            None => number_text(keys) is None,
        },
{
    let order = number_keys();
    let mut digits: Vec<char> = Vec::new();
    let mut i: usize = 0;
    assert(digits@ + digits_from(keys, 0) =~= digits_from(keys, 0));
    while i < order.len()
        invariant
            i <= order@.len(),
            order@.len() == digit_keys().len(),
            forall|j: int|
                0 <= j < order@.len() ==> (#[trigger] order@[j]).0 == digit_keys()[j] && digit_of(
                    order@[j].0,
                ) == Some(order@[j].1),
            digits_from(keys, 0) == digits@ + digits_from(keys, i as int),
        decreases order@.len() - i,
    {
        let ghost before = digits@;
        let (key, digit) = order[i];
        if keys.contains(key) {
            digits.push(digit);
            assert(before + (seq![digit] + digits_from(keys, i + 1)) =~= digits@ + digits_from(
                keys,
                i + 1,
            ));
        }
        i += 1;
    }
    assert(digits@ + digits_from(keys, i as int) =~= digits@);
    if digits.len() == 0 {
        return None;
    }
    let digit_mask = bit(Key::S) | bit(Key::T) | bit(Key::P) | bit(Key::H) | bit(Key::A) | bit(
        Key::O,
    ) | bit(Key::F) | bit(Key::P2) | bit(Key::L) | bit(Key::T2);
    let rest = Keys(keys.0 & !bit(Key::NumberBar) & !digit_mask);
    let n = time_number(scale_number(reverse_number(Number { keys: rest, text: digits })));
    if !n.keys.is_empty() {
        return None;
    }
    Some(string_of(&n.text, 0, n.text.len()))
}

fn is_all_digits(text: &str) -> (r: bool)
    ensures
        r == all_digits(text@),
{
    let v = chars_of(text);
    let mut i: usize = 0;
    while i < v.len()
        invariant
            i <= v@.len(),
            v@ == text@,
            forall|j: int| 0 <= j < i ==> '0' <= #[trigger] v@[j] <= '9',
        decreases v@.len() - i,
    {
        if !('0' <= v[i] && v[i] <= '9') {
            return false;
        }
        i += 1;
    }
    true
}

fn one_part(part: Part) -> (r: Entry)
    ensures
        r@ == seq![part@],
{
    let mut parts: Vec<Part> = Vec::new();
    parts.push(part);
    let r = Entry::new(parts);
    assert(r@ =~= seq![part@]);
    r
}

fn one_stroke(keys: Keys) -> (r: Strokes)
    ensures
        r@ == seq![keys],
{
    let mut strokes: Vec<Keys> = Vec::new();
    strokes.push(keys);
    assert(strokes@ =~= seq![keys]);
    Strokes(strokes)
}

/// The action that writes the word `text` for the chord `keys`.
pub fn make_text_action(text: String, keys: Keys) -> (r: Action)
    ensures
        r@ == simple_action(PartModel::Verbatim(text@), keys),
{
    make_simple_action(one_part(Part::Verbatim(text)), keys)
}

/// The action that runs `entry` for the chord `keys` alone.
pub fn make_simple_action(entry: Entry, keys: Keys) -> (r: Action)
    ensures
        r@ == (ActionModel {
            entry: entry@,
            strokes: seq![keys],
            removed_suffix: None,
            delete_before: 0,
        }),
{
    Action { entry, strokes: one_stroke(keys), removed_suffix: None, delete_before: 0 }
}

/// The action that spells the chord `keys` out.
pub fn make_fallback_action(keys: Keys) -> (r: Action)
    ensures
        r@ == fallback_action(keys),
{
    make_text_action(keys.format(), keys)
}

/// Splits the ending keys off a chord that has any.
pub fn split_suffix(keys: Keys) -> (r: Option<(Keys, Keys)>)
    ensures
        r == split_suffix_spec(keys),
{
    let suffix_keys = bit(Key::G) | bit(Key::S2) | bit(Key::D) | bit(Key::Z);
    let suffix = keys.0 & suffix_keys;
    if suffix == 0 {
        None
    } else {
        Some((Keys(keys.0 & (!suffix_keys & ALL_BITS)), Keys(suffix)))
    }
}

/// The events that `events` points to, as plain values.
pub open spec fn refs_view(events: Seq<&InputEvent>) -> Seq<EventModel> {
    Seq::new(events.len(), |i: int| (*events[i])@)
}

/// The chords of the events from the place `from` on, followed by `last`.
fn candidate(events: &Vec<&InputEvent>, from: usize, last: Keys) -> (r: Vec<Keys>)
    requires
        from <= events@.len(),
    ensures
        r@ == strokes_after(refs_view(events@), from as int, last),
{
    let ghost view = refs_view(events@);
    let mut out: Vec<Keys> = Vec::new();
    let mut i = from;
    assert(out@ + strokes_after(view, i as int, last) =~= strokes_after(view, from as int, last));
    while i < events.len()
        invariant
            from <= i <= events@.len(),
            view == refs_view(events@),
            strokes_after(view, from as int, last) == out@ + strokes_after(view, i as int, last),
        decreases events@.len() - i,
    {
        let ghost before = out@;
        let strokes = &events[i].strokes.0;
        assert(view[i as int].strokes == strokes@);
        let mut j: usize = 0;
        assert(out@ =~= before + strokes@.take(0));
        while j < strokes.len()
            invariant
                j <= strokes@.len(),
                out@ == before + strokes@.take(j as int),
            decreases strokes@.len() - j,
        {
            out.push(strokes[j]);
            assert(out@ =~= before + strokes@.take(j + 1));
            j += 1;
        }
        assert(strokes@.take(j as int) =~= strokes@);
        assert(before + (strokes@ + strokes_after(view, i + 1, last)) =~= out@ + strokes_after(
            view,
            i + 1,
            last,
        ));
        i += 1;
    }
    out.push(last);
    out
}

impl<D: Dict, W: WordList> Steno<D, W> {
    /// Looks for the most events that `looked_up` can join.
    fn search(&self, events: &Vec<&InputEvent>, looked_up: Keys) -> (r: Option<(usize, Entry)>)
        ensures
            match r {
                Some((skipped, entry)) => {
                    &&& longest_match(self.dict.entries(), refs_view(events@), 0, looked_up)
                        == Some(skipped as int)
                    &&& skipped <= events@.len()
                    &&& entry@ == self.dict.entries()[strokes_after(
                        refs_view(events@),
                        skipped as int,
                        looked_up,
                    )]
                },
                None => longest_match(self.dict.entries(), refs_view(events@), 0, looked_up)
                    is None,
            },
    {
        let mut skipped: usize = 0;
        loop
            invariant
                skipped <= events@.len(),
                longest_match(self.dict.entries(), refs_view(events@), 0, looked_up)
                    == longest_match(
                    self.dict.entries(),
                    refs_view(events@),
                    skipped as int,
                    looked_up,
                ),
            decreases events@.len() - skipped,
        {
            let strokes = candidate(events, skipped, looked_up);
            match self.dict.get(strokes.as_slice()) {
                Some(entry) => {
                    return Some((skipped, entry));
                },
                None => {},
            }
            if skipped == events.len() {
                return None;
            }
            skipped += 1;
        }
    }

    /// The action for `keys` where `looked_up` stands in its place in the
    /// lookup.
    fn match_action(
        &self,
        events: &Vec<&InputEvent>,
        keys: Keys,
        looked_up: Keys,
        removed_suffix: Option<Entry>,
    ) -> (r: Option<Action>)
        ensures
            match r {
                Some(action) => matched_action(
                    self.lexicon(),
                    refs_view(events@),
                    keys,
                    looked_up,
                    match removed_suffix {
                        Some(suffix) => Some(suffix@),
                        None => None,
                    },
                ) == Some(action@),
                None => matched_action(
                    self.lexicon(),
                    refs_view(events@),
                    keys,
                    looked_up,
                    match removed_suffix {
                        Some(suffix) => Some(suffix@),
                        None => None,
                    },
                ) is None,
            },
    {
        match self.search(events, looked_up) {
            Some((skipped, entry)) => {
                let strokes = Strokes(candidate(events, skipped, keys));
                Some(Action { entry, strokes, removed_suffix, delete_before: events.len() - skipped })
            },
            None => None,
        }
    }

    /// Decides what to do for the chord `keys`.
    pub fn find_action(&self, keys: Keys) -> (r: Action)
        ensures
            r@ == found_action(self.lexicon(), self@.backlog, keys),
    {
        reveal(found_action);
        if keys.contains(Key::NumberBar) {
            match make_numbers(keys) {
                Some(text) => {
                    let part = if is_all_digits(text.as_str()) {
                        Part::Glue(text)
                    } else {
                        Part::Verbatim(text)
                    };
                    return make_simple_action(one_part(part), keys);
                },
                None => {},
            }
        }
        let max_strokes = self.dict.max_strokes();
        let count = if max_strokes == 0 {
            0
        } else {
            max_strokes - 1
        };
        let events = self.backlog.last_n(count);
        proof {
            let tail = tail_of(self.backlog@, count as nat);
            assert(refs_view(events@) =~= events_view(tail));
            assert(events_view(tail) =~= joinable(self.lexicon(), self@.backlog));
        }
        match self.match_action(&events, keys, keys, None) {
            Some(action) => {
                return action;
            },
            None => {},
        }
        match split_suffix(keys) {
            Some((body, suffix)) => {
                let key = one_stroke(suffix);
                match self.dict.get(key.0.as_slice()) {
                    Some(ending) => {
                        match self.match_action(&events, keys, body, Some(ending)) {
                            Some(action) => action,
                            None => make_fallback_action(keys),
                        }
                    },
                    None => make_fallback_action(keys),
                }
            },
            None => make_fallback_action(keys),
        }
    }
}

} // verus!
