use vstd::prelude::*;

use crate::bounded_queue::{tail_of, BoundedQueue};
use crate::dict::entry::{PartModel, PloverCommand};
use crate::dict::Strokes;
use crate::keys::format::formatted;
use crate::keys::{Key, Keys, ALL_BITS};
use crate::steno::orthography::orthography;
use crate::steno::output::{appended, no_output, text_deleted, words_deleted, OutputModel};
use crate::text::{capitalized, lowered, trimmed};

verus! {

/// How the next text is to be written.
#[derive(Debug, Clone, Copy, PartialEq, Eq, Structural)]
pub struct InputState {
    /// The next word begins with a capital.
    pub caps: bool,
    /// The next word follows a space.
    pub space: bool,
    /// The next word leaves `caps` and `space` as they are.
    pub carry_to_next: bool,
    /// Glued text was written last.
    pub glue: bool,
}

impl InputState {
    /// The state in which writing begins: a capital, no space.
    pub open spec fn initial() -> InputState {
        InputState { caps: true, space: false, carry_to_next: false, glue: false }
    }

    /// The state in which writing begins.
    pub fn new() -> (r: InputState)
        ensures
            r == InputState::initial(),
    {
        InputState { caps: true, space: false, carry_to_next: false, glue: false }
    }
}

/// What one action wrote, kept so that it can be taken back.
#[derive(Debug)]
pub struct InputEvent {
    /// The chords that the action stands for.
    pub strokes: Strokes,
    /// Whether the action took the text of the event before it off the
    /// output and wrote it anew as part of its own.
    pub replaced_previous: bool,
    /// The text that the action wrote.
    pub text: String,
    /// The state before the action.
    pub state_before: InputState,
}

/// What an `InputEvent` holds, as plain values.
pub struct EventModel {
    pub strokes: Seq<Keys>,
    pub replaced_previous: bool,
    pub text: Seq<char>,
    pub state_before: InputState,
}

impl View for InputEvent {
    type V = EventModel;

    open spec fn view(&self) -> EventModel {
        EventModel {
            strokes: self.strokes@,
            replaced_previous: self.replaced_previous,
            text: self.text@,
            state_before: self.state_before,
        }
    }
}

/// The events of a backlog as plain values.
pub open spec fn events_view(events: Seq<InputEvent>) -> Seq<EventModel> {
    Seq::new(events.len(), |i: int| events[i]@)
}

/// What the engine does for a chord.
pub struct ActionModel {
    /// The parts to run.
    pub entry: Seq<PartModel>,
    /// The chords that the action stands for: those of the events that it
    /// takes back, and the new one.
    pub strokes: Seq<Keys>,
    /// The parts of the ending that was split off the chord, to run after
    /// `entry`.
    pub removed_suffix: Option<Seq<PartModel>>,
    /// How many of the newest events are taken back first.
    pub delete_before: nat,
}

impl ActionModel {
    /// All the parts to run, in order.
    pub open spec fn parts(self) -> Seq<PartModel> {
        match self.removed_suffix {
            Some(suffix) => self.entry + suffix,
            None => self.entry,
        }
    }
}

/// What the engine looks things up in.
pub struct Lexicon {
    pub dict: Map<Seq<Keys>, Seq<PartModel>>,
    pub max_strokes: nat,
    pub words: Set<Seq<char>>,
}

/// The state of the engine, as plain values.
pub struct EngineModel {
    pub state: InputState,
    /// The events that can still be taken back, oldest first.
    pub backlog: Seq<EventModel>,
    /// The edit that has gathered since the last flush.
    pub output: OutputModel,
    /// The text that the running action has written so far.
    pub in_progress: Seq<char>,
}

/// How running a chord ended.
#[derive(Debug, Clone, Copy, PartialEq, Eq, Structural)]
pub enum Outcome {
    /// The chord was run to its end.
    Done,
    /// The chord asked to quit; the rest of it was not run.
    Quit,
    /// The engine was asked for something that it cannot do: a backspace in
    /// the middle of a text, the deletion of a word after text, a count
    /// that leaves `usize`.
    Fault,
}

/// The most events that the backlog holds.
pub const BACKLOG_DEPTH: usize = 1000;

/// The state of a new engine.
pub open spec fn initial_engine() -> EngineModel {
    EngineModel {
        state: InputState::initial(),
        backlog: Seq::empty(),
        output: no_output(),
        in_progress: Seq::empty(),
    }
}

/// The number of chords that the events of `backlog` stand for together.
pub open spec fn total_strokes(backlog: Seq<EventModel>) -> nat
    decreases backlog.len(),
{
    if backlog.len() == 0 {
        0
    } else {
        total_strokes(backlog.drop_last()) + backlog.last().strokes.len()
    }
}

// Numbers

/// The digit that a key stands for under the number bar.
pub open spec fn digit_of(key: Key) -> Option<char> {
    match key {
        Key::S => Some('1'),
        Key::T => Some('2'),
        Key::P => Some('3'),
        Key::H => Some('4'),
        Key::A => Some('5'),
        Key::O => Some('0'),
        Key::F => Some('6'),
        Key::P2 => Some('7'),
        Key::L => Some('8'),
        Key::T2 => Some('9'),
        _ => None,
    }
}

/// The keys that stand for digits, in the order in which their digits are
/// written.
pub open spec fn digit_keys() -> Seq<Key> {
    seq![Key::S, Key::T, Key::P, Key::H, Key::A, Key::O, Key::F, Key::P2, Key::L, Key::T2]
}

/// The digits of the chord `keys`, from the place `from` of the digit keys
/// on.
pub open spec fn digits_from(keys: Keys, from: int) -> Seq<char>
    decreases digit_keys().len() - from,
{
    if from < 0 || from >= digit_keys().len() {
        Seq::empty()
    } else if keys.spec_contains(digit_keys()[from]) {
        seq![digit_of(digit_keys()[from]).unwrap()] + digits_from(keys, from + 1)
    } else {
        digits_from(keys, from + 1)
    }
}

/// The bits of all the keys that stand for digits.
pub open spec fn digit_bits() -> u32 {
    Key::S.mask() | Key::T.mask() | Key::P.mask() | Key::H.mask() | Key::A.mask() | Key::O.mask()
        | Key::F.mask() | Key::P2.mask() | Key::L.mask() | Key::T2.mask()
}

/// The chord of two keys.
pub open spec fn pair(a: Key, b: Key) -> Keys {
    Keys(a.mask() | b.mask())
}

/// A number and the keys that are still to be accounted for.
pub struct NumberModel {
    pub keys: Keys,
    pub text: Seq<char>,
}

/// `E` and `U` together turn the digits round.
pub open spec fn number_reversed(n: NumberModel) -> NumberModel {
    if n.keys.has_all(pair(Key::E, Key::U)) {
        NumberModel { keys: n.keys.without(pair(Key::E, Key::U)), text: n.text.reverse() }
    } else {
        n
    }
}

/// `D` and `Z` together make an amount of money; `D` alone writes the
/// digits twice and `Z` alone adds two zeros.
pub open spec fn number_scaled(n: NumberModel) -> NumberModel {
    if n.keys.has_all(pair(Key::D, Key::Z)) {
        NumberModel {
            keys: n.keys.without(pair(Key::D, Key::Z)),
            text: seq!['$'] + n.text + seq!['0', '0'],
        }
    } else {
        let doubled = if n.keys.has_all(Keys::spec_single(Key::D)) {
            NumberModel { keys: n.keys.without(Keys::spec_single(Key::D)), text: n.text + n.text }
        } else {
            n
        };
        if doubled.keys.has_all(Keys::spec_single(Key::Z)) {
            NumberModel {
                keys: doubled.keys.without(Keys::spec_single(Key::Z)),
                text: doubled.text + seq!['0', '0'],
            }
        } else {
            doubled
        }
    }
}

/// `K`, or `B` and `G` together, make a time of day.
pub open spec fn number_timed(n: NumberModel) -> NumberModel {
    if n.keys.has_all(Keys::spec_single(Key::K)) {
        NumberModel {
            keys: n.keys.without(Keys::spec_single(Key::K)),
            text: n.text + seq![':', '0', '0'],
        }
    } else if n.keys.has_all(pair(Key::B, Key::G)) {
        NumberModel {
            keys: n.keys.without(pair(Key::B, Key::G)),
            text: n.text + seq![':', '0', '0'],
        }
    } else {
        n
    }
}

/// The number that a chord with the number bar stands for; `None` where
/// the chord has no digit, or a key that says nothing of a number.
pub open spec fn number_text(keys: Keys) -> Option<Seq<char>> {
    let digits = digits_from(keys, 0);
    let rest = Keys(keys.0 & !Key::NumberBar.mask() & !digit_bits());
    if digits.len() == 0 {
        None
    } else {
        let n = number_timed(number_scaled(number_reversed(NumberModel { keys: rest, text: digits })));
        if n.keys.0 != 0 {
            None
        } else {
            Some(n.text)
        }
    }
}

/// Whether `text` is made of the digits 0 to 9 only.
pub open spec fn all_digits(text: Seq<char>) -> bool {
    forall|i: int| 0 <= i < text.len() ==> '0' <= #[trigger] text[i] <= '9'
}

// Finding the action

/// The action that writes one fixed text for one chord.
pub open spec fn simple_action(part: PartModel, keys: Keys) -> ActionModel {
    ActionModel { entry: seq![part], strokes: seq![keys], removed_suffix: None, delete_before: 0 }
}

/// The action for a chord that nothing else knows: the chord is spelled
/// out.
pub open spec fn fallback_action(keys: Keys) -> ActionModel {
    simple_action(PartModel::Verbatim(formatted(keys)), keys)
}

/// The bits of the keys that can stand for an ending.
pub open spec fn suffix_bits() -> u32 {
    Key::G.mask() | Key::S2.mask() | Key::D.mask() | Key::Z.mask()
}

/// A chord that holds ending keys, split into what is left without them
/// and the ending keys themselves.
pub open spec fn split_suffix_spec(keys: Keys) -> Option<(Keys, Keys)> {
    if keys.0 & suffix_bits() == 0 {
        None
    } else {
        Some((Keys(keys.0 & (!suffix_bits() & ALL_BITS)), Keys(keys.0 & suffix_bits())))
    }
}

/// The chords of the events of `events` from the place `from` on, followed
/// by the chord `last`.
pub open spec fn strokes_after(events: Seq<EventModel>, from: int, last: Keys) -> Seq<Keys>
    decreases events.len() - from,
{
    if from < 0 || from >= events.len() {
        seq![last]
    } else {
        events[from].strokes + strokes_after(events, from + 1, last)
    }
}

/// The least number, from `from` on, of the oldest events of `events` to
/// leave out so that the chords of the others, followed by `last`, are a
/// key of `dict`.
pub open spec fn longest_match(
    dict: Map<Seq<Keys>, Seq<PartModel>>,
    events: Seq<EventModel>,
    from: int,
    last: Keys,
) -> Option<int>
    decreases events.len() - from,
{
    if from < 0 || from > events.len() {
        None
    } else if dict.contains_key(strokes_after(events, from, last)) {
        Some(from)
    } else if from == events.len() {
        None
    } else {
        longest_match(dict, events, from + 1, last)
    }
}

/// The events that a chord can join: the newest of the backlog, one fewer
/// than the longest key has chords.
pub open spec fn joinable(lex: Lexicon, backlog: Seq<EventModel>) -> Seq<EventModel> {
    tail_of(
        backlog,
        if lex.max_strokes == 0 {
            0
        } else {
            (lex.max_strokes - 1) as nat
        },
    )
}

/// The action for the chord `keys` given what the dictionary knows, where
/// `looked_up` stands in the place of `keys` in the lookup.
pub open spec fn matched_action(
    lex: Lexicon,
    events: Seq<EventModel>,
    keys: Keys,
    looked_up: Keys,
    removed_suffix: Option<Seq<PartModel>>,
) -> Option<ActionModel> {
    match longest_match(lex.dict, events, 0, looked_up) {
        Some(skipped) => Some(
            ActionModel {
                entry: lex.dict[strokes_after(events, skipped, looked_up)],
                strokes: strokes_after(events, skipped, keys),
                removed_suffix,
                delete_before: (events.len() - skipped) as nat,
            },
        ),
        None => None,
    }
}

/// The action for the chord `keys`. A chord with the number bar that
/// stands for a number writes the number. Otherwise the chord joins as many
/// of the newest events as the dictionary has a key for, the more the
/// better; failing that, the same with the ending keys split off, where the
/// dictionary knows them as an ending; failing that, the chord is spelled
/// out.
#[verifier::opaque]
pub open spec fn found_action(lex: Lexicon, backlog: Seq<EventModel>, keys: Keys) -> ActionModel {
    if keys.spec_contains(Key::NumberBar) && number_text(keys) is Some {
        let text = number_text(keys).unwrap();
        if all_digits(text) {
            simple_action(PartModel::Glue(text), keys)
        } else {
            simple_action(PartModel::Verbatim(text), keys)
        }
    } else {
        let events = joinable(lex, backlog);
        match matched_action(lex, events, keys, keys, None) {
            Some(action) => action,
            None => match split_suffix_spec(keys) {
                Some((body, suffix)) => if lex.dict.contains_key(seq![suffix]) {
                    match matched_action(lex, events, keys, body, Some(lex.dict[seq![suffix]])) {
                        Some(action) => action,
                        None => fallback_action(keys),
                    }
                } else {
                    fallback_action(keys)
                },
                None => fallback_action(keys),
            },
        }
    }
}

// Running the action

/// The engine after it wrote `text`.
pub open spec fn wrote(m: EngineModel, text: Seq<char>) -> EngineModel {
    EngineModel { output: appended(m.output, text), in_progress: m.in_progress + text, ..m }
}

/// The engine after it wrote the word `text`: after a space and with a
/// capital where the state asks for them. Afterwards the state asks for a
/// space and no capital, unless it was told to carry over.
#[verifier::opaque]
pub open spec fn wrote_word(m: EngineModel, text: Seq<char>) -> EngineModel {
    let spaced = if m.state.space {
        wrote(m, seq![' '])
    } else {
        m
    };
    let written = wrote(
        spaced,
        if m.state.caps {
            capitalized(text)
        } else {
            text
        },
    );
    let state = if m.state.carry_to_next {
        InputState { glue: false, carry_to_next: false, ..m.state }
    } else {
        InputState { glue: false, caps: false, space: true, ..m.state }
    };
    EngineModel { state, ..written }
}

/// The engine after the newest event was taken back, with that event:
/// the state is the one before the event, the event's text is deleted,
/// and where the event had replaced the text of the one before it, that
/// text is written again. With no event left, one word is deleted instead.
/// `None` where the deletion cannot be made or a word is to be deleted
/// after text.
#[verifier::opaque]
pub open spec fn took_back(m: EngineModel) -> Option<(EngineModel, Option<EventModel>)> {
    if m.backlog.len() == 0 {
        match words_deleted(m.output, 1) {
            Some(output) => Some((EngineModel { output, ..m }, None)),
            None => None,
        }
    } else {
        let event = m.backlog.last();
        let backlog = m.backlog.drop_last();
        match text_deleted(m.output, event.text) {
            Some(output) => Some(
                (
                    EngineModel {
                        state: event.state_before,
                        backlog,
                        output: if event.replaced_previous && backlog.len() > 0 {
                            appended(output, backlog.last().text)
                        } else {
                            output
                        },
                        ..m
                    },
                    Some(event),
                ),
            ),
            None => None,
        }
    }
}

/// The engine after the newest `count` events were taken back.
pub open spec fn took_back_many(m: EngineModel, count: nat) -> Option<EngineModel>
    decreases count,
{
    if count == 0 {
        Some(m)
    } else {
        match took_back(m) {
            Some((after, _)) => took_back_many(after, (count - 1) as nat),
            None => None,
        }
    }
}

/// What an ending joins, and whether it came from the backlog.
pub struct Previous {
    pub text: Seq<char>,
    pub from_backlog: bool,
}

/// The engine after the text that an ending joins was taken off the
/// output, with that text: what the running action wrote so far, or else
/// the text of the newest event, which stays in the backlog.
#[verifier::opaque]
pub open spec fn removed_previous(m: EngineModel) -> Option<(EngineModel, Option<Previous>)> {
    if m.in_progress.len() > 0 {
        match text_deleted(m.output, m.in_progress) {
            Some(output) => Some(
                (
                    EngineModel { output, in_progress: Seq::empty(), ..m },
                    Some(Previous { text: m.in_progress, from_backlog: false }),
                ),
            ),
            None => None,
        }
    } else if m.backlog.len() > 0 {
        let text = m.backlog.last().text;
        match text_deleted(m.output, text) {
            Some(output) => Some(
                (EngineModel { output, ..m }, Some(Previous { text, from_backlog: true })),
            ),
            None => None,
        }
    } else {
        Some((m, None))
    }
}

/// The engine in the middle of an action.
pub struct Run {
    pub m: EngineModel,
    /// Whether the action has replaced the text of the newest event.
    pub replaced_previous: bool,
}

/// The engine after the ending `suffix` joined `previous`, where
/// `spelling` is what the two are to be spelled as, if anything: that
/// spelling is written as a word; with none, the text before is written as
/// a word, and the ending right after it.
pub open spec fn joined_as(
    m: EngineModel,
    previous: Seq<char>,
    suffix: Seq<char>,
    spelling: Option<Seq<char>>,
) -> EngineModel {
    match spelling {
        Some(combined) => wrote_word(m, combined),
        None => wrote(wrote_word(m, previous), suffix),
    }
}

/// The engine after the ending `suffix` joined `previous`: if the two
/// simply put together are not a known word and a rule of spelling fits,
/// the rule's spelling is written; otherwise the text before, and the
/// ending right after it.
#[verifier::opaque]
pub open spec fn joined_suffix(
    lex: Lexicon,
    m: EngineModel,
    previous: Seq<char>,
    suffix: Seq<char>,
) -> EngineModel {
    joined_as(
        m,
        previous,
        suffix,
        if lex.words.contains(trimmed(lowered(previous + suffix))) {
            None
        } else {
            orthography(previous, suffix)
        },
    )
}

/// The engine after one part that is no backspace and no quit; `None`
/// where a deletion cannot be made.
#[verifier::opaque]
pub open spec fn ran_part(lex: Lexicon, run: Run, part: PartModel) -> Option<Run> {
    let m = run.m;
    match part {
        PartModel::Verbatim(text) => Some(Run { m: wrote_word(m, text), ..run }),
        PartModel::Suffix(suffix) => match removed_previous(m) {
            None => None,
            Some((removed, previous)) => {
                let bare = EngineModel {
                    state: InputState { space: false, ..removed.state },
                    ..removed
                };
                match previous {
                    Some(previous) => Some(
                        Run {
                            m: joined_suffix(lex, bare, previous.text, suffix),
                            replaced_previous: run.replaced_previous || previous.from_backlog,
                        },
                    ),
                    None => Some(Run { m: wrote_word(bare, suffix), ..run }),
                }
            },
        },
        PartModel::Glue(text) => {
            let written = if m.state.glue {
                wrote(m, text)
            } else {
                wrote_word(m, text)
            };
            Some(
                Run {
                    m: EngineModel { state: InputState { glue: true, ..written.state }, ..written },
                    ..run
                },
            )
        },
        PartModel::SpecialPunct(punct) => {
            let written = wrote(m, seq![punct.mark()]);
            Some(
                Run {
                    m: EngineModel {
                        state: InputState {
                            space: true,
                            caps: punct.spec_is_sentence_end(),
                            ..written.state
                        },
                        ..written
                    },
                    ..run
                },
            )
        },
        PartModel::SetCaps(set) => Some(
            Run { m: EngineModel { state: InputState { caps: set, ..m.state }, ..m }, ..run },
        ),
        PartModel::SetSpace(set) => Some(
            Run { m: EngineModel { state: InputState { space: set, ..m.state }, ..m }, ..run },
        ),
        PartModel::CarryToNext => Some(
            Run {
                m: EngineModel { state: InputState { carry_to_next: true, ..m.state }, ..m },
                ..run
            },
        ),
        PartModel::PloverCommand(PloverCommand::Reset) => Some(
            Run { m: initial_engine(), ..run },
        ),
        PartModel::PloverCommand(_) => Some(run),
    }
}

/// The backlog after the event `event` joined it.
pub open spec fn backlog_pushed(backlog: Seq<EventModel>, event: EventModel) -> Seq<EventModel> {
    BoundedQueue::<EventModel>::pushed(backlog, BACKLOG_DEPTH as nat, event)
}

/// The engine at the end of an action: what the action wrote, if anything,
/// is an event of the backlog.
#[verifier::opaque]
pub open spec fn finished(run: Run, strokes: Seq<Keys>, state_before: InputState) -> EngineModel {
    if run.m.in_progress.len() == 0 {
        run.m
    } else {
        EngineModel {
            backlog: backlog_pushed(
                run.m.backlog,
                EventModel {
                    strokes,
                    replaced_previous: run.replaced_previous,
                    text: run.m.in_progress,
                    state_before,
                },
            ),
            in_progress: Seq::empty(),
            ..run.m
        }
    }
}

/// Taking events back never adds chords to the backlog.
pub proof fn lemma_took_back_total(m: EngineModel)
    ensures
        took_back(m) matches Some((after, event)) ==> {
            &&& total_strokes(after.backlog) + (match event {
                Some(event) => event.strokes.len(),
                None => 0,
            }) == total_strokes(m.backlog)
            &&& after.in_progress == m.in_progress
            &&& event is None <==> m.backlog.len() == 0
            &&& event matches Some(e) ==> e == m.backlog.last() && after.backlog
                == m.backlog.drop_last()
            &&& event is None ==> after.backlog == m.backlog
        },
{
    reveal(took_back);
}

/// Taking several events back never adds chords to the backlog, and
/// leaves the text in progress alone.
pub proof fn lemma_took_back_many_total(m: EngineModel, count: nat)
    ensures
        took_back_many(m, count) matches Some(after) ==> total_strokes(after.backlog)
            <= total_strokes(m.backlog) && after.in_progress == m.in_progress,
    decreases count,
{
    if count > 0 {
        lemma_took_back_total(m);
        match took_back(m) {
            Some((after, _)) => {
                lemma_took_back_many_total(after, (count - 1) as nat);
            },
            None => {},
        }
    }
}

/// No part but a backspace adds an event to the backlog or takes one
/// away, unless it is a reset, which takes all.
pub proof fn lemma_ran_part_backlog(lex: Lexicon, run: Run, part: PartModel)
    ensures
        ran_part(lex, run, part) matches Some(after) ==> after.m.backlog == run.m.backlog
            || after.m.backlog == Seq::<EventModel>::empty(),
{
    reveal(ran_part);
    reveal(removed_previous);
    reveal(joined_suffix);
    reveal(wrote_word);
}

/// The engine after the chord `keys`, and how that ended.
pub open spec fn ran_keys(lex: Lexicon, m: EngineModel, keys: Keys) -> (EngineModel, Outcome)
    decreases total_strokes(m.backlog), 4nat, 0nat,
{
    ran_action(lex, m, found_action(lex, m.backlog, keys))
}

/// The engine after the action `action`, and how that ended. The action
/// begins with no text in progress; it takes back the events that it
/// joins, runs its parts, and leaves what it wrote as one event.
pub open spec fn ran_action(lex: Lexicon, m: EngineModel, action: ActionModel) -> (
    EngineModel,
    Outcome,
)
    decreases total_strokes(m.backlog), 3nat, 0nat,
{
    if m.in_progress.len() != 0 {
        (m, Outcome::Fault)
    } else {
        match took_back_many(m, action.delete_before) {
            None => (m, Outcome::Fault),
            Some(start) => {
                proof {
                    lemma_took_back_many_total(m, action.delete_before);
                }
                let (run, outcome) = ran_parts(
                    lex,
                    Run { m: start, replaced_previous: false },
                    action.parts(),
                    0,
                );
                if outcome == Outcome::Done {
                    (finished(run, action.strokes, start.state), Outcome::Done)
                } else {
                    (run.m, outcome)
                }
            },
        }
    }
}

/// The engine after the parts of `parts` from the place `from` on, and how
/// that ended. No part adds chords to the backlog; the comparison that says
/// so always holds of a backlog whose events stand for chords, and is here
/// so that the definition is seen to come to an end.
pub open spec fn ran_parts(lex: Lexicon, run: Run, parts: Seq<PartModel>, from: int) -> (
    Run,
    Outcome,
)
    decreases total_strokes(run.m.backlog), 2nat, parts.len() - from,
{
    if from < 0 || from >= parts.len() {
        (run, Outcome::Done)
    } else {
        let (after, outcome) = ran_step(lex, run, parts[from]);
        if outcome != Outcome::Done {
            (after, outcome)
        } else if total_strokes(after.m.backlog) <= total_strokes(run.m.backlog) {
            ran_parts(lex, after, parts, from + 1)
        } else {
            (after, Outcome::Fault)
        }
    }
}

/// The engine after the part `part`, and how that ended. A quit ends the
/// action at once; a backspace needs that the action has written nothing
/// yet.
pub open spec fn ran_step(lex: Lexicon, run: Run, part: PartModel) -> (Run, Outcome)
    decreases total_strokes(run.m.backlog), 1nat, 0nat,
{
    match part {
        PartModel::PloverCommand(PloverCommand::Quit) => (run, Outcome::Quit),
        PartModel::PloverCommand(PloverCommand::Backspace) => {
            if run.m.in_progress.len() != 0 {
                (run, Outcome::Fault)
            } else {
                let (after, outcome) = undid_stroke(lex, run.m);
                (Run { m: after, ..run }, outcome)
            }
        },
        part => match ran_part(lex, run, part) {
            None => (run, Outcome::Fault),
            Some(after) => (after, Outcome::Done),
        },
    }
}

/// The engine after a backspace: the newest event is taken back, and its
/// chords but the last are run again as if they were new.
pub open spec fn undid_stroke(lex: Lexicon, m: EngineModel) -> (EngineModel, Outcome)
    decreases total_strokes(m.backlog), 0nat, 0nat,
{
    match took_back(m) {
        None => (m, Outcome::Fault),
        Some((after, None)) => (after, Outcome::Done),
        Some((after, Some(event))) => {
            if event.strokes.len() == 0 {
                (after, Outcome::Fault)
            } else {
                proof {
                    lemma_took_back_total(m);
                }
                reran(lex, after, event.strokes.drop_last(), 0)
            }
        },
    }
}

/// The engine after the chords of `strokes` from the place `from` on were
/// run one after the other, and how that ended. A chord adds at most one
/// chord to the backlog; the comparison that says so always holds of a
/// backlog whose events stand for chords, and is here so that the
/// definition is seen to come to an end.
pub open spec fn reran(lex: Lexicon, m: EngineModel, strokes: Seq<Keys>, from: int) -> (
    EngineModel,
    Outcome,
)
    decreases total_strokes(m.backlog) + (strokes.len() - from), 0nat, strokes.len() - from,
{
    if from < 0 || from >= strokes.len() {
        (m, Outcome::Done)
    } else {
        let (after, outcome) = ran_keys(lex, m, strokes[from]);
        if outcome != Outcome::Done {
            (after, outcome)
        } else if total_strokes(after.backlog) <= total_strokes(m.backlog) + 1 {
            reran(lex, after, strokes, from + 1)
        } else {
            (after, Outcome::Fault)
        }
    }
}

} // verus!
