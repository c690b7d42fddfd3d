use vstd::prelude::*;

use crate::chars_or_bytes::CharsOrBytes;
use crate::dict::entry::PartModel;
use crate::dict::{Entry, Part, PloverCommand, Strokes};
use crate::keys::Keys;
use crate::steno::events_wf;
use crate::steno::find_action::Action;
use crate::steno::model::{
    backlog_pushed, events_view, finished, joined_as, joined_suffix, lemma_ran_part_backlog,
    lemma_took_back_many_total, lemma_took_back_total, ran_action, ran_keys, ran_part, ran_parts,
    ran_step, removed_previous, reran, took_back, took_back_many, total_strokes, undid_stroke,
    wrote, wrote_word, EventModel, InputEvent, InputState, Lexicon, Outcome, Previous, Run,
    BACKLOG_DEPTH,
};
use crate::steno::{Dict, Steno, WordList};
use crate::text::{capitalize, to_lowercase, trim};

verus! {

/// The plain values of a backlog follow it through a push and through the
/// loss of its first or last event.
pub proof fn lemma_events_view_push(events: Seq<InputEvent>, event: InputEvent)
    ensures
        events_view(events.push(event)) == events_view(events).push(event@),
        events.len() > 0 ==> events_view(events.drop_first()) == events_view(events).drop_first(),
        events.len() > 0 ==> events_view(events.drop_last()) == events_view(events).drop_last(),
        events.len() > 0 ==> events_view(events).last() == events.last()@,
{
    assert(events_view(events.push(event)) =~= events_view(events).push(event@));
    if events.len() > 0 {
        assert(events_view(events.drop_first()) =~= events_view(events).drop_first());
        assert(events_view(events.drop_last()) =~= events_view(events).drop_last());
    }
}

/// The chords of a backlog are those of its first event and of the rest.
pub proof fn lemma_total_strokes_drop_first(backlog: Seq<EventModel>)
    requires
        backlog.len() > 0,
    ensures
        total_strokes(backlog) == total_strokes(backlog.drop_first()) + backlog[0].strokes.len(),
    decreases backlog.len(),
{
    if backlog.len() == 1 {
        assert(backlog.drop_first() =~= Seq::<EventModel>::empty());
        assert(backlog.drop_last() =~= Seq::<EventModel>::empty());
    } else {
        lemma_total_strokes_drop_first(backlog.drop_last());
        assert(backlog.drop_last().drop_first() =~= backlog.drop_first().drop_last());
        assert(backlog.drop_first().last() == backlog.last());
        assert(backlog.drop_last()[0] == backlog[0]);
    }
}

/// The chords of a backlog after one event joined it are at most those
/// before and those of the event.
pub proof fn lemma_total_strokes_pushed(backlog: Seq<EventModel>, event: EventModel)
    ensures
        total_strokes(backlog_pushed(backlog, event)) <= total_strokes(backlog)
            + event.strokes.len(),
{
    assert(backlog.push(event).drop_last() =~= backlog);
    if backlog.len() >= BACKLOG_DEPTH {
        lemma_total_strokes_drop_first(backlog);
        assert(backlog.drop_first().push(event).drop_last() =~= backlog.drop_first());
    }
}

/// A backlog of events with text and chords stays one when such an event
/// joins it.
pub proof fn lemma_events_wf_pushed(backlog: Seq<EventModel>, event: EventModel)
    requires
        events_wf(backlog),
        event.strokes.len() >= 1,
        event.text.len() >= 1,
    ensures
        events_wf(backlog_pushed(backlog, event)),
{
    let after = backlog_pushed(backlog, event);
    assert forall|i: int| 0 <= i < after.len() implies (#[trigger] after[i]).strokes.len() >= 1
        && after[i].text.len() >= 1 by {
        if backlog.len() >= BACKLOG_DEPTH {
            if i < after.len() - 1 {
                assert(after[i] == backlog[i + 1]);
            }
        } else {
            if i < after.len() - 1 {
                assert(after[i] == backlog[i]);
            }
        }
    }
}

/// Running the parts of `b` from the place `from` on comes to the same as
/// running those of `a` and `b` together from that far behind the end of
/// `a`.
pub proof fn lemma_ran_parts_shift(
    lex: Lexicon,
    run: Run,
    a: Seq<PartModel>,
    b: Seq<PartModel>,
    from: int,
)
    requires
        0 <= from,
    ensures
        ran_parts(lex, run, a + b, a.len() + from) == ran_parts(lex, run, b, from),
    decreases b.len() - from,
{
    if from < b.len() {
        assert((a + b)[a.len() + from] == b[from]);
        let (after, outcome) = ran_step(lex, run, b[from]);
        lemma_ran_parts_shift(lex, after, a, b, from + 1);
    }
}

/// Running the parts of `a` and `b` together is running those of `a` and,
/// if that came to its end, those of `b`.
pub proof fn lemma_ran_parts_concat(
    lex: Lexicon,
    run: Run,
    a: Seq<PartModel>,
    b: Seq<PartModel>,
    from: int,
)
    requires
        0 <= from <= a.len(),
    ensures
        ran_parts(lex, run, a + b, from) == (if ran_parts(lex, run, a, from).1 == Outcome::Done {
            ran_parts(lex, ran_parts(lex, run, a, from).0, b, 0)
        } else {
            ran_parts(lex, run, a, from)
        }),
    decreases a.len() - from,
{
    if from < a.len() {
        assert((a + b)[from] == a[from]);
        let (after, outcome) = ran_step(lex, run, a[from]);
        lemma_ran_parts_concat(lex, after, a, b, from + 1);
    } else {
        lemma_ran_parts_shift(lex, run, a, b, 0);
    }
}

impl<D: Dict, W: WordList> Steno<D, W> {
    /// Writes `text`.
    pub(crate) fn append(&mut self, text: &str)
        ensures
            final(self)@ == wrote(old(self)@, text@),
            final(self).same_setup(old(self)),
            final(self).backlog == old(self).backlog,
    {
        self.output_in_progress.append(text);
        self.backlog_entry_in_progress.append(text);
    }

    /// Writes `text`, with a capital first if `caps` says so.
    pub(crate) fn append_capsed(&mut self, text: &str, caps: bool)
        ensures
            final(self)@ == wrote(
                old(self)@,
                if caps {
                    crate::text::capitalized(text@)
                } else {
                    text@
                },
            ),
            final(self).same_setup(old(self)),
            final(self).backlog == old(self).backlog,
    {
        if caps {
            let capsed = capitalize(text);
            self.append(capsed.as_str());
        } else {
            self.append(text);
        }
    }

    /// Writes the word `text`.
    pub(crate) fn run_verbatim(&mut self, text: &str)
        ensures
            final(self)@ == wrote_word(old(self)@, text@),
            final(self).same_setup(old(self)),
            final(self).backlog == old(self).backlog,
    {
        reveal(wrote_word);
        let caps = self.state.caps;
        let carry = self.state.carry_to_next;
        if self.state.space {
            proof {
                reveal_strlit(" ");
                assert(" "@ =~= seq![' ']);
            }
            self.append(" ");
        }
        self.append_capsed(text, caps);
        self.state.glue = false;
        if carry {
            self.state.carry_to_next = false;
        } else {
            self.state.caps = false;
            self.state.space = true;
        }
    }

    /// Takes the newest event back; `None` where that cannot be done.
    pub(crate) fn delete_full_entry(&mut self) -> (r: Option<Option<InputEvent>>)
        requires
            old(self).wf(),
        ensures
            final(self).wf(),
            final(self).same_setup(old(self)),
            r is Some == took_back(old(self)@) is Some,
            r matches Some(event) ==> took_back(old(self)@) == Some(
                (
                    final(self)@,
                    match event {
                        Some(event) => Some(event@),
                        None => None,
                    },
                ),
            ),
    {
        reveal(took_back);
        let ghost before = self.backlog@;
        proof {
            if before.len() > 0 {
                lemma_events_view_push(before, before.last());
            }
        }
        match self.backlog.pop_back() {
            None => {
                if !self.output_in_progress.types_nothing() {
                    None
                } else if self.output_in_progress.delete_words(1) {
                    Some(None)
                } else {
                    None
                }
            },
            Some(entry) => {
                self.state = entry.state_before;
                let amount = CharsOrBytes::for_str(entry.text.as_str());
                proof {
                    let rest = self.backlog@;
                    if rest.len() > 0 {
                        lemma_events_view_push(rest, rest.last());
                    }
                    assert forall|i: int| 0 <= i < events_view(rest).len() implies (
                    #[trigger] events_view(rest)[i]).strokes.len() >= 1 && events_view(
                        rest,
                    )[i].text.len() >= 1 by {
                        assert(events_view(rest)[i] == events_view(before)[i]);
                    }
                }
                if !self.output_in_progress.delete(amount) {
                    return None;
                }
                if entry.replaced_previous {
                    match self.backlog.back() {
                        Some(previous) => {
                            self.output_in_progress.append(previous.text.as_str());
                        },
                        None => {},
                    }
                }
                Some(Some(entry))
            },
        }
    }

    /// Takes the newest `count` events back; `false` where that cannot be
    /// done.
    fn take_back(&mut self, count: usize) -> (ok: bool)
        requires
            old(self).wf(),
        ensures
            final(self).wf(),
            final(self).same_setup(old(self)),
            ok == took_back_many(old(self)@, count as nat) is Some,
            ok ==> final(self)@ == took_back_many(old(self)@, count as nat).unwrap(),
    {
        let mut k: usize = 0;
        while k < count
            invariant
                self.wf(),
                self.same_setup(old(self)),
                k <= count,
                took_back_many(old(self)@, count as nat) == took_back_many(
                    self@,
                    (count - k) as nat,
                ),
            decreases count - k,
        {
            if self.delete_full_entry().is_none() {
                return false;
            }
            k += 1;
        }
        true
    }

    /// Takes the text that an ending joins off the output; `None` where
    /// that cannot be done.
    pub(crate) fn remove_previous(&mut self) -> (r: Option<Option<(String, bool)>>)
        ensures
            final(self).same_setup(old(self)),
            final(self).backlog == old(self).backlog,
            r is Some == removed_previous(old(self)@) is Some,
            r matches Some(previous) ==> removed_previous(old(self)@) == Some(
                (
                    final(self)@,
                    match previous {
                        Some((text, from_backlog)) => Some(Previous { text: text@, from_backlog }),
                        None => None,
                    },
                ),
            ),
    {
        reveal(removed_previous);
        proof {
            if self.backlog@.len() > 0 {
                lemma_events_view_push(self.backlog@, self.backlog@.last());
            }
        }
        if self.backlog_entry_in_progress.as_str().unicode_len() > 0 {
            let amount = CharsOrBytes::for_str(self.backlog_entry_in_progress.as_str());
            if !self.output_in_progress.delete(amount) {
                return None;
            }
            let mut text = String::new();
            core::mem::swap(&mut self.backlog_entry_in_progress, &mut text);
            Some(Some((text, false)))
        } else {
            match self.backlog.back() {
                Some(previous) => {
                    let amount = CharsOrBytes::for_str(previous.text.as_str());
                    let text = previous.text.clone();
                    if !self.output_in_progress.delete(amount) {
                        return None;
                    }
                    Some(Some((text, true)))
                },
                None => Some(None),
            }
        }
    }

    /// Lets the ending `suffix` join `previous`: the rules of spelling are
    /// asked unless the two simply put together are a known word.
    fn join_suffix(&mut self, previous: &str, suffix: &str)
        requires
            old(self).orthography.wf(),
        ensures
            final(self)@ == joined_suffix(old(self).lexicon(), old(self)@, previous@, suffix@),
            final(self).same_setup(old(self)),
            final(self).backlog == old(self).backlog,
    {
        reveal(joined_suffix);
        let mut plain = String::from_str(previous);
        plain.append(suffix);
        let lowered = to_lowercase(plain.as_str());
        let word = trim(lowered.as_str());
        let spelling = if self.word_list.contains(word.as_str()) {
            None
        } else {
            self.orthography.apply(previous, suffix)
        };
        self.write_joined(previous, suffix, spelling);
    }

    /// Writes what the ending `suffix` and the text `previous` before it
    /// have become: the spelling `spelling` as a word where there is one,
    /// else `previous` as a word and `suffix` right after it.
    pub fn write_joined(&mut self, previous: &str, suffix: &str, spelling: Option<String>)
        ensures
            final(self)@ == joined_as(
                old(self)@,
                previous@,
                suffix@,
                match spelling {
                    Some(combined) => Some(combined@),
                    None => None,
                },
            ),
            final(self).same_setup(old(self)),
            final(self).same_events(old(self)),
    {
        match spelling {
            Some(combined) => {
                self.run_verbatim(combined.as_str());
            },
            None => {
                self.run_verbatim(previous);
                self.append(suffix);
            },
        }
    }

    /// Runs one part that is no backspace and no quit; `false` where that
    /// cannot be done.
    pub(crate) fn run_part(&mut self, part: &Part, replaced_previous: &mut bool) -> (ok: bool)
        requires
            old(self).wf(),
        ensures
            final(self).wf(),
            final(self).same_setup(old(self)),
            ok == ran_part(
                old(self).lexicon(),
                Run { m: old(self)@, replaced_previous: *old(replaced_previous) },
                part@,
            ) is Some,
            ok ==> ran_part(
                old(self).lexicon(),
                Run { m: old(self)@, replaced_previous: *old(replaced_previous) },
                part@,
            ) == Some(Run { m: final(self)@, replaced_previous: *final(replaced_previous) }),
    {
        reveal(ran_part);
        match part {
            Part::Verbatim(text) => {
                self.run_verbatim(text.as_str());
                true
            },
            Part::Suffix(suffix) => {
                match self.remove_previous() {
                    None => false,
                    Some(previous) => {
                        self.state.space = false;
                        match previous {
                            Some((text, from_backlog)) => {
                                if from_backlog {
                                    *replaced_previous = true;
                                }
                                self.join_suffix(text.as_str(), suffix.as_str());
                            },
                            None => {
                                self.run_verbatim(suffix.as_str());
                            },
                        }
                        true
                    },
                }
            },
            Part::Glue(glued) => {
                if self.state.glue {
                    self.append(glued.as_str());
                } else {
                    self.run_verbatim(glued.as_str());
                }
                self.state.glue = true;
                true
            },
            Part::SpecialPunct(punct) => {
                self.append(punct.as_str());
                self.state.space = true;
                self.state.caps = punct.is_sentence_end();
                true
            },
            Part::SetCaps(set) => {
                self.state.caps = *set;
                true
            },
            Part::SetSpace(set) => {
                self.state.space = *set;
                true
            },
            Part::CarryToNext => {
                self.state.carry_to_next = true;
                true
            },
            Part::PloverCommand(command) => {
                match command {
                    PloverCommand::Reset => {
                        self.state = InputState::new();
                        self.backlog.clear();
                        self.backlog_entry_in_progress = String::new();
                        self.output_in_progress.clear();
                        assert(events_view(self.backlog@) =~= Seq::<EventModel>::empty());
                    },
                    _ => {},
                }
                true
            },
        }
    }

    /// Leaves what the action wrote, if anything, as an event of the
    /// backlog.
    fn finish(&mut self, strokes: Strokes, replaced_previous: bool, state_before: InputState)
        requires
            old(self).wf(),
            strokes@.len() >= 1,
        ensures
            final(self).wf(),
            final(self).same_setup(old(self)),
            final(self)@ == finished(
                Run { m: old(self)@, replaced_previous },
                strokes@,
                state_before,
            ),
            total_strokes(final(self)@.backlog) <= total_strokes(old(self)@.backlog)
                + strokes@.len(),
    {
        reveal(finished);
        if self.backlog_entry_in_progress.as_str().unicode_len() != 0 {
            let mut text = String::new();
            core::mem::swap(&mut self.backlog_entry_in_progress, &mut text);
            let event = InputEvent { strokes, replaced_previous, text, state_before };
            proof {
                let before = self.backlog@;
                lemma_events_view_push(before, event);
                lemma_total_strokes_pushed(events_view(before), event@);
                lemma_events_wf_pushed(events_view(before), event@);
                if before.len() > 0 {
                    lemma_events_view_push(before.drop_first(), event);
                }
                self.backlog.lemma_within_limit();
            }
            self.backlog.push(event);
        }
    }

    /// Runs one part.
    pub(crate) fn run_step(&mut self, part: &Part, replaced_previous: &mut bool) -> (r: Outcome)
        requires
            old(self).wf(),
        ensures
            final(self).wf(),
            final(self).same_setup(old(self)),
            r == ran_step(
                old(self).lexicon(),
                Run { m: old(self)@, replaced_previous: *old(replaced_previous) },
                part@,
            ).1,
            r != Outcome::Fault ==> ran_step(
                old(self).lexicon(),
                Run { m: old(self)@, replaced_previous: *old(replaced_previous) },
                part@,
            ).0 == (Run { m: final(self)@, replaced_previous: *final(replaced_previous) }),
            r == Outcome::Done ==> total_strokes(final(self)@.backlog) <= total_strokes(
                old(self)@.backlog,
            ),
        decreases total_strokes(old(self)@.backlog), 1nat,
    {
        match part {
            Part::PloverCommand(PloverCommand::Quit) => Outcome::Quit,
            Part::PloverCommand(PloverCommand::Backspace) => {
                if self.backlog_entry_in_progress.as_str().unicode_len() != 0 {
                    return Outcome::Fault;
                }
                self.undo_stroke()
            },
            _ => {
                proof {
                    lemma_ran_part_backlog(
                        self.lexicon(),
                        Run { m: self@, replaced_previous: *replaced_previous },
                        part@,
                    );
                }
                if self.run_part(part, replaced_previous) {
                    Outcome::Done
                } else {
                    Outcome::Fault
                }
            },
        }
    }

    /// Runs the chords of `strokes` but the last, one after the other.
    fn redo(&mut self, strokes: &Vec<Keys>) -> (r: Outcome)
        requires
            old(self).wf(),
            strokes@.len() >= 1,
        ensures
            final(self).wf(),
            final(self).same_setup(old(self)),
            r == reran(old(self).lexicon(), old(self)@, strokes@.drop_last(), 0).1,
            r != Outcome::Fault ==> final(self)@ == reran(
                old(self).lexicon(),
                old(self)@,
                strokes@.drop_last(),
                0,
            ).0,
            r == Outcome::Done ==> total_strokes(final(self)@.backlog) + 1 <= total_strokes(
                old(self)@.backlog,
            ) + strokes@.len(),
        decreases total_strokes(old(self)@.backlog) + strokes@.len() - 1, 0nat,
    {
        let ghost lex = self.lexicon();
        let ghost redo = strokes@.drop_last();
        let n = strokes.len() - 1;
        let mut j: usize = 0;
        while j < n
            invariant
                self.wf(),
                self.lexicon() == lex,
                lex == old(self).lexicon(),
                self.same_setup(old(self)),
                n == redo.len(),
                n + 1 == strokes@.len(),
                redo == strokes@.drop_last(),
                j <= n,
                reran(lex, old(self)@, redo, 0) == reran(lex, self@, redo, j as int),
                total_strokes(self@.backlog) <= total_strokes(old(self)@.backlog) + j,
            decreases n - j,
        {
            assert(redo[j as int] == strokes@[j as int]);
            let outcome = self.run_chord(strokes[j]);
            if outcome != Outcome::Done {
                return outcome;
            }
            j += 1;
        }
        Outcome::Done
    }

    /// Takes the newest event back and runs its chords but the last
    /// again.
    pub(crate) fn undo_stroke(&mut self) -> (r: Outcome)
        requires
            old(self).wf(),
        ensures
            final(self).wf(),
            final(self).same_setup(old(self)),
            r == undid_stroke(old(self).lexicon(), old(self)@).1,
            r != Outcome::Fault ==> final(self)@ == undid_stroke(old(self).lexicon(), old(self)@).0,
            r == Outcome::Done ==> total_strokes(final(self)@.backlog) <= total_strokes(
                old(self)@.backlog,
            ),
        decreases total_strokes(old(self)@.backlog), 0nat,
    {
        proof {
            lemma_took_back_total(self@);
        }
        match self.delete_full_entry() {
            None => Outcome::Fault,
            Some(None) => Outcome::Done,
            Some(Some(entry)) => {
                if entry.strokes.0.len() == 0 {
                    Outcome::Fault
                } else {
                    self.redo(&entry.strokes.0)
                }
            },
        }
    }

    /// Runs the parts of `entry`.
    fn run_entry(&mut self, entry: &Entry, replaced_previous: &mut bool) -> (r: Outcome)
        requires
            old(self).wf(),
        ensures
            final(self).wf(),
            final(self).same_setup(old(self)),
            r == ran_parts(
                old(self).lexicon(),
                Run { m: old(self)@, replaced_previous: *old(replaced_previous) },
                entry@,
                0,
            ).1,
            r != Outcome::Fault ==> ran_parts(
                old(self).lexicon(),
                Run { m: old(self)@, replaced_previous: *old(replaced_previous) },
                entry@,
                0,
            ).0 == (Run { m: final(self)@, replaced_previous: *final(replaced_previous) }),
            r == Outcome::Done ==> total_strokes(final(self)@.backlog) <= total_strokes(
                old(self)@.backlog,
            ),
        decreases total_strokes(old(self)@.backlog), 2nat,
    {
        let ghost lex = self.lexicon();
        let ghost parts = entry@;
        let ghost start = Run { m: self@, replaced_previous: *replaced_previous };
        let count = entry.len();
        let mut i: usize = 0;
        while i < count
            invariant
                self.wf(),
                self.lexicon() == lex,
                lex == old(self).lexicon(),
                self.same_setup(old(self)),
                start == (Run { m: old(self)@, replaced_previous: *old(replaced_previous) }),
                parts == entry@,
                count == parts.len(),
                i <= count,
                ran_parts(lex, start, parts, 0) == ran_parts(
                    lex,
                    Run { m: self@, replaced_previous: *replaced_previous },
                    parts,
                    i as int,
                ),
                total_strokes(self@.backlog) <= total_strokes(start.m.backlog),
            decreases count - i,
        {
            let outcome = self.run_step(entry.part(i), replaced_previous);
            if outcome != Outcome::Done {
                return outcome;
            }
            i += 1;
        }
        Outcome::Done
    }

    /// Runs the parts of `action`: those of its entry, then those of the
    /// ending that was split off.
    fn run_parts(&mut self, action: &Action, replaced_previous: &mut bool) -> (r: Outcome)
        requires
            old(self).wf(),
        ensures
            final(self).wf(),
            final(self).same_setup(old(self)),
            r == ran_parts(
                old(self).lexicon(),
                Run { m: old(self)@, replaced_previous: *old(replaced_previous) },
                action@.parts(),
                0,
            ).1,
            r != Outcome::Fault ==> ran_parts(
                old(self).lexicon(),
                Run { m: old(self)@, replaced_previous: *old(replaced_previous) },
                action@.parts(),
                0,
            ).0 == (Run { m: final(self)@, replaced_previous: *final(replaced_previous) }),
            r == Outcome::Done ==> total_strokes(final(self)@.backlog) <= total_strokes(
                old(self)@.backlog,
            ),
        decreases total_strokes(old(self)@.backlog), 3nat,
    {
        let ghost lex = self.lexicon();
        let ghost start = Run { m: self@, replaced_previous: *replaced_previous };
        match &action.removed_suffix {
            None => self.run_entry(&action.entry, replaced_previous),
            Some(suffix) => {
                proof {
                    lemma_ran_parts_concat(lex, start, action.entry@, suffix@, 0);
                }
                let outcome = self.run_entry(&action.entry, replaced_previous);
                if outcome != Outcome::Done {
                    return outcome;
                }
                self.run_entry(suffix, replaced_previous)
            },
        }
    }

    /// Runs the action `action`.
    pub(crate) fn run_action(&mut self, action: Action) -> (r: Outcome)
        requires
            old(self).wf(),
            action@.strokes.len() >= 1,
        ensures
            final(self).wf(),
            final(self).same_setup(old(self)),
            r == ran_action(old(self).lexicon(), old(self)@, action@).1,
            r != Outcome::Fault ==> final(self)@ == ran_action(
                old(self).lexicon(),
                old(self)@,
                action@,
            ).0,
            r == Outcome::Done ==> took_back_many(old(self)@, action@.delete_before) is Some
                && total_strokes(final(self)@.backlog) <= total_strokes(
                took_back_many(old(self)@, action@.delete_before).unwrap().backlog,
            ) + action@.strokes.len(),
        decreases total_strokes(old(self)@.backlog), 4nat,
    {
        if self.backlog_entry_in_progress.as_str().unicode_len() != 0 {
            return Outcome::Fault;
        }
        proof {
            lemma_took_back_many_total(self@, action@.delete_before);
        }
        if !self.take_back(action.delete_before) {
            return Outcome::Fault;
        }
        let state_before = self.state;
        let mut replaced_previous = false;
        let outcome = self.run_parts(&action, &mut replaced_previous);
        if outcome != Outcome::Done {
            return outcome;
        }
        self.finish(action.strokes, replaced_previous, state_before);
        Outcome::Done
    }

    /// Runs the chord `keys`.
    pub(crate) fn run_chord(&mut self, keys: Keys) -> (r: Outcome)
        requires
            old(self).wf(),
        ensures
            final(self).wf(),
            final(self).same_setup(old(self)),
            final(self).lexicon() == old(self).lexicon(),
            r == ran_keys(old(self).lexicon(), old(self)@, keys).1,
            r != Outcome::Fault ==> final(self)@ == ran_keys(old(self).lexicon(), old(self)@, keys).0,
            r == Outcome::Done ==> total_strokes(final(self)@.backlog) <= total_strokes(
                old(self)@.backlog,
            ) + 1,
        decreases total_strokes(old(self)@.backlog), 5nat,
    {
        let action = self.find_action(keys);
        proof {
            crate::steno::measure::lemma_found_action_strokes(self.lexicon(), self@, keys);
        }
        self.run_action(action)
    }
}

} // verus!
