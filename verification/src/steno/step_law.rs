use vstd::prelude::*;

use crate::dict::entry::{PartModel, PloverCommand};
use crate::keys::Keys;
use crate::steno::backlog_law::{
    lemma_sound_action, lemma_sound_keys, lemma_sound_took_back_many, lemma_sound_undid, sound,
};
use crate::steno::flush_law::{flushed, ran_all, Desk};
use crate::steno::measure::lemma_found_action_strokes;
use crate::steno::model::{
    backlog_pushed, finished, found_action, initial_engine, joined_suffix, lemma_ran_part_backlog,
    lemma_took_back_many_total, lemma_took_back_total, ran_action, ran_keys, ran_part, ran_parts,
    ran_step, removed_previous, reran, took_back, took_back_many, total_strokes, undid_stroke,
    wrote, wrote_word, ActionModel, EngineModel, EventModel, InputState, Lexicon, Outcome, Run,
    BACKLOG_DEPTH,
};
use crate::steno::orthography::orthography;
use crate::steno::output::{no_output, text_deleted};
use crate::steno::surface::{
    drop_end, ends_with, lemma_typed_appended, lemma_typed_deleted, typed,
};
use crate::steno::undo_law::{
    leaves_event, lemma_backspace_is_inverse, plain, spelling_writes, undo_action,
};
use crate::text::{capitalized, lowered, trimmed};

verus! {

/// The text of the events of `backlog` as it stands on the surface, without
/// the text of the newest event: an event that replaced the text of the one
/// before it stands in the place of that text.
pub open spec fn below(backlog: Seq<EventModel>) -> Seq<char>
    decreases backlog.len(),
{
    if backlog.len() == 0 {
        Seq::empty()
    } else {
        let older = backlog.drop_last();
        if backlog.last().replaced_previous && older.len() > 0 {
            below(older)
        } else if older.len() == 0 {
            Seq::empty()
        } else {
            below(older) + older.last().text
        }
    }
}

/// The text of the events of `backlog` as it stands on the surface.
pub open spec fn shown(backlog: Seq<EventModel>) -> Seq<char> {
    if backlog.len() == 0 {
        Seq::empty()
    } else {
        below(backlog) + backlog.last().text
    }
}

/// The text that an action in the middle of its run has on the surface,
/// the text of the backlog before it.
pub open spec fn run_text(run: Run) -> Seq<char> {
    (if run.replaced_previous {
        below(run.m.backlog)
    } else {
        shown(run.m.backlog)
    }) + run.m.in_progress
}

/// Whether the surface `surface` is in step with an action in the middle of
/// its run: once the edit that has gathered is made, the surface ends in
/// the text of the backlog and of the action.
pub open spec fn run_in_step(surface: Seq<char>, run: Run) -> bool {
    &&& run.replaced_previous ==> run.m.in_progress.len() > 0 || run.m.backlog.len() == 0
    &&& ends_with(typed(surface, run.m.output), run_text(run))
}

/// Whether the surface `surface` is in step with the engine: once the edit
/// that has gathered is made, the surface ends in the text of the backlog
/// and in what the running action wrote.
pub open spec fn in_step(surface: Seq<char>, m: EngineModel) -> bool {
    ends_with(typed(surface, m.output), shown(m.backlog) + m.in_progress)
}

proof fn lemma_ends_with_trans(a: Seq<char>, b: Seq<char>, c: Seq<char>)
    requires
        ends_with(a, b),
        ends_with(b, c),
    ensures
        ends_with(a, c),
{
    assert(a.skip(a.len() - c.len()) =~= a.skip(a.len() - b.len()).skip(b.len() - c.len()));
}

proof fn lemma_ends_with_added(a: Seq<char>, b: Seq<char>, tail: Seq<char>)
    requires
        ends_with(a, b),
    ensures
        ends_with(a + tail, b + tail),
{
    assert((a + tail).skip((a + tail).len() - (b + tail).len()) =~= a.skip(a.len() - b.len())
        + tail);
}

proof fn lemma_ends_with_dropped(a: Seq<char>, b: Seq<char>, tail: Seq<char>)
    requires
        ends_with(a, b + tail),
    ensures
        ends_with(drop_end(a, tail.len() as int), b),
{
    let whole = a.skip(a.len() - (b + tail).len());
    let cut = drop_end(a, tail.len() as int);
    assert(cut.skip(cut.len() - b.len()) =~= whole.take(b.len() as int));
    assert(whole.take(b.len() as int) =~= b);
}

/// A text that ends in two texts, one after the other, ends in the second.
pub proof fn lemma_ends_with_tail(a: Seq<char>, b: Seq<char>, tail: Seq<char>)
    requires
        ends_with(a, b + tail),
    ensures
        ends_with(a, tail),
{
    let whole = a.skip(a.len() - (b + tail).len());
    assert(a.skip(a.len() - tail.len()) =~= whole.skip(b.len() as int));
    assert(whole.skip(b.len() as int) =~= tail);
}

proof fn lemma_ends_with_empty(a: Seq<char>)
    ensures
        ends_with(a, Seq::<char>::empty()),
{
    assert(a.skip(a.len() as int) =~= Seq::<char>::empty());
}

proof fn lemma_shown_pushed(backlog: Seq<EventModel>, event: EventModel)
    ensures
        shown(backlog.push(event)) == (if event.replaced_previous {
            below(backlog)
        } else {
            shown(backlog)
        }) + event.text,
{
    let longer = backlog.push(event);
    assert(longer.drop_last() =~= backlog);
    assert(longer.last() == event);
    if backlog.len() == 0 {
        assert(below(longer) =~= Seq::<char>::empty());
    }
}

/// The text of a backlog that has lost its oldest event still stands at
/// the end of the text of the whole backlog.
proof fn lemma_shown_drop_first(backlog: Seq<EventModel>)
    requires
        backlog.len() >= 1,
    ensures
        ends_with(shown(backlog), shown(backlog.drop_first())),
        ends_with(below(backlog), below(backlog.drop_first())),
    decreases backlog.len(),
{
    let rest = backlog.drop_first();
    if backlog.len() == 1 {
        assert(rest =~= Seq::<EventModel>::empty());
        lemma_ends_with_empty(shown(backlog));
        lemma_ends_with_empty(below(backlog));
    } else {
        let older = backlog.drop_last();
        lemma_shown_drop_first(older);
        assert(rest.drop_last() =~= older.drop_first());
        assert(rest.last() == backlog.last());
        if backlog.last().replaced_previous {
            if rest.drop_last().len() > 0 {
                assert(below(rest) == below(older.drop_first()));
            } else {
                assert(below(rest) =~= Seq::<char>::empty());
                lemma_ends_with_empty(below(backlog));
            }
        } else {
            if rest.drop_last().len() > 0 {
                assert(older.drop_first().last() == older.last());
                lemma_ends_with_added(below(older), below(older.drop_first()), older.last().text);
            } else {
                assert(below(rest) =~= Seq::<char>::empty());
                lemma_ends_with_empty(below(backlog));
            }
        }
        lemma_ends_with_added(below(backlog), below(rest), backlog.last().text);
    }
}

proof fn lemma_step_wrote(surface: Seq<char>, run: Run, text: Seq<char>)
    requires
        run_in_step(surface, run),
    ensures
        run_in_step(surface, Run { m: wrote(run.m, text), ..run }),
        typed(surface, wrote(run.m, text).output) == typed(surface, run.m.output) + text,
{
    lemma_typed_appended(surface, run.m.output, text);
    lemma_ends_with_added(typed(surface, run.m.output), run_text(run), text);
    let after = Run { m: wrote(run.m, text), ..run };
    assert(run_text(after) =~= run_text(run) + text);
}

proof fn lemma_step_wrote_word(surface: Seq<char>, run: Run, text: Seq<char>)
    requires
        run_in_step(surface, run),
    ensures
        run_in_step(surface, Run { m: wrote_word(run.m, text), ..run }),
        wrote_word(run.m, text).in_progress.len() >= run.m.in_progress.len() + text.len(),
        wrote_word(run.m, text).backlog == run.m.backlog,
{
    reveal(wrote_word);
    let m = run.m;
    let word = if m.state.caps {
        capitalized(text)
    } else {
        text
    };
    if m.state.space {
        lemma_step_wrote(surface, run, seq![' ']);
        lemma_step_wrote(surface, Run { m: wrote(m, seq![' ']), ..run }, word);
    } else {
        lemma_step_wrote(surface, run, word);
    }
}

/// The step of an ending that joins the text `previous` once that text is
/// off the surface.
proof fn lemma_step_joined(
    lex: Lexicon,
    surface: Seq<char>,
    bare: EngineModel,
    replaced: bool,
    previous: Seq<char>,
    suffix: Seq<char>,
)
    requires
        spelling_writes(),
        previous.len() > 0,
        bare.in_progress.len() == 0,
        ends_with(
            typed(surface, bare.output),
            if replaced {
                below(bare.backlog)
            } else {
                shown(bare.backlog)
            },
        ),
    ensures
        run_in_step(
            surface,
            Run { m: joined_suffix(lex, bare, previous, suffix), replaced_previous: replaced },
        ),
        joined_suffix(lex, bare, previous, suffix).backlog == bare.backlog,
{
    reveal(joined_suffix);
    reveal(wrote_word);
    assert(bare.in_progress =~= Seq::<char>::empty());
    let base = if replaced {
        below(bare.backlog)
    } else {
        shown(bare.backlog)
    };
    let written = if !lex.words.contains(trimmed(lowered(previous + suffix))) && orthography(
        previous,
        suffix,
    ) is Some {
        let combined = orthography(previous, suffix).unwrap();
        assert(combined.len() > 0) by {
            if combined.len() == 0 {
                assert(combined =~= Seq::<char>::empty());
            }
        }
        combined
    } else {
        previous
    };
    let spaced = if bare.state.space {
        wrote(bare, seq![' '])
    } else {
        bare
    };
    let word = if bare.state.caps {
        capitalized(written)
    } else {
        written
    };
    lemma_typed_appended(surface, bare.output, seq![' ']);
    lemma_typed_appended(surface, spaced.output, word);
    let after_word = wrote_word(bare, written);
    let added = after_word.in_progress;
    assert(added.len() > 0);
    assert(typed(surface, after_word.output) =~= typed(surface, bare.output) + added);
    lemma_ends_with_added(typed(surface, bare.output), base, added);
    let after = joined_suffix(lex, bare, previous, suffix);
    if after != after_word {
        lemma_typed_appended(surface, after_word.output, suffix);
        lemma_ends_with_added(typed(surface, after_word.output), base + added, suffix);
        assert(base + added + suffix =~= base + (added + suffix));
    }
}

/// A part that is no backspace and no quit keeps the surface in step.
pub proof fn lemma_step_part(lex: Lexicon, surface: Seq<char>, run: Run, part: PartModel)
    requires
        spelling_writes(),
        sound(run.m.backlog),
        run_in_step(surface, run),
        ran_part(lex, run, part) is Some,
    ensures
        run_in_step(surface, ran_part(lex, run, part).unwrap()),
{
    reveal(ran_part);
    let m = run.m;
    match part {
        PartModel::Verbatim(text) => {
            lemma_step_wrote_word(surface, run, text);
        },
        PartModel::Suffix(suffix) => {
            reveal(removed_previous);
            let (removed, previous) = removed_previous(m).unwrap();
            let bare = EngineModel {
                state: InputState { space: false, ..removed.state },
                ..removed
            };
            let base = if run.replaced_previous {
                below(m.backlog)
            } else {
                shown(m.backlog)
            };
            if m.in_progress.len() > 0 {
                lemma_ends_with_tail(typed(surface, m.output), base, m.in_progress);
                lemma_typed_deleted(surface, m.output, m.in_progress);
                lemma_ends_with_dropped(typed(surface, m.output), base, m.in_progress);
                lemma_step_joined(
                    lex,
                    surface,
                    bare,
                    run.replaced_previous,
                    m.in_progress,
                    suffix,
                );
            } else if m.backlog.len() > 0 {
                let text = m.backlog.last().text;
                assert(m.in_progress =~= Seq::<char>::empty());
                assert(run_text(run) =~= below(m.backlog) + text);
                lemma_ends_with_tail(typed(surface, m.output), below(m.backlog), text);
                lemma_typed_deleted(surface, m.output, text);
                lemma_ends_with_dropped(typed(surface, m.output), below(m.backlog), text);
                lemma_step_joined(lex, surface, bare, true, text, suffix);
            } else {
                let cleared = Run { m: bare, ..run };
                assert(run_text(cleared) == run_text(run));
                lemma_step_wrote_word(surface, cleared, suffix);
            }
        },
        PartModel::Glue(text) => {
            if m.state.glue {
                lemma_step_wrote(surface, run, text);
            } else {
                lemma_step_wrote_word(surface, run, text);
                reveal(wrote_word);
            }
        },
        PartModel::SpecialPunct(punct) => {
            lemma_step_wrote(surface, run, seq![punct.mark()]);
        },
        PartModel::PloverCommand(PloverCommand::Reset) => {
            let after = Run { m: initial_engine(), ..run };
            assert(run_text(after) =~= Seq::<char>::empty());
            lemma_ends_with_empty(typed(surface, no_output()));
        },
        _ => {},
    }
}

/// Taking the newest event back keeps the surface in step.
pub proof fn lemma_step_took_back(surface: Seq<char>, m: EngineModel)
    requires
        in_step(surface, m),
        m.in_progress.len() == 0,
        took_back(m) is Some,
    ensures
        in_step(surface, took_back(m).unwrap().0),
        took_back(m).unwrap().0.in_progress.len() == 0,
{
    reveal(took_back);
    assert(m.in_progress =~= Seq::<char>::empty());
    assert(shown(m.backlog) + m.in_progress =~= shown(m.backlog));
    let after = took_back(m).unwrap().0;
    if m.backlog.len() == 0 {
        assert(typed(surface, after.output) == typed(surface, m.output));
    } else {
        let event = m.backlog.last();
        let older = m.backlog.drop_last();
        lemma_ends_with_tail(typed(surface, m.output), below(m.backlog), event.text);
        lemma_typed_deleted(surface, m.output, event.text);
        lemma_ends_with_dropped(typed(surface, m.output), below(m.backlog), event.text);
        let erased = text_deleted(m.output, event.text).unwrap();
        if event.replaced_previous && older.len() > 0 {
            lemma_typed_appended(surface, erased, older.last().text);
            lemma_ends_with_added(typed(surface, erased), below(older), older.last().text);
        } else if older.len() == 0 {
            lemma_ends_with_empty(typed(surface, erased));
        }
        assert(shown(older) + after.in_progress =~= shown(older));
    }
}

pub proof fn lemma_step_took_back_many(surface: Seq<char>, m: EngineModel, count: nat)
    requires
        in_step(surface, m),
        m.in_progress.len() == 0,
        took_back_many(m, count) is Some,
    ensures
        in_step(surface, took_back_many(m, count).unwrap()),
        took_back_many(m, count).unwrap().in_progress.len() == 0,
    decreases count,
{
    if count > 0 {
        lemma_step_took_back(surface, m);
        lemma_step_took_back_many(surface, took_back(m).unwrap().0, (count - 1) as nat);
    }
}

/// The end of an action keeps the surface in step.
proof fn lemma_step_finished(
    surface: Seq<char>,
    run: Run,
    strokes: Seq<Keys>,
    state_before: InputState,
)
    requires
        run_in_step(surface, run),
    ensures
        in_step(surface, finished(run, strokes, state_before)),
{
    reveal(finished);
    let after = finished(run, strokes, state_before);
    if run.m.in_progress.len() == 0 {
        assert(run.m.in_progress =~= Seq::<char>::empty());
        if run.replaced_previous {
            assert(below(run.m.backlog) =~= shown(run.m.backlog));
        }
    } else {
        let event = EventModel {
            strokes,
            replaced_previous: run.replaced_previous,
            text: run.m.in_progress,
            state_before,
        };
        let longer = run.m.backlog.push(event);
        lemma_shown_pushed(run.m.backlog, event);
        assert(shown(longer) == run_text(run));
        if run.m.backlog.len() >= BACKLOG_DEPTH {
            lemma_shown_drop_first(longer);
            assert(longer.drop_first() =~= run.m.backlog.drop_first().push(event));
            lemma_ends_with_trans(
                typed(surface, run.m.output),
                shown(longer),
                shown(after.backlog),
            );
        }
        assert(shown(after.backlog) + after.in_progress =~= shown(after.backlog));
    }
}

/// The engine stays in step with the surface. Where the surface is in
/// step with the engine before a chord, it is in step with it after the
/// chord, whatever the chord does, as long as the chord comes to its end.
pub proof fn lemma_step_keys(lex: Lexicon, surface: Seq<char>, m: EngineModel, keys: Keys)
    requires
        spelling_writes(),
        sound(m.backlog),
        in_step(surface, m),
        ran_keys(lex, m, keys).1 == Outcome::Done,
    ensures
        in_step(surface, ran_keys(lex, m, keys).0),
        ran_keys(lex, m, keys).0.in_progress.len() == 0,
    decreases total_strokes(m.backlog), 4nat, 0nat,
{
    reveal(finished);
    let action = found_action(lex, m.backlog, keys);
    lemma_found_action_strokes(lex, m, keys);
    let start = took_back_many(m, action.delete_before).unwrap();
    lemma_step_took_back_many(surface, m, action.delete_before);
    lemma_took_back_many_total(m, action.delete_before);
    lemma_sound_action(lex, m, action);
    lemma_sound_took_back_many(m, action.delete_before);
    let first = Run { m: start, replaced_previous: false };
    assert(run_text(first) == shown(start.backlog) + start.in_progress);
    lemma_step_parts(lex, surface, first, action.parts(), 0);
    let run = ran_parts(lex, first, action.parts(), 0).0;
    lemma_step_finished(surface, run, action.strokes, start.state);
}

/// The parts of an action keep the surface in step.
proof fn lemma_step_parts(
    lex: Lexicon,
    surface: Seq<char>,
    run: Run,
    parts: Seq<PartModel>,
    from: int,
)
    requires
        spelling_writes(),
        sound(run.m.backlog),
        run_in_step(surface, run),
        0 <= from,
        ran_parts(lex, run, parts, from).1 == Outcome::Done,
    ensures
        run_in_step(surface, ran_parts(lex, run, parts, from).0),
    decreases total_strokes(run.m.backlog), 2nat, parts.len() - from,
{
    if from < parts.len() {
        lemma_step_step(lex, surface, run, parts[from]);
        lemma_step_parts(lex, surface, ran_step(lex, run, parts[from]).0, parts, from + 1);
    }
}

/// One part of an action keeps the surface in step, and the backlog sound.
pub proof fn lemma_step_step(lex: Lexicon, surface: Seq<char>, run: Run, part: PartModel)
    requires
        spelling_writes(),
        sound(run.m.backlog),
        run_in_step(surface, run),
        ran_step(lex, run, part).1 == Outcome::Done,
    ensures
        run_in_step(surface, ran_step(lex, run, part).0),
        sound(ran_step(lex, run, part).0.m.backlog),
        part == PartModel::PloverCommand(PloverCommand::Backspace) ==> in_step(surface, run.m)
            && run.m.in_progress.len() == 0,
    decreases total_strokes(run.m.backlog), 1nat, 0nat,
{
    let (after, outcome) = ran_step(lex, run, part);
    match part {
        PartModel::PloverCommand(PloverCommand::Quit) => {},
        PartModel::PloverCommand(PloverCommand::Backspace) => {
            assert(run.m.in_progress =~= Seq::<char>::empty());
            if run.replaced_previous {
                assert(below(run.m.backlog) =~= shown(run.m.backlog));
            }
            assert(in_step(surface, run.m));
            lemma_step_undid(lex, surface, run.m);
            lemma_sound_undid(lex, run.m);
            let undone = undid_stroke(lex, run.m).0;
            assert(after == Run { m: undone, ..run });
            if run.replaced_previous {
                lemma_took_back_total(run.m);
                reveal(took_back);
                assert(undone.backlog.len() == 0);
                assert(below(undone.backlog) =~= shown(undone.backlog));
            }
            assert(run_text(after) =~= shown(undone.backlog) + undone.in_progress);
        },
        _ => {
            lemma_ran_part_backlog(lex, run, part);
            lemma_step_part(lex, surface, run, part);
        },
    }
}

proof fn lemma_step_undid(lex: Lexicon, surface: Seq<char>, m: EngineModel)
    requires
        spelling_writes(),
        sound(m.backlog),
        in_step(surface, m),
        m.in_progress.len() == 0,
        undid_stroke(lex, m).1 == Outcome::Done,
    ensures
        in_step(surface, undid_stroke(lex, m).0),
        undid_stroke(lex, m).0.in_progress.len() == 0,
    decreases total_strokes(m.backlog), 0nat, 0nat,
{
    lemma_step_took_back(surface, m);
    lemma_took_back_total(m);
    lemma_sound_took_back_many(m, 1);
    match took_back(m) {
        Some((after, Some(event))) => {
            assert(took_back_many(m, 1) == Some(after)) by {
                assert(took_back_many(after, 0) == Some(after));
            }
            lemma_step_reran(lex, surface, after, event.strokes.drop_last(), 0);
        },
        _ => {},
    }
}

proof fn lemma_step_reran(
    lex: Lexicon,
    surface: Seq<char>,
    m: EngineModel,
    strokes: Seq<Keys>,
    from: int,
)
    requires
        spelling_writes(),
        sound(m.backlog),
        in_step(surface, m),
        m.in_progress.len() == 0,
        0 <= from <= strokes.len(),
        reran(lex, m, strokes, from).1 == Outcome::Done,
    ensures
        in_step(surface, reran(lex, m, strokes, from).0),
        reran(lex, m, strokes, from).0.in_progress.len() == 0,
    decreases total_strokes(m.backlog) + (strokes.len() - from), 0nat, strokes.len() - from,
{
    if from < strokes.len() {
        lemma_step_keys(lex, surface, m, strokes[from]);
        lemma_sound_keys(lex, m, strokes[from]);
        lemma_step_reran(lex, surface, ran_keys(lex, m, strokes[from]).0, strokes, from + 1);
    }
}

/// The engine stays in step with the surface over a run of chords that
/// comes to its end.
pub proof fn lemma_step_all(
    lex: Lexicon,
    surface: Seq<char>,
    m: EngineModel,
    chords: Seq<Keys>,
    from: int,
)
    requires
        spelling_writes(),
        sound(m.backlog),
        in_step(surface, m),
        0 <= from,
        ran_all(lex, m, chords, from).1 == Outcome::Done,
    ensures
        in_step(surface, ran_all(lex, m, chords, from).0),
        sound(ran_all(lex, m, chords, from).0.backlog),
    decreases chords.len() - from,
{
    if from < chords.len() {
        lemma_step_keys(lex, surface, m, chords[from]);
        lemma_sound_keys(lex, m, chords[from]);
        lemma_step_all(lex, surface, ran_keys(lex, m, chords[from]).0, chords, from + 1);
    }
}

/// A flush keeps the surface in step.
pub proof fn lemma_step_flushed(desk: Desk)
    requires
        in_step(desk.surface, desk.m),
    ensures
        in_step(flushed(desk).surface, flushed(desk).m),
{
    assert(typed(flushed(desk).surface, no_output()) =~= typed(desk.surface, desk.m.output));
}

/// An empty surface is in step with a new engine.
pub proof fn lemma_step_initial()
    ensures
        in_step(Seq::empty(), initial_engine()),
{
    assert(shown(initial_engine().backlog) + initial_engine().in_progress =~= Seq::<char>::empty());
    lemma_ends_with_empty(typed(Seq::empty(), initial_engine().output));
}

/// On a surface that is in step with the engine, backspace is the inverse
/// of a chord that joins no event, runs no command and writes some text.
pub proof fn lemma_backspace_is_inverse_in_step(
    lex: Lexicon,
    m: EngineModel,
    chord: Keys,
    undo: Keys,
    surface: Seq<char>,
)
    requires
        sound(m.backlog),
        spelling_writes(),
        in_step(surface, m),
        found_action(lex, m.backlog, chord).delete_before == 0,
        plain(found_action(lex, m.backlog, chord).parts()),
        ran_keys(lex, m, chord).1 == Outcome::Done,
        leaves_event(lex, m, chord),
        found_action(lex, ran_keys(lex, m, chord).0.backlog, undo) == undo_action(undo),
        ran_keys(lex, ran_keys(lex, m, chord).0, undo).1 == Outcome::Done,
    ensures
        ran_keys(lex, ran_keys(lex, m, chord).0, undo).0.state == m.state,
        typed(surface, ran_keys(lex, ran_keys(lex, m, chord).0, undo).0.output) == typed(
            surface,
            m.output,
        ),
        in_step(surface, ran_keys(lex, ran_keys(lex, m, chord).0, undo).0),
{
    assert(m.in_progress.len() == 0);
    assert(m.in_progress =~= Seq::<char>::empty());
    if m.backlog.len() > 0 {
        let text = m.backlog.last().text;
        assert(shown(m.backlog) + m.in_progress =~= below(m.backlog) + text);
        lemma_ends_with_empty(below(m.backlog));
        lemma_ends_with_added(below(m.backlog), Seq::empty(), text);
        assert(Seq::<char>::empty() + text =~= text);
        lemma_ends_with_trans(typed(surface, m.output), below(m.backlog) + text, text);
    }
    lemma_backspace_is_inverse(lex, m, chord, undo, surface);
    lemma_step_keys(lex, surface, m, chord);
    lemma_sound_keys(lex, m, chord);
    lemma_step_keys(lex, surface, ran_keys(lex, m, chord).0, undo);
}

} // verus!
