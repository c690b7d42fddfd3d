use vstd::prelude::*;

use crate::dict::entry::{PartModel, PloverCommand};
use crate::keys::Keys;
use crate::steno::backlog_law::{lemma_sound_keys, lemma_sound_took_back_many, sound};
use crate::steno::model::{
    finished, found_action, initial_engine, joined_suffix, lemma_took_back_many_total,
    lemma_took_back_total, ran_keys, ran_part, ran_parts, ran_step, removed_previous, reran,
    took_back, took_back_many, total_strokes, undid_stroke, wrote, wrote_word, EngineModel,
    InputState, Lexicon, Outcome, Run,
};
use crate::steno::output::{no_output, text_deleted};
use crate::steno::step_law::{
    below, in_step, lemma_ends_with_tail, lemma_step_initial, lemma_step_keys, lemma_step_step,
    lemma_step_took_back, lemma_step_took_back_many, run_in_step, run_text, shown,
};
use crate::steno::surface::{ends_with, lemma_typed_appended, lemma_typed_deleted, typed};
use crate::steno::undo_law::spelling_writes;

verus! {

/// The engine after the chords of `chords` from the place `from` on, run
/// one after the other with no flush in between, and how that ended.
pub open spec fn ran_all(lex: Lexicon, m: EngineModel, chords: Seq<Keys>, from: int) -> (
    EngineModel,
    Outcome,
)
    decreases chords.len() - from,
{
    if from < 0 || from >= chords.len() {
        (m, Outcome::Done)
    } else {
        let (after, outcome) = ran_keys(lex, m, chords[from]);
        if outcome != Outcome::Done {
            (after, outcome)
        } else {
            ran_all(lex, after, chords, from + 1)
        }
    }
}

/// An engine together with the surface that its edits go to.
pub struct Desk {
    pub m: EngineModel,
    pub surface: Seq<char>,
}

/// The desk after a flush: the surface has taken the edit, and the engine
/// begins a new one.
pub open spec fn flushed(desk: Desk) -> Desk {
    Desk {
        m: EngineModel { output: no_output(), ..desk.m },
        surface: typed(desk.surface, desk.m.output),
    }
}

/// The desk after the chords of `chords` from the place `from` on, each
/// followed by a flush, and how that ended.
pub open spec fn ran_flushing(lex: Lexicon, desk: Desk, chords: Seq<Keys>, from: int) -> (
    Desk,
    Outcome,
)
    decreases chords.len() - from,
{
    if from < 0 || from >= chords.len() {
        (desk, Outcome::Done)
    } else {
        let (after, outcome) = ran_keys(lex, desk.m, chords[from]);
        if outcome != Outcome::Done {
            (Desk { m: after, ..desk }, outcome)
        } else {
            ran_flushing(lex, flushed(Desk { m: after, ..desk }), chords, from + 1)
        }
    }
}

/// Whether the chord `keys`, run in the state `m`, runs no reset: neither
/// among the parts of its own action nor in a chord that a backspace among
/// them has run again.
pub open spec fn keys_keep(lex: Lexicon, m: EngineModel, keys: Keys) -> bool
    decreases total_strokes(m.backlog), 4nat, 0nat,
{
    let action = found_action(lex, m.backlog, keys);
    if m.in_progress.len() != 0 {
        true
    } else {
        match took_back_many(m, action.delete_before) {
            None => true,
            Some(start) => {
                proof {
                    lemma_took_back_many_total(m, action.delete_before);
                }
                parts_keep(lex, Run { m: start, replaced_previous: false }, action.parts(), 0)
            },
        }
    }
}

/// Whether the parts of `parts` from the place `from` on run no reset, as
/// far as they are run.
pub open spec fn parts_keep(lex: Lexicon, run: Run, parts: Seq<PartModel>, from: int) -> bool
    decreases total_strokes(run.m.backlog), 2nat, parts.len() - from,
{
    if from < 0 || from >= parts.len() {
        true
    } else {
        let (after, outcome) = ran_step(lex, run, parts[from]);
        if !step_keeps(lex, run, parts[from]) {
            false
        } else if outcome == Outcome::Done && total_strokes(after.m.backlog) <= total_strokes(
            run.m.backlog,
        ) {
            parts_keep(lex, after, parts, from + 1)
        } else {
            true
        }
    }
}

/// Whether the part `part` is no reset and, where it is a backspace, runs
/// none.
pub open spec fn step_keeps(lex: Lexicon, run: Run, part: PartModel) -> bool
    decreases total_strokes(run.m.backlog), 1nat, 0nat,
{
    match part {
        PartModel::PloverCommand(PloverCommand::Reset) => false,
        PartModel::PloverCommand(PloverCommand::Backspace) => run.m.in_progress.len() != 0
            || undo_keeps(lex, run.m),
        _ => true,
    }
}

/// Whether a backspace in the state `m` runs no reset.
pub open spec fn undo_keeps(lex: Lexicon, m: EngineModel) -> bool
    decreases total_strokes(m.backlog), 0nat, 0nat,
{
    match took_back(m) {
        Some((after, Some(event))) => {
            if event.strokes.len() == 0 {
                true
            } else {
                proof {
                    lemma_took_back_total(m);
                }
                rerun_keeps(lex, after, event.strokes.drop_last(), 0)
            }
        },
        _ => true,
    }
}

/// Whether the chords of `strokes` from the place `from` on, run again one
/// after the other, run no reset.
pub open spec fn rerun_keeps(lex: Lexicon, m: EngineModel, strokes: Seq<Keys>, from: int) -> bool
    decreases total_strokes(m.backlog) + (strokes.len() - from), 0nat, strokes.len() - from,
{
    if from < 0 || from >= strokes.len() {
        true
    } else {
        let (after, outcome) = ran_keys(lex, m, strokes[from]);
        if !keys_keep(lex, m, strokes[from]) {
            false
        } else if outcome == Outcome::Done && total_strokes(after.backlog) <= total_strokes(
            m.backlog,
        ) + 1 {
            rerun_keeps(lex, after, strokes, from + 1)
        } else {
            true
        }
    }
}

/// Whether no chord of `chords` from the place `from` on runs a reset, run
/// one after the other with no flush in between.
pub open spec fn all_keep(lex: Lexicon, m: EngineModel, chords: Seq<Keys>, from: int) -> bool
    decreases chords.len() - from,
{
    if from < 0 || from >= chords.len() {
        true
    } else {
        let (after, outcome) = ran_keys(lex, m, chords[from]);
        keys_keep(lex, m, chords[from]) && (outcome == Outcome::Done ==> all_keep(
            lex,
            after,
            chords,
            from + 1,
        ))
    }
}

/// Two engines that differ at most in their outputs, on two surfaces that
/// their outputs make the same text of.
pub open spec fn alike(a: EngineModel, b: EngineModel, sa: Seq<char>, sb: Seq<char>) -> bool {
    &&& a.state == b.state
    &&& a.backlog == b.backlog
    &&& a.in_progress == b.in_progress
    &&& typed(sa, a.output) == typed(sb, b.output)
}

proof fn lemma_alike_wrote(
    a: EngineModel,
    b: EngineModel,
    sa: Seq<char>,
    sb: Seq<char>,
    text: Seq<char>,
)
    requires
        alike(a, b, sa, sb),
    ensures
        alike(wrote(a, text), wrote(b, text), sa, sb),
{
    lemma_typed_appended(sa, a.output, text);
    lemma_typed_appended(sb, b.output, text);
}

proof fn lemma_alike_wrote_word(
    a: EngineModel,
    b: EngineModel,
    sa: Seq<char>,
    sb: Seq<char>,
    text: Seq<char>,
)
    requires
        alike(a, b, sa, sb),
    ensures
        alike(wrote_word(a, text), wrote_word(b, text), sa, sb),
{
    reveal(wrote_word);
    if a.state.space {
        lemma_alike_wrote(a, b, sa, sb, seq![' ']);
        lemma_alike_wrote(
            wrote(a, seq![' ']),
            wrote(b, seq![' ']),
            sa,
            sb,
            if a.state.caps {
                crate::text::capitalized(text)
            } else {
                text
            },
        );
    } else {
        lemma_alike_wrote(
            a,
            b,
            sa,
            sb,
            if a.state.caps {
                crate::text::capitalized(text)
            } else {
                text
            },
        );
    }
}

proof fn lemma_alike_deleted(
    a: EngineModel,
    b: EngineModel,
    sa: Seq<char>,
    sb: Seq<char>,
    text: Seq<char>,
)
    requires
        alike(a, b, sa, sb),
        ends_with(typed(sa, a.output), text),
        text_deleted(a.output, text) is Some,
        text_deleted(b.output, text) is Some,
    ensures
        typed(sa, text_deleted(a.output, text).unwrap()) == typed(
            sb,
            text_deleted(b.output, text).unwrap(),
        ),
{
    lemma_typed_deleted(sa, a.output, text);
    lemma_typed_deleted(sb, b.output, text);
}

proof fn lemma_alike_took_back(a: EngineModel, b: EngineModel, sa: Seq<char>, sb: Seq<char>)
    requires
        alike(a, b, sa, sb),
        in_step(sa, a),
        a.in_progress.len() == 0,
        took_back(a) is Some,
        took_back(b) is Some,
    ensures
        alike(took_back(a).unwrap().0, took_back(b).unwrap().0, sa, sb),
        took_back(a).unwrap().1 == took_back(b).unwrap().1,
{
    reveal(took_back);
    if a.backlog.len() > 0 {
        let event = a.backlog.last();
        assert(shown(a.backlog) + a.in_progress =~= below(a.backlog) + event.text);
        lemma_ends_with_tail(typed(sa, a.output), below(a.backlog), event.text);
        lemma_alike_deleted(a, b, sa, sb, event.text);
        let rest = a.backlog.drop_last();
        if event.replaced_previous && rest.len() > 0 {
            lemma_typed_appended(sa, text_deleted(a.output, event.text).unwrap(), rest.last().text);
            lemma_typed_appended(sb, text_deleted(b.output, event.text).unwrap(), rest.last().text);
        }
    }
}

proof fn lemma_alike_took_back_many(
    a: EngineModel,
    b: EngineModel,
    sa: Seq<char>,
    sb: Seq<char>,
    count: nat,
)
    requires
        alike(a, b, sa, sb),
        in_step(sa, a),
        a.in_progress.len() == 0,
        took_back_many(a, count) is Some,
        took_back_many(b, count) is Some,
    ensures
        alike(took_back_many(a, count).unwrap(), took_back_many(b, count).unwrap(), sa, sb),
    decreases count,
{
    if count > 0 {
        lemma_alike_took_back(a, b, sa, sb);
        lemma_step_took_back(sa, a);
        lemma_alike_took_back_many(
            took_back(a).unwrap().0,
            took_back(b).unwrap().0,
            sa,
            sb,
            (count - 1) as nat,
        );
    }
}

proof fn lemma_alike_joined(
    lex: Lexicon,
    a: EngineModel,
    b: EngineModel,
    sa: Seq<char>,
    sb: Seq<char>,
    previous: Seq<char>,
    suffix: Seq<char>,
)
    requires
        alike(a, b, sa, sb),
    ensures
        alike(
            joined_suffix(lex, a, previous, suffix),
            joined_suffix(lex, b, previous, suffix),
            sa,
            sb,
        ),
{
    reveal(joined_suffix);
    if !lex.words.contains(crate::text::trimmed(crate::text::lowered(previous + suffix)))
        && crate::steno::orthography::orthography(previous, suffix) is Some {
        lemma_alike_wrote_word(
            a,
            b,
            sa,
            sb,
            crate::steno::orthography::orthography(previous, suffix).unwrap(),
        );
    } else {
        lemma_alike_wrote_word(a, b, sa, sb, previous);
        lemma_alike_wrote(wrote_word(a, previous), wrote_word(b, previous), sa, sb, suffix);
    }
}

proof fn lemma_alike_part(
    lex: Lexicon,
    a: Run,
    b: Run,
    sa: Seq<char>,
    sb: Seq<char>,
    part: PartModel,
)
    requires
        alike(a.m, b.m, sa, sb),
        a.replaced_previous == b.replaced_previous,
        run_in_step(sa, a),
        part != PartModel::PloverCommand(PloverCommand::Reset),
        ran_part(lex, a, part) is Some,
        ran_part(lex, b, part) is Some,
    ensures
        alike(ran_part(lex, a, part).unwrap().m, ran_part(lex, b, part).unwrap().m, sa, sb),
        ran_part(lex, a, part).unwrap().replaced_previous == ran_part(
            lex,
            b,
            part,
        ).unwrap().replaced_previous,
{
    reveal(ran_part);
    match part {
        PartModel::Verbatim(text) => {
            lemma_alike_wrote_word(a.m, b.m, sa, sb, text);
        },
        PartModel::Suffix(suffix) => {
            reveal(removed_previous);
            let (ra, pa) = removed_previous(a.m).unwrap();
            let (rb, pb) = removed_previous(b.m).unwrap();
            let base = if a.replaced_previous {
                below(a.m.backlog)
            } else {
                shown(a.m.backlog)
            };
            if a.m.in_progress.len() > 0 {
                lemma_ends_with_tail(typed(sa, a.m.output), base, a.m.in_progress);
                lemma_alike_deleted(a.m, b.m, sa, sb, a.m.in_progress);
            } else if a.m.backlog.len() > 0 {
                let text = a.m.backlog.last().text;
                assert(a.m.in_progress =~= Seq::<char>::empty());
                assert(run_text(a) =~= below(a.m.backlog) + text);
                lemma_ends_with_tail(typed(sa, a.m.output), below(a.m.backlog), text);
                lemma_alike_deleted(a.m, b.m, sa, sb, text);
            }
            assert(pa == pb);
            let bare_a = EngineModel { state: InputState { space: false, ..ra.state }, ..ra };
            let bare_b = EngineModel { state: InputState { space: false, ..rb.state }, ..rb };
            assert(alike(bare_a, bare_b, sa, sb));
            match pa {
                Some(previous) => {
                    lemma_alike_joined(lex, bare_a, bare_b, sa, sb, previous.text, suffix);
                },
                None => {
                    lemma_alike_wrote_word(bare_a, bare_b, sa, sb, suffix);
                },
            }
        },
        PartModel::Glue(text) => {
            if a.m.state.glue {
                lemma_alike_wrote(a.m, b.m, sa, sb, text);
            } else {
                lemma_alike_wrote_word(a.m, b.m, sa, sb, text);
            }
        },
        PartModel::SpecialPunct(punct) => {
            lemma_alike_wrote(a.m, b.m, sa, sb, seq![punct.mark()]);
        },
        _ => {},
    }
}

/// Chords run alike on engines that are alike.
proof fn lemma_alike_keys(
    lex: Lexicon,
    a: EngineModel,
    b: EngineModel,
    sa: Seq<char>,
    sb: Seq<char>,
    keys: Keys,
)
    requires
        alike(a, b, sa, sb),
        spelling_writes(),
        sound(a.backlog),
        in_step(sa, a),
        keys_keep(lex, a, keys),
        ran_keys(lex, a, keys).1 == Outcome::Done,
        ran_keys(lex, b, keys).1 == Outcome::Done,
    ensures
        alike(ran_keys(lex, a, keys).0, ran_keys(lex, b, keys).0, sa, sb),
    decreases total_strokes(a.backlog), 4nat, 0nat,
{
    let action = found_action(lex, a.backlog, keys);
    reveal(finished);
    assert(a.in_progress.len() == 0);
    match (took_back_many(a, action.delete_before), took_back_many(b, action.delete_before)) {
        (Some(start_a), Some(start_b)) => {
            lemma_alike_took_back_many(a, b, sa, sb, action.delete_before);
            lemma_took_back_many_total(a, action.delete_before);
            lemma_step_took_back_many(sa, a, action.delete_before);
            lemma_sound_took_back_many(a, action.delete_before);
            let first = Run { m: start_a, replaced_previous: false };
            assert(run_text(first) == shown(start_a.backlog) + start_a.in_progress);
            lemma_alike_parts(
                lex,
                first,
                Run { m: start_b, replaced_previous: false },
                sa,
                sb,
                action.parts(),
                0,
            );
        },
        _ => {},
    }
}

proof fn lemma_alike_parts(
    lex: Lexicon,
    a: Run,
    b: Run,
    sa: Seq<char>,
    sb: Seq<char>,
    parts: Seq<PartModel>,
    from: int,
)
    requires
        alike(a.m, b.m, sa, sb),
        a.replaced_previous == b.replaced_previous,
        spelling_writes(),
        sound(a.m.backlog),
        run_in_step(sa, a),
        parts_keep(lex, a, parts, from),
        0 <= from,
        ran_parts(lex, a, parts, from).1 == Outcome::Done,
        ran_parts(lex, b, parts, from).1 == Outcome::Done,
    ensures
        alike(ran_parts(lex, a, parts, from).0.m, ran_parts(lex, b, parts, from).0.m, sa, sb),
        ran_parts(lex, a, parts, from).0.replaced_previous == ran_parts(
            lex,
            b,
            parts,
            from,
        ).0.replaced_previous,
    decreases total_strokes(a.m.backlog), 2nat, parts.len() - from,
{
    if from < parts.len() {
        let part = parts[from];
        let (next_a, outcome_a) = ran_step(lex, a, part);
        let (next_b, outcome_b) = ran_step(lex, b, part);
        assert(outcome_a == Outcome::Done);
        assert(outcome_b == Outcome::Done);
        assert(step_keeps(lex, a, part));
        lemma_step_step(lex, sa, a, part);
        match part {
            PartModel::PloverCommand(PloverCommand::Quit) => {},
            PartModel::PloverCommand(PloverCommand::Backspace) => {
                lemma_alike_undid(lex, a.m, b.m, sa, sb);
            },
            _ => {
                lemma_alike_part(lex, a, b, sa, sb, part);
            },
        }
        assert(alike(next_a.m, next_b.m, sa, sb));
        lemma_alike_parts(lex, next_a, next_b, sa, sb, parts, from + 1);
    }
}

proof fn lemma_alike_undid(
    lex: Lexicon,
    a: EngineModel,
    b: EngineModel,
    sa: Seq<char>,
    sb: Seq<char>,
)
    requires
        alike(a, b, sa, sb),
        spelling_writes(),
        sound(a.backlog),
        in_step(sa, a),
        a.in_progress.len() == 0,
        undo_keeps(lex, a),
        undid_stroke(lex, a).1 == Outcome::Done,
        undid_stroke(lex, b).1 == Outcome::Done,
    ensures
        alike(undid_stroke(lex, a).0, undid_stroke(lex, b).0, sa, sb),
    decreases total_strokes(a.backlog), 0nat, 0nat,
{
    lemma_alike_took_back(a, b, sa, sb);
    lemma_took_back_total(a);
    match took_back(a) {
        Some((next_a, Some(event))) => {
            let next_b = took_back(b).unwrap().0;
            lemma_step_took_back(sa, a);
            lemma_sound_took_back_many(a, 1);
            assert(took_back_many(a, 1) == Some(next_a)) by {
                assert(took_back_many(next_a, 0) == Some(next_a));
            }
            lemma_alike_reran(lex, next_a, next_b, sa, sb, event.strokes.drop_last(), 0);
        },
        _ => {},
    }
}

proof fn lemma_alike_reran(
    lex: Lexicon,
    a: EngineModel,
    b: EngineModel,
    sa: Seq<char>,
    sb: Seq<char>,
    strokes: Seq<Keys>,
    from: int,
)
    requires
        alike(a, b, sa, sb),
        spelling_writes(),
        sound(a.backlog),
        in_step(sa, a),
        rerun_keeps(lex, a, strokes, from),
        0 <= from,
        reran(lex, a, strokes, from).1 == Outcome::Done,
        reran(lex, b, strokes, from).1 == Outcome::Done,
    ensures
        alike(reran(lex, a, strokes, from).0, reran(lex, b, strokes, from).0, sa, sb),
    decreases total_strokes(a.backlog) + (strokes.len() - from), 0nat, strokes.len() - from,
{
    if from < strokes.len() {
        lemma_alike_keys(lex, a, b, sa, sb, strokes[from]);
        lemma_step_keys(lex, sa, a, strokes[from]);
        lemma_sound_keys(lex, a, strokes[from]);
        lemma_alike_reran(
            lex,
            ran_keys(lex, a, strokes[from]).0,
            ran_keys(lex, b, strokes[from]).0,
            sa,
            sb,
            strokes,
            from + 1,
        );
    }
}

proof fn lemma_flushing_from(
    lex: Lexicon,
    m: EngineModel,
    surface: Seq<char>,
    desk: Desk,
    chords: Seq<Keys>,
    from: int,
)
    requires
        spelling_writes(),
        sound(m.backlog),
        in_step(surface, m),
        all_keep(lex, m, chords, from),
        0 <= from,
        alike(m, desk.m, surface, desk.surface),
        ran_all(lex, m, chords, from).1 == Outcome::Done,
        ran_flushing(lex, desk, chords, from).1 == Outcome::Done,
    ensures
        alike(
            ran_all(lex, m, chords, from).0,
            ran_flushing(lex, desk, chords, from).0.m,
            surface,
            ran_flushing(lex, desk, chords, from).0.surface,
        ),
    decreases chords.len() - from,
{
    if from < chords.len() {
        lemma_alike_keys(lex, m, desk.m, surface, desk.surface, chords[from]);
        lemma_step_keys(lex, surface, m, chords[from]);
        lemma_sound_keys(lex, m, chords[from]);
        let after = ran_keys(lex, m, chords[from]).0;
        let next = flushed(Desk { m: ran_keys(lex, desk.m, chords[from]).0, ..desk });
        assert(typed(next.surface, no_output()) =~= next.surface);
        lemma_flushing_from(lex, after, surface, next, chords, from + 1);
    }
}

/// A flush may come at any time. Let the surface be in step with the
/// engine, and let no chord of the run execute a reset. Then the text that
/// the edit gathered over the chords makes of the surface is the text that
/// stands there when the edit of each chord is applied on its own; deleted
/// words are left aside on both sides.
pub proof fn lemma_flush_any_time(
    lex: Lexicon,
    m: EngineModel,
    surface: Seq<char>,
    chords: Seq<Keys>,
)
    requires
        spelling_writes(),
        sound(m.backlog),
        in_step(surface, m),
        all_keep(lex, m, chords, 0),
        ran_all(lex, m, chords, 0).1 == Outcome::Done,
        ran_flushing(lex, flushed(Desk { m, surface }), chords, 0).1 == Outcome::Done,
    ensures
        typed(surface, ran_all(lex, m, chords, 0).0.output) == ran_flushing(
            lex,
            flushed(Desk { m, surface }),
            chords,
            0,
        ).0.surface,
        ran_all(lex, m, chords, 0).0.state == ran_flushing(
            lex,
            flushed(Desk { m, surface }),
            chords,
            0,
        ).0.m.state,
        ran_all(lex, m, chords, 0).0.backlog == ran_flushing(
            lex,
            flushed(Desk { m, surface }),
            chords,
            0,
        ).0.m.backlog,
{
    let desk = flushed(Desk { m, surface });
    assert(typed(desk.surface, no_output()) =~= desk.surface);
    lemma_flushing_from(lex, m, surface, desk, chords, 0);
    let end = ran_flushing(lex, desk, chords, 0).0;
    lemma_flushing_ends_flushed(lex, desk, chords, 0);
    assert(typed(end.surface, no_output()) =~= end.surface);
}

/// A flush may come at any time after a new engine began on an empty
/// surface: the text that the edit gathered over all the chords types is
/// the text that stands on the surface when the edit of each chord is
/// applied on its own, as long as no chord of the run executes a reset.
pub proof fn lemma_flush_any_time_from_start(lex: Lexicon, chords: Seq<Keys>)
    requires
        spelling_writes(),
        all_keep(lex, initial_engine(), chords, 0),
        ran_all(lex, initial_engine(), chords, 0).1 == Outcome::Done,
        ran_flushing(
            lex,
            Desk { m: initial_engine(), surface: Seq::empty() },
            chords,
            0,
        ).1 == Outcome::Done,
    ensures
        typed(Seq::empty(), ran_all(lex, initial_engine(), chords, 0).0.output) == ran_flushing(
            lex,
            Desk { m: initial_engine(), surface: Seq::empty() },
            chords,
            0,
        ).0.surface,
{
    let start = Desk { m: initial_engine(), surface: Seq::empty() };
    assert(typed(start.surface, no_output()) =~= start.surface);
    assert(flushed(start) == start);
    lemma_step_initial();
    lemma_flush_any_time(lex, initial_engine(), Seq::empty(), chords);
}

proof fn lemma_flushing_ends_flushed(lex: Lexicon, desk: Desk, chords: Seq<Keys>, from: int)
    requires
        0 <= from,
        desk.m.output == no_output(),
        ran_flushing(lex, desk, chords, from).1 == Outcome::Done,
    ensures
        ran_flushing(lex, desk, chords, from).0.m.output == no_output(),
    decreases chords.len() - from,
{
    if from < chords.len() {
        let next = flushed(Desk { m: ran_keys(lex, desk.m, chords[from]).0, ..desk });
        lemma_flushing_ends_flushed(lex, next, chords, from + 1);
    }
}

} // verus!
