use vstd::prelude::*;

use crate::dict::entry::{PartModel, PloverCommand};
use crate::keys::Keys;
use crate::steno::events_wf;
use crate::steno::measure::lemma_found_action_strokes;
use crate::steno::model::{
    finished, found_action, lemma_ran_part_backlog, lemma_took_back_many_total,
    lemma_took_back_total, ran_action, ran_keys, ran_part, ran_parts, ran_step, reran, took_back,
    took_back_many, total_strokes, undid_stroke, ActionModel, EngineModel, EventModel, Lexicon,
    Outcome, Run, BACKLOG_DEPTH,
};
use crate::steno::run_action::{lemma_events_wf_pushed, lemma_total_strokes_pushed};

verus! {

/// What holds of the backlog of every engine: it is within its depth, and
/// each of its events stands for a chord and holds text.
pub open spec fn sound(backlog: Seq<EventModel>) -> bool {
    backlog.len() <= BACKLOG_DEPTH && events_wf(backlog)
}

proof fn lemma_sound_took_back(m: EngineModel)
    requires
        sound(m.backlog),
    ensures
        took_back(m) matches Some((after, event)) ==> sound(after.backlog) && (event matches Some(
            e,
        ) ==> e.strokes.len() >= 1),
{
    lemma_took_back_total(m);
    match took_back(m) {
        Some((after, Some(event))) => {
            assert forall|i: int| 0 <= i < after.backlog.len() implies (
            #[trigger] after.backlog[i]).strokes.len() >= 1 && after.backlog[i].text.len()
                >= 1 by {
                assert(after.backlog[i] == m.backlog[i]);
            }
        },
        _ => {},
    }
}

/// Taking events back keeps the backlog sound.
pub proof fn lemma_sound_took_back_many(m: EngineModel, count: nat)
    requires
        sound(m.backlog),
    ensures
        took_back_many(m, count) matches Some(after) ==> sound(after.backlog),
    decreases count,
{
    if count > 0 {
        lemma_sound_took_back(m);
        match took_back(m) {
            Some((after, _)) => {
                lemma_sound_took_back_many(after, (count - 1) as nat);
            },
            None => {},
        }
    }
}

proof fn lemma_sound_finished(run: Run, strokes: Seq<Keys>, state_before: crate::steno::model::InputState)
    requires
        sound(run.m.backlog),
        strokes.len() >= 1,
    ensures
        sound(finished(run, strokes, state_before).backlog),
        total_strokes(finished(run, strokes, state_before).backlog) <= total_strokes(
            run.m.backlog,
        ) + strokes.len(),
{
    reveal(finished);
    if run.m.in_progress.len() > 0 {
        let event = EventModel {
            strokes,
            replaced_previous: run.replaced_previous,
            text: run.m.in_progress,
            state_before,
        };
        lemma_events_wf_pushed(run.m.backlog, event);
        lemma_total_strokes_pushed(run.m.backlog, event);
    }
}

/// A chord keeps the backlog sound, and adds at most one chord to those
/// that the backlog stands for.
pub proof fn lemma_sound_keys(lex: Lexicon, m: EngineModel, keys: Keys)
    requires
        sound(m.backlog),
    ensures
        ran_keys(lex, m, keys).1 != Outcome::Fault ==> sound(ran_keys(lex, m, keys).0.backlog),
        ran_keys(lex, m, keys).1 == Outcome::Done ==> total_strokes(
            ran_keys(lex, m, keys).0.backlog,
        ) <= total_strokes(m.backlog) + 1,
    decreases total_strokes(m.backlog), 4nat, 0nat,
{
    let action = found_action(lex, m.backlog, keys);
    lemma_found_action_strokes(lex, m, keys);
    lemma_sound_action(lex, m, action);
}

/// An action keeps the backlog sound.
pub proof fn lemma_sound_action(lex: Lexicon, m: EngineModel, action: ActionModel)
    requires
        sound(m.backlog),
        action.strokes.len() >= 1,
    ensures
        ran_action(lex, m, action).1 != Outcome::Fault ==> sound(
            ran_action(lex, m, action).0.backlog,
        ),
        ran_action(lex, m, action).1 == Outcome::Done ==> took_back_many(m, action.delete_before)
            is Some && total_strokes(ran_action(lex, m, action).0.backlog) <= total_strokes(
            took_back_many(m, action.delete_before).unwrap().backlog,
        ) + action.strokes.len(),
    decreases total_strokes(m.backlog), 3nat, 0nat,
{
    if m.in_progress.len() == 0 {
        match took_back_many(m, action.delete_before) {
            Some(start) => {
                lemma_sound_took_back_many(m, action.delete_before);
                lemma_took_back_many_total(m, action.delete_before);
                let first = Run { m: start, replaced_previous: false };
                lemma_sound_parts(lex, first, action.parts(), 0);
                let (run, outcome) = ran_parts(lex, first, action.parts(), 0);
                if outcome == Outcome::Done {
                    lemma_sound_finished(run, action.strokes, start.state);
                }
            },
            None => {},
        }
    }
}

proof fn lemma_sound_parts(lex: Lexicon, run: Run, parts: Seq<PartModel>, from: int)
    requires
        sound(run.m.backlog),
        0 <= from,
    ensures
        ran_parts(lex, run, parts, from).1 != Outcome::Fault ==> sound(
            ran_parts(lex, run, parts, from).0.m.backlog,
        ),
        ran_parts(lex, run, parts, from).1 == Outcome::Done ==> total_strokes(
            ran_parts(lex, run, parts, from).0.m.backlog,
        ) <= total_strokes(run.m.backlog),
    decreases total_strokes(run.m.backlog), 2nat, parts.len() - from,
{
    if from < parts.len() {
        lemma_sound_step(lex, run, parts[from]);
        let (after, outcome) = ran_step(lex, run, parts[from]);
        if outcome == Outcome::Done {
            lemma_sound_parts(lex, after, parts, from + 1);
        }
    }
}

/// The comparison of chords after a part always holds: no part adds chords
/// to the backlog.
proof fn lemma_sound_step(lex: Lexicon, run: Run, part: PartModel)
    requires
        sound(run.m.backlog),
    ensures
        ran_step(lex, run, part).1 != Outcome::Fault ==> sound(
            ran_step(lex, run, part).0.m.backlog,
        ),
        ran_step(lex, run, part).1 == Outcome::Done ==> total_strokes(
            ran_step(lex, run, part).0.m.backlog,
        ) <= total_strokes(run.m.backlog),
    decreases total_strokes(run.m.backlog), 1nat, 0nat,
{
    match part {
        PartModel::PloverCommand(PloverCommand::Quit) => {},
        PartModel::PloverCommand(PloverCommand::Backspace) => {
            if run.m.in_progress.len() == 0 {
                lemma_sound_undid(lex, run.m);
            }
        },
        _ => {
            lemma_ran_part_backlog(lex, run, part);
        },
    }
}

/// A backspace keeps the backlog sound, and adds no chords to it.
pub proof fn lemma_sound_undid(lex: Lexicon, m: EngineModel)
    requires
        sound(m.backlog),
    ensures
        undid_stroke(lex, m).1 != Outcome::Fault ==> sound(undid_stroke(lex, m).0.backlog),
        undid_stroke(lex, m).1 == Outcome::Done ==> total_strokes(undid_stroke(lex, m).0.backlog)
            <= total_strokes(m.backlog),
    decreases total_strokes(m.backlog), 0nat, 0nat,
{
    lemma_sound_took_back(m);
    lemma_took_back_total(m);
    match took_back(m) {
        Some((after, Some(event))) => {
            lemma_sound_reran(lex, after, event.strokes.drop_last(), 0);
        },
        _ => {},
    }
}

/// The comparison of chords after a chord that is run again always holds.
proof fn lemma_sound_reran(lex: Lexicon, m: EngineModel, strokes: Seq<Keys>, from: int)
    requires
        sound(m.backlog),
        0 <= from <= strokes.len(),
    ensures
        reran(lex, m, strokes, from).1 != Outcome::Fault ==> sound(
            reran(lex, m, strokes, from).0.backlog,
        ),
        reran(lex, m, strokes, from).1 == Outcome::Done ==> total_strokes(
            reran(lex, m, strokes, from).0.backlog,
        ) <= total_strokes(m.backlog) + (strokes.len() - from),
    decreases total_strokes(m.backlog) + (strokes.len() - from), 0nat, strokes.len() - from,
{
    if from < strokes.len() {
        lemma_sound_keys(lex, m, strokes[from]);
        let (after, outcome) = ran_keys(lex, m, strokes[from]);
        if outcome == Outcome::Done {
            lemma_sound_reran(lex, after, strokes, from + 1);
        }
    }
}

} // verus!
