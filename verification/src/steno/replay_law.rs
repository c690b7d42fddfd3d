use vstd::prelude::*;

use crate::dict::entry::{PartModel, PloverCommand};
use crate::keys::Keys;
use crate::steno::backlog_law::{
    lemma_sound_keys, lemma_sound_took_back_many, lemma_sound_undid, sound,
};
use crate::steno::flush_law::ran_all;
use crate::steno::measure::{lemma_longest_match_bounds, lemma_took_back_many_backlog};
use crate::steno::model::{
    finished, found_action, initial_engine, joinable, joined_suffix, lemma_ran_part_backlog,
    lemma_took_back_many_total, lemma_took_back_total, longest_match, ran_action, ran_keys,
    ran_part, ran_parts, ran_step, removed_previous, reran, split_suffix_spec, strokes_after,
    took_back, took_back_many, undid_stroke, wrote_word, EngineModel, EventModel,
    InputState, Lexicon, Outcome, Run, BACKLOG_DEPTH,
};
use crate::steno::output::{text_deleted, OutputModel};
use crate::steno::step_law::{
    below, in_step, lemma_ends_with_tail, lemma_step_all, lemma_step_initial, lemma_step_part,
    lemma_step_took_back, lemma_step_took_back_many, run_in_step, run_text, shown,
};
use crate::steno::surface::{ends_with, lemma_typed_deleted, typed};
use crate::steno::undo_law::{leaves_event, plain, spelling_writes, undo_action};
use crate::text::lemma_encode_concat;

verus! {

/// The chords that the events of `events` stand for, one event after the
/// other.
pub open spec fn chords_of(events: Seq<EventModel>) -> Seq<Keys>
    decreases events.len(),
{
    if events.len() == 0 {
        Seq::empty()
    } else {
        chords_of(events.drop_last()) + events.last().strokes
    }
}

/// Whether the chord `chord`, run in the state `m`, only writes: it runs
/// no command, comes to its end and leaves an event.
pub open spec fn writes(lex: Lexicon, m: EngineModel, chord: Keys) -> bool {
    &&& plain(found_action(lex, m.backlog, chord).parts())
    &&& ran_keys(lex, m, chord).1 == Outcome::Done
    &&& leaves_event(lex, m, chord)
}

/// Whether each of the chords of `chords` from the place `from` on only
/// writes when they are run one after the other from the state `m`.
pub open spec fn all_write(lex: Lexicon, m: EngineModel, chords: Seq<Keys>, from: int) -> bool
    decreases chords.len() - from,
{
    if from < 0 || from >= chords.len() {
        true
    } else {
        writes(lex, m, chords[from]) && all_write(
            lex,
            ran_keys(lex, m, chords[from]).0,
            chords,
            from + 1,
        )
    }
}

/// Whether the backlog `backlog` can be replayed: for each of its events,
/// the chords of the events before it, run from a new engine, lead to the
/// state that the event holds as the one before it.
pub open spec fn replayable(lex: Lexicon, backlog: Seq<EventModel>) -> bool {
    forall|at: int|
        0 <= at < backlog.len() ==> (#[trigger] ran_all(
            lex,
            initial_engine(),
            chords_of(backlog.take(at)),
            0,
        )).1 == Outcome::Done && ran_all(
            lex,
            initial_engine(),
            chords_of(backlog.take(at)),
            0,
        ).0.state == backlog[at].state_before
}

proof fn lemma_chords_of_concat(a: Seq<EventModel>, b: Seq<EventModel>)
    ensures
        chords_of(a + b) == chords_of(a) + chords_of(b),
    decreases b.len(),
{
    if b.len() == 0 {
        assert(a + b =~= a);
        assert(chords_of(a) + chords_of(b) =~= chords_of(a));
    } else {
        lemma_chords_of_concat(a, b.drop_last());
        assert((a + b).drop_last() =~= a + b.drop_last());
        assert((a + b).last() == b.last());
        assert(chords_of(a) + chords_of(b.drop_last()) + b.last().strokes =~= chords_of(a) + (
        chords_of(b.drop_last()) + b.last().strokes));
    }
}

proof fn lemma_chords_of_len(events: Seq<EventModel>)
    requires
        forall|i: int| 0 <= i < events.len() ==> (#[trigger] events[i]).strokes.len() >= 1,
    ensures
        events.len() <= chords_of(events).len(),
    decreases events.len(),
{
    if events.len() > 0 {
        assert forall|i: int| 0 <= i < events.drop_last().len() implies (
        #[trigger] events.drop_last()[i]).strokes.len() >= 1 by {
            assert(events.drop_last()[i] == events[i]);
        }
        lemma_chords_of_len(events.drop_last());
    }
}

proof fn lemma_strokes_after_chords(events: Seq<EventModel>, from: int, last: Keys)
    requires
        0 <= from <= events.len(),
    ensures
        strokes_after(events, from, last) == chords_of(events.skip(from)) + seq![last],
    decreases events.len() - from,
{
    if from < events.len() {
        lemma_strokes_after_chords(events, from + 1, last);
        let rest = events.skip(from + 1);
        assert(events.skip(from) =~= seq![events[from]] + rest);
        lemma_chords_of_concat(seq![events[from]], rest);
        assert(seq![events[from]].drop_last() =~= Seq::<EventModel>::empty());
        assert(seq![events[from]].last() == events[from]);
        assert(chords_of(Seq::<EventModel>::empty()) =~= Seq::<Keys>::empty());
        assert(chords_of(seq![events[from]]) =~= events[from].strokes);
        assert(events[from].strokes + (chords_of(rest) + seq![last]) =~= events[from].strokes
            + chords_of(rest) + seq![last]);
    } else {
        assert(events.skip(from) =~= Seq::<EventModel>::empty());
        assert(chords_of(events.skip(from)) + seq![last] =~= seq![last]);
    }
}

/// The chords of an action are those of the events that it joins and the
/// chord itself, and it joins no more events than there are.
proof fn lemma_found_action_chords(lex: Lexicon, backlog: Seq<EventModel>, keys: Keys)
    ensures
        found_action(lex, backlog, keys).delete_before <= backlog.len(),
        found_action(lex, backlog, keys).strokes == chords_of(
            backlog.skip(backlog.len() - found_action(lex, backlog, keys).delete_before),
        ) + seq![keys],
{
    reveal(found_action);
    let events = joinable(lex, backlog);
    let action = found_action(lex, backlog, keys);
    let count = action.delete_before;
    assert(events.len() <= backlog.len());
    lemma_longest_match_bounds(lex.dict, events, 0, keys);
    match split_suffix_spec(keys) {
        Some((body, suffix)) => {
            lemma_longest_match_bounds(lex.dict, events, 0, body);
        },
        None => {},
    }
    let skipped = events.len() - count;
    if 0 <= skipped <= events.len() && action.strokes == strokes_after(events, skipped, keys) {
        lemma_strokes_after_chords(events, skipped, keys);
        assert(events.skip(skipped) =~= backlog.skip(backlog.len() - count));
    } else {
        assert(count == 0);
        assert(backlog.skip(backlog.len() as int) =~= Seq::<EventModel>::empty());
        assert(chords_of(backlog.skip(backlog.len() as int)) + seq![keys] =~= seq![keys]);
    }
}

proof fn lemma_took_back_many_state(m: EngineModel, count: nat)
    requires
        count <= m.backlog.len(),
        took_back_many(m, count) is Some,
    ensures
        took_back_many(m, count).unwrap().state == (if count == 0 {
            m.state
        } else {
            m.backlog[m.backlog.len() - count].state_before
        }),
    decreases count,
{
    reveal(took_back);
    if count > 0 {
        lemma_took_back_total(m);
        let after = took_back(m).unwrap().0;
        lemma_took_back_many_state(after, (count - 1) as nat);
    }
}

proof fn lemma_plain_backlog(lex: Lexicon, run: Run, parts: Seq<PartModel>, from: int)
    requires
        plain(parts),
        0 <= from,
    ensures
        ran_parts(lex, run, parts, from).0.m.backlog == run.m.backlog,
    decreases parts.len() - from,
{
    if from < parts.len() {
        let part = parts[from];
        assert(!(part is PloverCommand));
        assert(ran_step(lex, run, part) == (match ran_part(lex, run, part) {
            None => (run, Outcome::Fault),
            Some(after) => (after, Outcome::Done),
        }));
        match ran_part(lex, run, part) {
            Some(after) => {
                assert(after.m.backlog == run.m.backlog) by {
                    reveal(ran_part);
                    reveal(removed_previous);
                    reveal(joined_suffix);
                    reveal(wrote_word);
                }
                lemma_plain_backlog(lex, after, parts, from + 1);
            },
            None => {},
        }
    }
}

/// A chord that only writes puts one event in the place of those that it
/// joins: the event stands for their chords and its own, and holds the
/// state before the first of them.
pub proof fn lemma_writing_step(lex: Lexicon, m: EngineModel, chord: Keys)
    requires
        writes(lex, m, chord),
        m.backlog.len() < BACKLOG_DEPTH,
    ensures
        found_action(lex, m.backlog, chord).delete_before <= m.backlog.len(),
        ran_keys(lex, m, chord).0.backlog.len() == m.backlog.len() - found_action(
            lex,
            m.backlog,
            chord,
        ).delete_before + 1,
        ran_keys(lex, m, chord).0.backlog.drop_last() == m.backlog.take(
            m.backlog.len() - found_action(lex, m.backlog, chord).delete_before,
        ),
        ran_keys(lex, m, chord).0.backlog.last().strokes == chords_of(
            m.backlog.skip(m.backlog.len() - found_action(lex, m.backlog, chord).delete_before),
        ) + seq![chord],
        ran_keys(lex, m, chord).0.backlog.last().state_before == (if found_action(
            lex,
            m.backlog,
            chord,
        ).delete_before == 0 {
            m.state
        } else {
            m.backlog[m.backlog.len() - found_action(
                lex,
                m.backlog,
                chord,
            ).delete_before].state_before
        }),
{
    reveal(finished);
    let action = found_action(lex, m.backlog, chord);
    lemma_found_action_chords(lex, m.backlog, chord);
    assert(ran_keys(lex, m, chord) == ran_action(lex, m, action));
    let start = took_back_many(m, action.delete_before).unwrap();
    lemma_took_back_many_backlog(m, action.delete_before);
    lemma_took_back_many_state(m, action.delete_before);
    let first = Run { m: start, replaced_previous: false };
    lemma_plain_backlog(lex, first, action.parts(), 0);
    let run = ran_parts(lex, first, action.parts(), 0).0;
    let after = ran_keys(lex, m, chord).0;
    assert(after == finished(run, action.strokes, start.state));
    assert(after.backlog.drop_last() =~= start.backlog);
}

/// Two engines that differ at most in their outputs.
pub open spec fn akin(a: EngineModel, b: EngineModel) -> bool {
    &&& a.state == b.state
    &&& a.backlog == b.backlog
    &&& a.in_progress == b.in_progress
}

/// Whether the chords of the events `events`, run from a new engine, lead
/// to these events and to the state `state`.
pub open spec fn traced(lex: Lexicon, events: Seq<EventModel>, state: InputState) -> bool {
    let (end, outcome) = ran_all(lex, initial_engine(), chords_of(events), 0);
    &&& outcome == Outcome::Done
    &&& end.backlog == events
    &&& end.state == state
    &&& end.in_progress.len() == 0
}

/// Whether the chords of the events of `backlog` before the place `at`,
/// run from a new engine, lead to these events and to the state that the
/// event at that place holds as the one before it.
pub open spec fn traced_at(lex: Lexicon, backlog: Seq<EventModel>, at: int) -> bool {
    traced(lex, backlog.take(at), backlog[at].state_before)
}

/// Whether the engine `m` is where the chords of its backlog lead, and so
/// was each state before an event of the backlog.
pub open spec fn retraced(lex: Lexicon, m: EngineModel) -> bool {
    &&& sound(m.backlog)
    &&& m.in_progress.len() == 0
    &&& traced(lex, m.backlog, m.state)
    &&& forall|at: int| 0 <= at < m.backlog.len() ==> #[trigger] traced_at(lex, m.backlog, at)
}

/// Whether the chord `chord`, run in the state `m`, only takes the newest
/// event back, and the chords that are run again for it only write.
pub open spec fn undoes(lex: Lexicon, m: EngineModel, chord: Keys) -> bool {
    &&& found_action(lex, m.backlog, chord) == undo_action(chord)
    &&& ran_keys(lex, m, chord).1 == Outcome::Done
    &&& match took_back(m) {
        Some((after, Some(event))) => all_write(lex, after, event.strokes.drop_last(), 0),
        _ => true,
    }
}

/// Whether each of the chords of `chords` from the place `from` on only
/// writes or only takes back, when they are run one after the other from
/// the state `m`.
pub open spec fn all_write_or_undo(
    lex: Lexicon,
    m: EngineModel,
    chords: Seq<Keys>,
    from: int,
) -> bool
    decreases chords.len() - from,
{
    if from < 0 || from >= chords.len() {
        true
    } else {
        (writes(lex, m, chords[from]) || undoes(lex, m, chords[from])) && all_write_or_undo(
            lex,
            ran_keys(lex, m, chords[from]).0,
            chords,
            from + 1,
        )
    }
}

/// On an empty surface, the text that the edit types can be deleted from
/// its end.
proof fn lemma_bare_deleted(o: OutputModel, text: Seq<char>)
    requires
        ends_with(typed(Seq::empty(), o), text),
    ensures
        text_deleted(o, text) is Some,
{
    let bare = Seq::<char>::empty();
    assert(typed(bare, o) =~= o.append);
    lemma_typed_deleted(bare, o, text);
    let head = o.append.take(o.append.len() - text.len());
    assert(o.append =~= head + text) by {
        assert forall|i: int| 0 <= i < text.len() implies o.append[head.len() + i] == text[i] by {
            assert(o.append.skip(o.append.len() - text.len())[i] == text[i]);
        }
    }
    lemma_encode_concat(head, text);
}

proof fn lemma_bare_took_back_many(m: EngineModel, count: nat)
    requires
        in_step(Seq::empty(), m),
        m.in_progress.len() == 0,
        count <= m.backlog.len(),
    ensures
        took_back_many(m, count) is Some,
    decreases count,
{
    if count > 0 {
        let bare = Seq::<char>::empty();
        let event = m.backlog.last();
        assert(m.in_progress =~= Seq::<char>::empty());
        assert(shown(m.backlog) + m.in_progress =~= below(m.backlog) + event.text);
        lemma_ends_with_tail(typed(bare, m.output), below(m.backlog), event.text);
        lemma_bare_deleted(m.output, event.text);
        assert(took_back(m) is Some && took_back(m).unwrap().0.backlog == m.backlog.drop_last())
            by {
            reveal(took_back);
        }
        lemma_step_took_back(bare, m);
        lemma_bare_took_back_many(took_back(m).unwrap().0, (count - 1) as nat);
    }
}

proof fn lemma_bare_part(lex: Lexicon, run: Run, part: PartModel)
    requires
        run_in_step(Seq::empty(), run),
    ensures
        ran_part(lex, run, part) is Some,
{
    reveal(ran_part);
    match part {
        PartModel::Suffix(suffix) => {
            reveal(removed_previous);
            let bare = Seq::<char>::empty();
            let m = run.m;
            let base = if run.replaced_previous {
                below(m.backlog)
            } else {
                shown(m.backlog)
            };
            if m.in_progress.len() > 0 {
                lemma_ends_with_tail(typed(bare, m.output), base, m.in_progress);
                lemma_bare_deleted(m.output, m.in_progress);
            } else if m.backlog.len() > 0 {
                let text = m.backlog.last().text;
                assert(m.in_progress =~= Seq::<char>::empty());
                assert(run_text(run) =~= below(m.backlog) + text);
                lemma_ends_with_tail(typed(bare, m.output), below(m.backlog), text);
                lemma_bare_deleted(m.output, text);
            }
        },
        _ => {},
    }
}

proof fn lemma_bare_parts(lex: Lexicon, run: Run, parts: Seq<PartModel>, from: int)
    requires
        spelling_writes(),
        sound(run.m.backlog),
        run_in_step(Seq::empty(), run),
        plain(parts),
        0 <= from,
    ensures
        ran_parts(lex, run, parts, from).1 == Outcome::Done,
    decreases parts.len() - from,
{
    if from < parts.len() {
        let part = parts[from];
        assert(!(part is PloverCommand));
        assert(ran_step(lex, run, part) == (match ran_part(lex, run, part) {
            None => (run, Outcome::Fault),
            Some(after) => (after, Outcome::Done),
        }));
        lemma_bare_part(lex, run, part);
        let after = ran_part(lex, run, part).unwrap();
        lemma_ran_part_backlog(lex, run, part);
        lemma_step_part(lex, Seq::empty(), run, part);
        lemma_bare_parts(lex, after, parts, from + 1);
    }
}

/// A chord that runs no command comes to its end on an empty surface that
/// is in step with the engine.
proof fn lemma_bare_keys(lex: Lexicon, m: EngineModel, chord: Keys)
    requires
        spelling_writes(),
        sound(m.backlog),
        in_step(Seq::empty(), m),
        m.in_progress.len() == 0,
        plain(found_action(lex, m.backlog, chord).parts()),
    ensures
        ran_keys(lex, m, chord).1 == Outcome::Done,
{
    let bare = Seq::<char>::empty();
    let action = found_action(lex, m.backlog, chord);
    lemma_found_action_chords(lex, m.backlog, chord);
    lemma_bare_took_back_many(m, action.delete_before);
    let start = took_back_many(m, action.delete_before).unwrap();
    lemma_step_took_back_many(bare, m, action.delete_before);
    lemma_sound_took_back_many(m, action.delete_before);
    lemma_took_back_many_total(m, action.delete_before);
    let first = Run { m: start, replaced_previous: false };
    assert(run_text(first) == shown(start.backlog) + start.in_progress);
    lemma_bare_parts(lex, first, action.parts(), 0);
}

proof fn lemma_akin_took_back_many(a: EngineModel, b: EngineModel, count: nat)
    requires
        akin(a, b),
        took_back_many(a, count) is Some,
        took_back_many(b, count) is Some,
    ensures
        akin(took_back_many(a, count).unwrap(), took_back_many(b, count).unwrap()),
    decreases count,
{
    if count > 0 {
        assert(akin(took_back(a).unwrap().0, took_back(b).unwrap().0)) by {
            reveal(took_back);
        }
        lemma_akin_took_back_many(
            took_back(a).unwrap().0,
            took_back(b).unwrap().0,
            (count - 1) as nat,
        );
    }
}

proof fn lemma_akin_part(lex: Lexicon, a: Run, b: Run, part: PartModel)
    requires
        akin(a.m, b.m),
        a.replaced_previous == b.replaced_previous,
        ran_part(lex, a, part) is Some,
        ran_part(lex, b, part) is Some,
    ensures
        akin(ran_part(lex, a, part).unwrap().m, ran_part(lex, b, part).unwrap().m),
        ran_part(lex, a, part).unwrap().replaced_previous == ran_part(
            lex,
            b,
            part,
        ).unwrap().replaced_previous,
{
    reveal(ran_part);
    reveal(removed_previous);
    reveal(joined_suffix);
    reveal(wrote_word);
}

proof fn lemma_akin_parts(lex: Lexicon, a: Run, b: Run, parts: Seq<PartModel>, from: int)
    requires
        akin(a.m, b.m),
        a.replaced_previous == b.replaced_previous,
        plain(parts),
        0 <= from,
        ran_parts(lex, a, parts, from).1 == Outcome::Done,
        ran_parts(lex, b, parts, from).1 == Outcome::Done,
    ensures
        akin(ran_parts(lex, a, parts, from).0.m, ran_parts(lex, b, parts, from).0.m),
        ran_parts(lex, a, parts, from).0.replaced_previous == ran_parts(
            lex,
            b,
            parts,
            from,
        ).0.replaced_previous,
    decreases parts.len() - from,
{
    if from < parts.len() {
        let part = parts[from];
        assert(!(part is PloverCommand));
        assert(ran_step(lex, a, part) == (match ran_part(lex, a, part) {
            None => (a, Outcome::Fault),
            Some(after) => (after, Outcome::Done),
        }));
        assert(ran_step(lex, b, part) == (match ran_part(lex, b, part) {
            None => (b, Outcome::Fault),
            Some(after) => (after, Outcome::Done),
        }));
        lemma_akin_part(lex, a, b, part);
        lemma_ran_part_backlog(lex, a, part);
        lemma_ran_part_backlog(lex, b, part);
        lemma_akin_parts(
            lex,
            ran_part(lex, a, part).unwrap(),
            ran_part(lex, b, part).unwrap(),
            parts,
            from + 1,
        );
    }
}

/// A chord that runs no command does to the state, to the backlog and to
/// the text in progress what it does to them in an engine that differs at
/// most in its output.
proof fn lemma_akin_keys(lex: Lexicon, a: EngineModel, b: EngineModel, chord: Keys)
    requires
        akin(a, b),
        plain(found_action(lex, a.backlog, chord).parts()),
        ran_keys(lex, a, chord).1 == Outcome::Done,
        ran_keys(lex, b, chord).1 == Outcome::Done,
    ensures
        akin(ran_keys(lex, a, chord).0, ran_keys(lex, b, chord).0),
{
    reveal(finished);
    let action = found_action(lex, a.backlog, chord);
    match (took_back_many(a, action.delete_before), took_back_many(b, action.delete_before)) {
        (Some(start_a), Some(start_b)) => {
            lemma_akin_took_back_many(a, b, action.delete_before);
            lemma_akin_parts(
                lex,
                Run { m: start_a, replaced_previous: false },
                Run { m: start_b, replaced_previous: false },
                action.parts(),
                0,
            );
        },
        _ => {},
    }
}

proof fn lemma_retraced_akin(lex: Lexicon, a: EngineModel, b: EngineModel)
    requires
        retraced(lex, a),
        akin(a, b),
    ensures
        retraced(lex, b),
{
    assert forall|at: int| 0 <= at < b.backlog.len() implies #[trigger] traced_at(
        lex,
        b.backlog,
        at,
    ) by {
        assert(traced_at(lex, a.backlog, at));
    }
}

/// A chord that only writes keeps the engine where the chords of its
/// backlog lead.
proof fn lemma_retraced_written(lex: Lexicon, m: EngineModel, chord: Keys)
    requires
        spelling_writes(),
        retraced(lex, m),
        writes(lex, m, chord),
        m.backlog.len() < BACKLOG_DEPTH,
    ensures
        retraced(lex, ran_keys(lex, m, chord).0),
        chords_of(ran_keys(lex, m, chord).0.backlog) == chords_of(m.backlog).push(chord),
{
    let bare = Seq::<char>::empty();
    let history = chords_of(m.backlog);
    let replay = ran_all(lex, initial_engine(), history, 0).0;
    let after = ran_keys(lex, m, chord).0;
    let count = found_action(lex, m.backlog, chord).delete_before;
    lemma_writing_step(lex, m, chord);
    lemma_last_event_text(lex, m, chord);
    let kept = m.backlog.len() - count;
    let head = m.backlog.take(kept);
    let tail = m.backlog.skip(kept);
    assert(m.backlog =~= head + tail);
    lemma_chords_of_concat(head, tail);
    assert(after.backlog =~= head.push(after.backlog.last()));
    assert(head.push(after.backlog.last()).drop_last() =~= head);
    assert(chords_of(after.backlog) =~= history.push(chord)) by {
        assert(chords_of(head) + (chords_of(tail) + seq![chord]) =~= (chords_of(head) + chords_of(
            tail,
        )).push(chord));
    }
    // The chords of the backlog lead to an engine that differs from this
    // one at most in its output, and the chord runs there as it does here.
    lemma_step_initial();
    lemma_step_all(lex, bare, initial_engine(), history, 0);
    assert(replay.in_progress =~= m.in_progress);
    assert(akin(replay, m));
    lemma_bare_keys(lex, replay, chord);
    lemma_akin_keys(lex, replay, m, chord);
    lemma_ran_all_push(lex, initial_engine(), history, chord, 0);
    lemma_sound_keys(lex, m, chord);
    assert(traced(lex, after.backlog, after.state));
    assert forall|at: int| 0 <= at < after.backlog.len() implies #[trigger] traced_at(
        lex,
        after.backlog,
        at,
    ) by {
        if at < kept {
            assert(after.backlog.take(at) =~= m.backlog.take(at));
            assert(after.backlog[at] == m.backlog[at]);
            assert(traced_at(lex, m.backlog, at));
        } else {
            assert(after.backlog.take(at) =~= head);
            if count == 0 {
                assert(head =~= m.backlog);
            } else {
                assert(traced_at(lex, m.backlog, kept));
            }
        }
    }
}

/// Taking the newest event back keeps the engine where the chords of its
/// backlog lead.
proof fn lemma_retraced_took_back(lex: Lexicon, m: EngineModel)
    requires
        retraced(lex, m),
        m.backlog.len() > 0,
        took_back(m) is Some,
    ensures
        retraced(lex, took_back(m).unwrap().0),
        took_back(m).unwrap().1 == Some(m.backlog.last()),
        took_back(m).unwrap().0.backlog == m.backlog.drop_last(),
{
    reveal(took_back);
    let after = took_back(m).unwrap().0;
    let rest = m.backlog.len() - 1;
    assert(took_back_many(m, 1) == Some(after)) by {
        assert(took_back_many(after, 0) == Some(after));
    }
    lemma_sound_took_back_many(m, 1);
    assert(m.backlog.drop_last() =~= m.backlog.take(rest));
    assert(traced_at(lex, m.backlog, rest));
    assert forall|at: int| 0 <= at < after.backlog.len() implies #[trigger] traced_at(
        lex,
        after.backlog,
        at,
    ) by {
        assert(after.backlog.take(at) =~= m.backlog.take(at));
        assert(traced_at(lex, m.backlog, at));
    }
}

/// Chords that only write keep the engine where the chords of its backlog
/// lead, and each of them adds itself to these chords.
proof fn lemma_retraced_written_all(lex: Lexicon, m: EngineModel, chords: Seq<Keys>, from: int)
    requires
        spelling_writes(),
        retraced(lex, m),
        all_write(lex, m, chords, from),
        0 <= from <= chords.len(),
        chords_of(m.backlog).len() + (chords.len() - from) <= BACKLOG_DEPTH,
    ensures
        ran_all(lex, m, chords, from).1 == Outcome::Done,
        reran(lex, m, chords, from) == ran_all(lex, m, chords, from),
        retraced(lex, ran_all(lex, m, chords, from).0),
        chords_of(ran_all(lex, m, chords, from).0.backlog) == chords_of(m.backlog) + chords.skip(
            from,
        ),
    decreases chords.len() - from,
{
    if from < chords.len() {
        lemma_chords_of_len(m.backlog);
        lemma_retraced_written(lex, m, chords[from]);
        lemma_sound_keys(lex, m, chords[from]);
        let after = ran_keys(lex, m, chords[from]).0;
        lemma_retraced_written_all(lex, after, chords, from + 1);
        assert(chords_of(m.backlog).push(chords[from]) + chords.skip(from + 1) =~= chords_of(
            m.backlog,
        ) + chords.skip(from));
    } else {
        assert(chords_of(m.backlog) + chords.skip(from) =~= chords_of(m.backlog));
    }
}

/// A chord that only takes back keeps the engine where the chords of its
/// backlog lead.
proof fn lemma_retraced_undone(lex: Lexicon, m: EngineModel, chord: Keys)
    requires
        spelling_writes(),
        retraced(lex, m),
        undoes(lex, m, chord),
        chords_of(m.backlog).len() <= BACKLOG_DEPTH,
    ensures
        retraced(lex, ran_keys(lex, m, chord).0),
        chords_of(ran_keys(lex, m, chord).0.backlog).len() <= chords_of(m.backlog).len(),
{
    reveal(finished);
    let back = undo_action(chord);
    assert(ran_keys(lex, m, chord) == ran_action(lex, m, back));
    assert(took_back_many(m, 0) == Some(m));
    let first = Run { m, replaced_previous: false };
    assert(back.parts() == back.entry);
    assert(back.parts().len() == 1);
    assert(back.parts()[0] == PartModel::PloverCommand(PloverCommand::Backspace));
    let (undone, outcome) = undid_stroke(lex, m);
    assert(ran_step(lex, first, back.parts()[0]) == (Run { m: undone, ..first }, outcome));
    lemma_took_back_total(m);
    lemma_sound_undid(lex, m);
    match took_back(m) {
        None => {
            assert(ran_parts(lex, first, back.parts(), 0).1 == Outcome::Fault);
        },
        Some((after, popped)) => {
            if m.backlog.len() == 0 {
                assert(popped is None && akin(m, after)) by {
                    reveal(took_back);
                }
                lemma_retraced_akin(lex, m, after);
            } else {
                lemma_retraced_took_back(lex, m);
                let event = m.backlog.last();
                let again = event.strokes.drop_last();
                assert(event.strokes.len() >= 1);
                lemma_retraced_written_all(lex, after, again, 0);
            }
            assert(outcome == Outcome::Done);
            assert(retraced(lex, undone));
            assert(chords_of(undone.backlog).len() <= chords_of(m.backlog).len());
            assert(ran_parts(lex, first, back.parts(), 0) == ran_parts(
                lex,
                Run { m: undone, ..first },
                back.parts(),
                1,
            ));
            assert(ran_parts(lex, Run { m: undone, ..first }, back.parts(), 1) == (
                Run { m: undone, ..first },
                Outcome::Done,
            ));
            assert(ran_keys(lex, m, chord).0 == undone);
        },
    }
}

proof fn lemma_ran_all_push(lex: Lexicon, m: EngineModel, chords: Seq<Keys>, chord: Keys, from: int)
    requires
        0 <= from <= chords.len(),
        ran_all(lex, m, chords, from).1 == Outcome::Done,
    ensures
        ran_all(lex, m, chords.push(chord), from) == ran_keys(
            lex,
            ran_all(lex, m, chords, from).0,
            chord,
        ),
    decreases chords.len() - from,
{
    let longer = chords.push(chord);
    if from < chords.len() {
        assert(longer[from] == chords[from]);
        lemma_ran_all_push(lex, ran_keys(lex, m, chords[from]).0, chords, chord, from + 1);
    } else {
        assert(longer[from] == chord);
        let after = ran_keys(lex, m, chord);
        if after.1 == Outcome::Done {
            assert(ran_all(lex, after.0, longer, from + 1) == (after.0, Outcome::Done));
        }
    }
}

proof fn lemma_replay_upto(lex: Lexicon, chords: Seq<Keys>, upto: int)
    requires
        spelling_writes(),
        0 <= upto <= chords.len(),
        chords.len() <= BACKLOG_DEPTH,
        all_write_or_undo(lex, initial_engine(), chords, 0),
    ensures
        ran_all(lex, initial_engine(), chords.take(upto), 0).1 == Outcome::Done,
        retraced(lex, ran_all(lex, initial_engine(), chords.take(upto), 0).0),
        chords_of(ran_all(lex, initial_engine(), chords.take(upto), 0).0.backlog).len() <= upto,
        all_write_or_undo(
            lex,
            ran_all(lex, initial_engine(), chords.take(upto), 0).0,
            chords,
            upto,
        ),
    decreases upto,
{
    if upto == 0 {
        assert(chords.take(0) =~= Seq::<Keys>::empty());
        assert(ran_all(lex, initial_engine(), chords.take(0), 0) == (
            initial_engine(),
            Outcome::Done,
        ));
        assert(chords_of(initial_engine().backlog) =~= Seq::<Keys>::empty());
        assert(ran_all(lex, initial_engine(), chords_of(initial_engine().backlog), 0) == (
            initial_engine(),
            Outcome::Done,
        ));
    } else {
        lemma_replay_upto(lex, chords, upto - 1);
        let history = chords.take(upto - 1);
        let chord = chords[upto - 1];
        let m = ran_all(lex, initial_engine(), history, 0).0;
        assert(chords.take(upto) =~= history.push(chord));
        lemma_ran_all_push(lex, initial_engine(), history, chord, 0);
        if writes(lex, m, chord) {
            lemma_chords_of_len(m.backlog);
            lemma_retraced_written(lex, m, chord);
        } else {
            lemma_retraced_undone(lex, m, chord);
        }
    }
}

proof fn lemma_last_event_text(lex: Lexicon, m: EngineModel, chord: Keys)
    requires
        writes(lex, m, chord),
        m.backlog.len() < BACKLOG_DEPTH,
    ensures
        ran_keys(lex, m, chord).0.backlog.len() > 0,
        ran_keys(lex, m, chord).0.backlog.last().text.len() >= 1,
        ran_keys(lex, m, chord).0.backlog.last().strokes.len() >= 1,
        ran_keys(lex, m, chord).0.in_progress.len() == 0,
{
    reveal(finished);
    let action = found_action(lex, m.backlog, chord);
    lemma_found_action_chords(lex, m.backlog, chord);
    assert(ran_keys(lex, m, chord) == ran_action(lex, m, action));
}

/// The backlog can be replayed. Let chords be run from a new engine, no
/// more of them than the backlog holds, each of which only writes or only
/// takes back. Then for each event of the backlog, the chords of the events
/// before it, run from a new engine, lead to the state that the event holds
/// as the one before it.
pub proof fn lemma_replay(lex: Lexicon, chords: Seq<Keys>)
    requires
        spelling_writes(),
        chords.len() <= BACKLOG_DEPTH,
        all_write_or_undo(lex, initial_engine(), chords, 0),
    ensures
        ran_all(lex, initial_engine(), chords, 0).1 == Outcome::Done,
        replayable(lex, ran_all(lex, initial_engine(), chords, 0).0.backlog),
{
    lemma_replay_upto(lex, chords, chords.len() as int);
    assert(chords.take(chords.len() as int) =~= chords);
    let backlog = ran_all(lex, initial_engine(), chords, 0).0.backlog;
    assert forall|at: int| 0 <= at < backlog.len() implies (#[trigger] ran_all(
        lex,
        initial_engine(),
        chords_of(backlog.take(at)),
        0,
    )).1 == Outcome::Done && ran_all(
        lex,
        initial_engine(),
        chords_of(backlog.take(at)),
        0,
    ).0.state == backlog[at].state_before by {
        assert(traced_at(lex, backlog, at));
    }
}

/// After chords that only write, the chords of the events of the backlog
/// are the chords that were run.
pub proof fn lemma_replay_written(lex: Lexicon, chords: Seq<Keys>)
    requires
        spelling_writes(),
        chords.len() <= BACKLOG_DEPTH,
        all_write(lex, initial_engine(), chords, 0),
    ensures
        ran_all(lex, initial_engine(), chords, 0).1 == Outcome::Done,
        chords_of(ran_all(lex, initial_engine(), chords, 0).0.backlog) == chords,
{
    assert(chords_of(initial_engine().backlog) =~= Seq::<Keys>::empty());
    assert(ran_all(lex, initial_engine(), chords_of(initial_engine().backlog), 0) == (
        initial_engine(),
        Outcome::Done,
    ));
    lemma_retraced_written_all(lex, initial_engine(), chords, 0);
    assert(chords_of(initial_engine().backlog) + chords.skip(0) =~= chords);
}

} // verus!
