use vstd::prelude::*;

use crate::dict::entry::PartModel;
use crate::keys::Keys;
use crate::steno::model::{
    found_action, joinable, lemma_took_back_total, longest_match, split_suffix_spec, strokes_after,
    took_back, took_back_many, total_strokes, EngineModel, EventModel, Lexicon,
};

verus! {

/// The number of chords that the events of `events` from the place `from`
/// on stand for together.
pub open spec fn chords_from(events: Seq<EventModel>, from: int) -> nat
    decreases events.len() - from,
{
    if from < 0 || from >= events.len() {
        0
    } else {
        events[from].strokes.len() + chords_from(events, from + 1)
    }
}

proof fn lemma_strokes_after_len(events: Seq<EventModel>, from: int, last: Keys)
    requires
        0 <= from,
    ensures
        strokes_after(events, from, last).len() == chords_from(events, from) + 1,
    decreases events.len() - from,
{
    if from < events.len() {
        lemma_strokes_after_len(events, from + 1, last);
    }
}

proof fn lemma_chords_from_drop_last(events: Seq<EventModel>, from: int)
    requires
        0 <= from < events.len(),
    ensures
        chords_from(events, from) == chords_from(events.drop_last(), from)
            + events.last().strokes.len(),
    decreases events.len() - from,
{
    if from + 1 < events.len() {
        lemma_chords_from_drop_last(events, from + 1);
        assert(events.drop_last()[from] == events[from]);
    } else {
        assert(chords_from(events, from + 1) == 0);
        assert(chords_from(events.drop_last(), from) == 0);
    }
}

proof fn lemma_total_strokes_split(backlog: Seq<EventModel>, at: int)
    requires
        0 <= at <= backlog.len(),
    ensures
        total_strokes(backlog) == total_strokes(backlog.take(at)) + chords_from(backlog, at),
    decreases backlog.len(),
{
    if at == backlog.len() {
        assert(backlog.take(at) =~= backlog);
    } else {
        lemma_total_strokes_split(backlog.drop_last(), at);
        assert(backlog.drop_last().take(at) =~= backlog.take(at));
        lemma_chords_from_drop_last(backlog, at);
    }
}

proof fn lemma_chords_from_tail(backlog: Seq<EventModel>, events: Seq<EventModel>, from: int)
    requires
        events.len() <= backlog.len(),
        events == backlog.subrange(backlog.len() - events.len(), backlog.len() as int),
        0 <= from,
    ensures
        chords_from(events, from) == chords_from(backlog, backlog.len() - events.len() + from),
    decreases events.len() - from,
{
    if from < events.len() {
        lemma_chords_from_tail(backlog, events, from + 1);
    }
}

/// Taking events back leaves the older events of the backlog as they are.
pub proof fn lemma_took_back_many_backlog(m: EngineModel, count: nat)
    requires
        count <= m.backlog.len(),
    ensures
        took_back_many(m, count) matches Some(after) ==> after.backlog == m.backlog.take(
            m.backlog.len() - count,
        ),
    decreases count,
{
    if count == 0 {
        assert(m.backlog.take(m.backlog.len() as int) =~= m.backlog);
    } else {
        lemma_took_back_total(m);
        match took_back(m) {
            Some((after, _)) => {
                lemma_took_back_many_backlog(after, (count - 1) as nat);
                assert(m.backlog.drop_last().take(m.backlog.len() - count) =~= m.backlog.take(
                    m.backlog.len() - count,
                ));
            },
            None => {},
        }
    }
}

/// A match leaves out no more events than there are.
pub proof fn lemma_longest_match_bounds(
    dict: Map<Seq<Keys>, Seq<PartModel>>,
    events: Seq<EventModel>,
    from: int,
    last: Keys,
)
    requires
        0 <= from,
    ensures
        longest_match(dict, events, from, last) matches Some(skipped) ==> from <= skipped
            <= events.len(),
    decreases events.len() - from,
{
    if from < events.len() && !dict.contains_key(strokes_after(events, from, last)) {
        lemma_longest_match_bounds(dict, events, from + 1, last);
    }
}

/// What holds of an action that joins the newest events of a backlog from
/// the place `skipped` of the joinable ones on.
proof fn lemma_joined_strokes(lex: Lexicon, m: EngineModel, keys: Keys, skipped: int)
    requires
        0 <= skipped <= joinable(lex, m.backlog).len(),
    ensures
        strokes_after(joinable(lex, m.backlog), skipped, keys).len() >= 1,
        took_back_many(m, (joinable(lex, m.backlog).len() - skipped) as nat) matches Some(after)
            ==> total_strokes(after.backlog) + strokes_after(
            joinable(lex, m.backlog),
            skipped,
            keys,
        ).len() <= total_strokes(m.backlog) + 1,
{
    let events = joinable(lex, m.backlog);
    let count = (events.len() - skipped) as nat;
    assert(events.len() <= m.backlog.len());
    assert(events =~= m.backlog.subrange(m.backlog.len() - events.len(), m.backlog.len() as int));
    lemma_strokes_after_len(events, skipped, keys);
    lemma_took_back_many_backlog(m, count);
    lemma_total_strokes_split(m.backlog, m.backlog.len() - count);
    lemma_chords_from_tail(m.backlog, events, skipped);
}

/// The chords of the action for a chord are those of the events that the
/// action takes back, and the chord itself.
pub proof fn lemma_found_action_strokes(lex: Lexicon, m: EngineModel, keys: Keys)
    ensures
        found_action(lex, m.backlog, keys).strokes.len() >= 1,
        took_back_many(m, found_action(lex, m.backlog, keys).delete_before) matches Some(after)
            ==> total_strokes(after.backlog) + found_action(lex, m.backlog, keys).strokes.len()
            <= total_strokes(m.backlog) + 1,
{
    reveal(found_action);
    let events = joinable(lex, m.backlog);
    lemma_longest_match_bounds(lex.dict, events, 0, keys);
    match longest_match(lex.dict, events, 0, keys) {
        Some(skipped) => {
            lemma_joined_strokes(lex, m, keys, skipped);
        },
        None => {},
    }
    match split_suffix_spec(keys) {
        Some((body, suffix)) => {
            lemma_longest_match_bounds(lex.dict, events, 0, body);
            match longest_match(lex.dict, events, 0, body) {
                Some(skipped) => {
                    lemma_joined_strokes(lex, m, keys, skipped);
                },
                None => {},
            }
        },
        None => {},
    }
}

/// An action that joins no event stands for its own chord alone.
pub proof fn lemma_alone_strokes(lex: Lexicon, backlog: Seq<EventModel>, keys: Keys)
    requires
        found_action(lex, backlog, keys).delete_before == 0,
    ensures
        found_action(lex, backlog, keys).strokes == seq![keys],
{
    reveal(found_action);
    let events = joinable(lex, backlog);
    lemma_longest_match_bounds(lex.dict, events, 0, keys);
    match split_suffix_spec(keys) {
        Some((body, suffix)) => {
            lemma_longest_match_bounds(lex.dict, events, 0, body);
        },
        None => {},
    }
}

} // verus!
