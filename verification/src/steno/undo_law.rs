use vstd::prelude::*;

use crate::dict::entry::{PartModel, PloverCommand};
use crate::keys::Keys;
use crate::steno::events_wf;
use crate::steno::measure::lemma_alone_strokes;
use crate::steno::model::{
    backlog_pushed, finished, found_action, joined_suffix, lemma_ran_part_backlog,
    lemma_took_back_total, ran_action,
    ran_keys, ran_part, ran_parts, ran_step, removed_previous, reran, took_back, took_back_many,
    total_strokes, undid_stroke, wrote, wrote_word, ActionModel, EngineModel, EventModel,
    InputState, Lexicon, Outcome, Run, BACKLOG_DEPTH,
};
use crate::steno::orthography::orthography;
use crate::steno::output::text_deleted;
use crate::steno::surface::{
    drop_end, ends_with, lemma_drop_end_added, lemma_drop_end_restore, lemma_ends_with_added_tail,
    lemma_typed_appended, lemma_typed_deleted, typed,
};
use crate::text::{capitalized, lowered, trimmed};

verus! {

/// Whether no part of `parts` is a command.
pub open spec fn plain(parts: Seq<PartModel>) -> bool {
    forall|i: int| 0 <= i < parts.len() ==> !(#[trigger] parts[i] is PloverCommand)
}

/// Whether no rule of spelling makes the empty text of a word and an
/// ending.
pub open spec fn spelling_writes() -> bool {
    forall|first: Seq<char>, second: Seq<char>| #[trigger]
        orthography(first, second) != Some(Seq::<char>::empty())
}

/// What an action without commands that began in the state `m` has made
/// of the surface `surface` so far: it has left the backlog alone, and the
/// surface holds what it held before, without the text of the newest event
/// if the action replaced it, and then what the action wrote.
pub open spec fn plain_run(m: EngineModel, surface: Seq<char>, run: Run) -> bool {
    let before = typed(surface, m.output);
    &&& run.m.backlog == m.backlog
    &&& run.m.output.delete_words == m.output.delete_words
    &&& run.replaced_previous ==> m.backlog.len() > 0 && run.m.in_progress.len() > 0
    &&& typed(surface, run.m.output) == (if run.replaced_previous {
        drop_end(before, m.backlog.last().text.len() as int)
    } else {
        before
    }) + run.m.in_progress
}

proof fn lemma_wrote(m: EngineModel, surface: Seq<char>, text: Seq<char>)
    ensures
        typed(surface, wrote(m, text).output) == typed(surface, m.output) + text,
        wrote(m, text).in_progress == m.in_progress + text,
        wrote(m, text).backlog == m.backlog,
        wrote(m, text).state == m.state,
        wrote(m, text).output.delete_words == m.output.delete_words,
{
    lemma_typed_appended(surface, m.output, text);
}

/// What a written word adds to the output and to the text in progress.
pub open spec fn word_text(m: EngineModel, text: Seq<char>) -> Seq<char> {
    (if m.state.space {
        seq![' ']
    } else {
        Seq::empty()
    }) + (if m.state.caps {
        capitalized(text)
    } else {
        text
    })
}

proof fn lemma_wrote_word(m: EngineModel, surface: Seq<char>, text: Seq<char>)
    ensures
        typed(surface, wrote_word(m, text).output) == typed(surface, m.output) + word_text(
            m,
            text,
        ),
        wrote_word(m, text).in_progress == m.in_progress + word_text(m, text),
        wrote_word(m, text).backlog == m.backlog,
        wrote_word(m, text).output.delete_words == m.output.delete_words,
        word_text(m, text).len() >= text.len(),
{
    reveal(wrote_word);
    let added = word_text(m, text);
    if m.state.space {
        lemma_wrote(m, surface, seq![' ']);
        let spaced = wrote(m, seq![' ']);
        let word = if m.state.caps {
            capitalized(text)
        } else {
            text
        };
        lemma_wrote(spaced, surface, word);
        assert(typed(surface, m.output) + seq![' '] + word =~= typed(surface, m.output) + added);
        assert(m.in_progress + seq![' '] + word =~= m.in_progress + added);
    } else {
        let word = if m.state.caps {
            capitalized(text)
        } else {
            text
        };
        lemma_wrote(m, surface, word);
        assert(added =~= word);
    }
}

proof fn lemma_plain_wrote(m: EngineModel, surface: Seq<char>, run: Run, text: Seq<char>)
    requires
        plain_run(m, surface, run),
    ensures
        plain_run(m, surface, Run { m: wrote(run.m, text), ..run }),
{
    lemma_wrote(run.m, surface, text);
    let base = typed(surface, run.m.output);
    let before = typed(surface, m.output);
    let start = if run.replaced_previous {
        drop_end(before, m.backlog.last().text.len() as int)
    } else {
        before
    };
    assert(start + run.m.in_progress + text =~= start + (run.m.in_progress + text));
}

proof fn lemma_plain_wrote_word(m: EngineModel, surface: Seq<char>, run: Run, text: Seq<char>)
    requires
        plain_run(m, surface, run),
    ensures
        plain_run(m, surface, Run { m: wrote_word(run.m, text), ..run }),
        wrote_word(run.m, text).in_progress.len() >= run.m.in_progress.len() + text.len(),
{
    lemma_wrote_word(run.m, surface, text);
    let before = typed(surface, m.output);
    let start = if run.replaced_previous {
        drop_end(before, m.backlog.last().text.len() as int)
    } else {
        before
    };
    let added = word_text(run.m, text);
    assert(start + run.m.in_progress + added =~= start + (run.m.in_progress + added));
}

proof fn lemma_plain_joined(
    lex: Lexicon,
    m: EngineModel,
    surface: Seq<char>,
    run: Run,
    previous: Seq<char>,
    suffix: Seq<char>,
)
    requires
        plain_run(m, surface, run),
        spelling_writes(),
        previous.len() > 0,
    ensures
        plain_run(m, surface, Run { m: joined_suffix(lex, run.m, previous, suffix), ..run }),
        joined_suffix(lex, run.m, previous, suffix).in_progress.len() > 0,
{
    reveal(joined_suffix);
    if !lex.words.contains(trimmed(lowered(previous + suffix))) && orthography(previous, suffix)
        is Some {
        let combined = orthography(previous, suffix).unwrap();
        assert(combined.len() > 0) by {
            if combined.len() == 0 {
                assert(combined =~= Seq::<char>::empty());
            }
        }
        lemma_plain_wrote_word(m, surface, run, combined);
    } else {
        lemma_plain_wrote_word(m, surface, run, previous);
        lemma_plain_wrote(m, surface, Run { m: wrote_word(run.m, previous), ..run }, suffix);
        lemma_wrote(wrote_word(run.m, previous), surface, suffix);
    }
}

/// A part that is no command keeps `plain_run`.
proof fn lemma_plain_part(
    lex: Lexicon,
    m: EngineModel,
    surface: Seq<char>,
    run: Run,
    part: PartModel,
)
    requires
        plain_run(m, surface, run),
        events_wf(m.backlog),
        spelling_writes(),
        !(part is PloverCommand),
        ran_part(lex, run, part) is Some,
        ran_part(lex, run, part).unwrap().replaced_previous && m.backlog.len() > 0 ==> ends_with(
            typed(surface, m.output),
            m.backlog.last().text,
        ),
    ensures
        plain_run(m, surface, ran_part(lex, run, part).unwrap()),
{
    reveal(ran_part);
    let before = typed(surface, m.output);
    match part {
        PartModel::Verbatim(text) => {
            lemma_plain_wrote_word(m, surface, run, text);
        },
        PartModel::Suffix(suffix) => {
            reveal(removed_previous);
            let (removed, previous) = removed_previous(run.m).unwrap();
            let bare = EngineModel {
                state: InputState { space: false, ..removed.state },
                ..removed
            };
            if run.m.in_progress.len() > 0 {
                let start = if run.replaced_previous {
                    drop_end(before, m.backlog.last().text.len() as int)
                } else {
                    before
                };
                lemma_ends_with_added_tail(start, run.m.in_progress);
                lemma_typed_deleted(surface, run.m.output, run.m.in_progress);
                lemma_drop_end_added(start, run.m.in_progress);
                let cleared = Run { m: bare, replaced_previous: false };
                assert(typed(surface, bare.output) == start);
                assert(start + bare.in_progress =~= start);
                if run.replaced_previous {
                    lemma_joined_after_clear(lex, m, surface, run, bare, suffix);
                } else {
                    assert(plain_run(m, surface, cleared));
                    lemma_plain_joined(lex, m, surface, cleared, run.m.in_progress, suffix);
                }
            } else if run.m.backlog.len() > 0 {
                let text = run.m.backlog.last().text;
                assert(typed(surface, run.m.output) =~= before);
                lemma_typed_deleted(surface, run.m.output, text);
                lemma_joined_after_clear(
                    lex,
                    m,
                    surface,
                    Run { replaced_previous: true, ..run },
                    bare,
                    suffix,
                );
            } else {
                let cleared = Run { m: bare, ..run };
                assert(plain_run(m, surface, cleared));
                lemma_plain_wrote_word(m, surface, cleared, suffix);
            }
        },
        PartModel::Glue(text) => {
            if run.m.state.glue {
                lemma_plain_wrote(m, surface, run, text);
            } else {
                lemma_plain_wrote_word(m, surface, run, text);
            }
        },
        PartModel::SpecialPunct(punct) => {
            lemma_plain_wrote(m, surface, run, seq![punct.mark()]);
        },
        _ => {},
    }
}

/// The step of an ending that joins text which the action has replaced:
/// `bare` is the engine right after that text was taken off the output.
proof fn lemma_joined_after_clear(
    lex: Lexicon,
    m: EngineModel,
    surface: Seq<char>,
    run: Run,
    bare: EngineModel,
    suffix: Seq<char>,
)
    requires
        run.replaced_previous,
        m.backlog.len() > 0,
        events_wf(m.backlog),
        spelling_writes(),
        bare.backlog == m.backlog,
        bare.output.delete_words == m.output.delete_words,
        bare.in_progress.len() == 0,
        typed(surface, bare.output) == drop_end(
            typed(surface, m.output),
            m.backlog.last().text.len() as int,
        ),
    ensures
        forall|previous: Seq<char>|
            previous.len() > 0 ==> plain_run(
                m,
                surface,
                Run {
                    m: #[trigger] joined_suffix(lex, bare, previous, suffix),
                    replaced_previous: true,
                },
            ),
{
    assert forall|previous: Seq<char>| previous.len() > 0 implies plain_run(
        m,
        surface,
        Run { m: #[trigger] joined_suffix(lex, bare, previous, suffix), replaced_previous: true },
    ) by {
        reveal(joined_suffix);
        let start = typed(surface, bare.output);
        assert(bare.in_progress =~= Seq::<char>::empty());
        if !lex.words.contains(trimmed(lowered(previous + suffix))) && orthography(
            previous,
            suffix,
        ) is Some {
            let combined = orthography(previous, suffix).unwrap();
            assert(combined.len() > 0) by {
                if combined.len() == 0 {
                    assert(combined =~= Seq::<char>::empty());
                }
            }
            lemma_wrote_word(bare, surface, combined);
            assert(bare.in_progress + word_text(bare, combined) =~= word_text(bare, combined));
        } else {
            lemma_wrote_word(bare, surface, previous);
            let word = wrote_word(bare, previous);
            lemma_wrote(word, surface, suffix);
            assert(bare.in_progress + word_text(bare, previous) =~= word_text(bare, previous));
            assert(start + word_text(bare, previous) + suffix =~= start + (word_text(
                bare,
                previous,
            ) + suffix));
        }
    }
}

/// Once an action without commands has replaced the text of the newest
/// event, it has done so to its end.
proof fn lemma_replaced_stays(lex: Lexicon, run: Run, parts: Seq<PartModel>, from: int)
    requires
        plain(parts),
        0 <= from,
        run.replaced_previous,
    ensures
        ran_parts(lex, run, parts, from).0.replaced_previous,
    decreases parts.len() - from,
{
    if from < parts.len() {
        let part = parts[from];
        assert(!(part is PloverCommand));
        assert(ran_step(lex, run, part) == (match ran_part(lex, run, part) {
            None => (run, Outcome::Fault),
            Some(after) => (after, Outcome::Done),
        }));
        match ran_part(lex, run, part) {
            Some(after) => {
                assert(after.replaced_previous) by {
                    reveal(ran_part);
                }
                lemma_replaced_stays(lex, after, parts, from + 1);
            },
            None => {},
        }
    }
}

/// Parts that are no commands keep `plain_run`, and do not quit.
proof fn lemma_plain_parts(
    lex: Lexicon,
    m: EngineModel,
    surface: Seq<char>,
    run: Run,
    parts: Seq<PartModel>,
    from: int,
)
    requires
        plain_run(m, surface, run),
        events_wf(m.backlog),
        spelling_writes(),
        plain(parts),
        0 <= from,
        ran_parts(lex, run, parts, from).0.replaced_previous && m.backlog.len() > 0 ==> ends_with(
            typed(surface, m.output),
            m.backlog.last().text,
        ),
    ensures
        ran_parts(lex, run, parts, from).1 != Outcome::Quit,
        ran_parts(lex, run, parts, from).1 == Outcome::Done ==> plain_run(
            m,
            surface,
            ran_parts(lex, run, parts, from).0,
        ),
    decreases parts.len() - from,
{
    if from < parts.len() {
        let part = parts[from];
        assert(!(part is PloverCommand));
        assert(ran_step(lex, run, part) == (match ran_part(lex, run, part) {
            None => (run, Outcome::Fault),
            Some(after) => (after, Outcome::Done),
        }));
        match ran_part(lex, run, part) {
            Some(after) => {
                lemma_ran_part_backlog(lex, run, part);
                assert(ran_parts(lex, run, parts, from) == ran_parts(lex, after, parts, from + 1));
                if after.replaced_previous {
                    lemma_replaced_stays(lex, after, parts, from + 1);
                }
                lemma_plain_part(lex, m, surface, run, part);
                lemma_plain_parts(lex, m, surface, after, parts, from + 1);
            },
            None => {
                assert(ran_parts(lex, run, parts, from).1 == Outcome::Fault);
            },
        }
    }
}

/// The action of a chord that only takes the newest event back.
pub open spec fn undo_action(undo: Keys) -> ActionModel {
    ActionModel {
        entry: seq![PartModel::PloverCommand(PloverCommand::Backspace)],
        strokes: seq![undo],
        removed_suffix: None,
        delete_before: 0,
    }
}

/// Whether the chord `chord`, run in the state `m`, writes some text, and
/// so leaves an event.
pub open spec fn leaves_event(lex: Lexicon, m: EngineModel, chord: Keys) -> bool {
    match took_back_many(m, found_action(lex, m.backlog, chord).delete_before) {
        Some(start) => ran_parts(
            lex,
            Run { m: start, replaced_previous: false },
            found_action(lex, m.backlog, chord).parts(),
            0,
        ).0.m.in_progress.len() > 0,
        None => false,
    }
}

/// Backspace is the inverse of a chord that stands alone. Let the chord
/// `chord` join no event, run no command and write some text, and let the
/// chord `undo` after it do nothing but take the newest event back. Then
/// the two chords together leave the state as it was, and also the text of
/// every surface, provided that where the first chord replaced the text of
/// the newest event, that text stood at the end of the surface.
pub proof fn lemma_backspace_is_inverse(
    lex: Lexicon,
    m: EngineModel,
    chord: Keys,
    undo: Keys,
    surface: Seq<char>,
)
    requires
        events_wf(m.backlog),
        spelling_writes(),
        found_action(lex, m.backlog, chord).delete_before == 0,
        plain(found_action(lex, m.backlog, chord).parts()),
        ran_keys(lex, m, chord).1 == Outcome::Done,
        leaves_event(lex, m, chord),
        found_action(lex, ran_keys(lex, m, chord).0.backlog, undo) == undo_action(undo),
        ran_keys(lex, ran_keys(lex, m, chord).0, undo).1 == Outcome::Done,
        ran_keys(lex, m, chord).0.backlog.last().replaced_previous && m.backlog.len() > 0
            ==> ends_with(typed(surface, m.output), m.backlog.last().text),
    ensures
        ran_keys(lex, ran_keys(lex, m, chord).0, undo).0.state == m.state,
        typed(surface, ran_keys(lex, ran_keys(lex, m, chord).0, undo).0.output) == typed(
            surface,
            m.output,
        ),
        ran_keys(lex, ran_keys(lex, m, chord).0, undo).0.output.delete_words
            == m.output.delete_words,
        ran_keys(lex, ran_keys(lex, m, chord).0, undo).0.in_progress == m.in_progress,
        m.backlog.len() < BACKLOG_DEPTH ==> ran_keys(
            lex,
            ran_keys(lex, m, chord).0,
            undo,
        ).0.backlog == m.backlog,
{
    reveal(finished);
    reveal(took_back);
    let action = found_action(lex, m.backlog, chord);
    let before = typed(surface, m.output);
    // The first chord.
    assert(ran_keys(lex, m, chord) == ran_action(lex, m, action));
    assert(m.in_progress.len() == 0);
    assert(m.in_progress =~= Seq::<char>::empty());
    assert(took_back_many(m, 0) == Some(m));
    let first = Run { m, replaced_previous: false };
    let (run, outcome) = ran_parts(lex, first, action.parts(), 0);
    assert(plain_run(m, surface, first)) by {
        assert(before + m.in_progress =~= before);
    }
    assert(outcome == Outcome::Done);
    lemma_alone_strokes(lex, m.backlog, chord);
    let text = run.m.in_progress;
    let event = EventModel {
        strokes: seq![chord],
        replaced_previous: run.replaced_previous,
        text,
        state_before: m.state,
    };
    let m1 = ran_keys(lex, m, chord).0;
    assert(m1 == finished(run, action.strokes, m.state));
    assert(m1.backlog == backlog_pushed(run.m.backlog, event));
    assert(m1.backlog.len() > 0);
    assert(m1.backlog.last() == event);
    lemma_plain_parts(lex, m, surface, first, action.parts(), 0);
    assert(m1.backlog == backlog_pushed(m.backlog, event));
    assert(m1.output == run.m.output);
    assert(m1.in_progress.len() == 0);
    // The second chord.
    let back = undo_action(undo);
    assert(ran_keys(lex, m1, undo) == ran_action(lex, m1, back));
    assert(took_back_many(m1, 0) == Some(m1));
    let second = Run { m: m1, replaced_previous: false };
    assert(back.parts() == back.entry);
    assert(back.parts().len() == 1);
    assert(back.parts()[0] == PartModel::PloverCommand(PloverCommand::Backspace));
    let (undone, undone_outcome) = undid_stroke(lex, m1);
    assert(ran_step(lex, second, back.parts()[0]) == (
        Run { m: undone, ..second },
        undone_outcome,
    ));
    lemma_took_back_total(m1);
    match took_back(m1) {
        None => {
            assert(undone_outcome == Outcome::Fault);
            assert(ran_parts(lex, second, back.parts(), 0).1 == Outcome::Fault);
        },
        Some((after, popped)) => {
            assert(popped == Some(event));
            assert(event.strokes.drop_last() =~= Seq::<Keys>::empty());
            assert(reran(lex, after, event.strokes.drop_last(), 0) == (after, Outcome::Done));
            assert(undone == after);
            assert(undone_outcome == Outcome::Done);
            assert(total_strokes(after.backlog) <= total_strokes(m1.backlog));
            assert(ran_parts(lex, second, back.parts(), 0) == ran_parts(
                lex,
                Run { m: after, ..second },
                back.parts(),
                1,
            ));
            assert(ran_parts(lex, Run { m: after, ..second }, back.parts(), 1) == (
                Run { m: after, ..second },
                Outcome::Done,
            ));
            assert(after.in_progress.len() == 0);
            assert(after.in_progress =~= m.in_progress);
            let m2 = ran_keys(lex, m1, undo).0;
            assert(m2 == after);
            // The surface.
            let rest = m1.backlog.drop_last();
            let start = if run.replaced_previous {
                drop_end(before, m.backlog.last().text.len() as int)
            } else {
                before
            };
            assert(typed(surface, m1.output) == start + text);
            lemma_ends_with_added_tail(start, text);
            lemma_typed_deleted(surface, m1.output, text);
            lemma_drop_end_added(start, text);
            let erased = text_deleted(m1.output, text).unwrap();
            assert(typed(surface, erased) == start);
            if m.backlog.len() >= BACKLOG_DEPTH {
                assert(rest =~= m.backlog.drop_first());
                if m.backlog.len() > 0 {
                    assert(rest.len() > 0);
                    assert(rest.last() == m.backlog.last());
                }
            } else {
                assert(rest =~= m.backlog);
            }
            if event.replaced_previous {
                assert(m.backlog.len() > 0);
                assert(rest.len() > 0);
                assert(rest.last().text == m.backlog.last().text);
                lemma_typed_appended(surface, erased, rest.last().text);
                lemma_drop_end_restore(before, m.backlog.last().text);
            }
        },
    }
}

/// A word is deleted only while the edit types nothing: where taking back
/// from an empty backlog is possible at all, the edit held no text to type
/// before, and it holds none afterwards.
pub proof fn lemma_word_deleted_without_text(m: EngineModel)
    requires
        m.backlog.len() == 0,
        took_back(m) is Some,
    ensures
        m.output.append.len() == 0,
        took_back(m).unwrap().0.output.append.len() == 0,
        took_back(m).unwrap().0.output.delete_words == m.output.delete_words + 1,
        took_back(m).unwrap().0.output.delete == m.output.delete,
        took_back(m).unwrap().1 is None,
{
    reveal(took_back);
}

/// Only the taking back from an empty backlog deletes a word.
pub proof fn lemma_words_kept(m: EngineModel)
    requires
        m.backlog.len() > 0,
        took_back(m) is Some,
    ensures
        took_back(m).unwrap().0.output.delete_words == m.output.delete_words,
{
    reveal(took_back);
}

} // verus!
