use vstd::prelude::*;

pub mod backlog_law;
pub mod buffer;
pub mod dict;
pub mod find_action;
pub mod flush_law;
pub mod measure;
pub mod model;
pub mod orthography;
pub mod output;
pub mod replay_law;
pub mod run_action;
pub mod step_law;
pub mod surface;
pub mod undo_law;
pub mod word_list;

pub use self::dict::Dict;
pub use self::output::Output;
pub use self::word_list::WordList;
use crate::bounded_queue::BoundedQueue;
use crate::keys::Keys;
use crate::steno::model::{
    events_view, initial_engine, ran_keys, EngineModel, EventModel, InputEvent, InputState, Lexicon,
    Outcome, BACKLOG_DEPTH,
};
use crate::steno::orthography::Orthography;
use crate::steno::output::no_output;

verus! {

/// What a chord can ask of the one who runs the engine.
#[derive(Debug, Clone, Copy, PartialEq, Eq, Structural)]
pub enum SpecialAction {
    /// To end the program.
    Quit,
}

/// The translation engine: it takes chords and gathers the edit that they
/// make of the text typed so far.
///
/// Its view is its state as plain values.
#[derive(Debug)]
pub struct Steno<D = crate::dict::Dict, W = crate::word_list::WordList> {
    pub(crate) dict: D,
    pub(crate) word_list: W,
    pub(crate) orthography: Orthography,
    pub(crate) state: InputState,
    pub(crate) backlog: BoundedQueue<InputEvent>,
    pub(crate) output_in_progress: Output,
    pub(crate) backlog_entry_in_progress: String,
}

impl<D: Dict, W: WordList> View for Steno<D, W> {
    type V = EngineModel;

    open(crate) spec fn view(&self) -> EngineModel {
        EngineModel {
            state: self.state,
            backlog: events_view(self.backlog@),
            output: self.output_in_progress@,
            in_progress: self.backlog_entry_in_progress@,
        }
    }
}

/// Every event of a backlog stands for at least one chord and holds some
/// text.
pub open spec fn events_wf(backlog: Seq<EventModel>) -> bool {
    forall|i: int|
        0 <= i < backlog.len() ==> (#[trigger] backlog[i]).strokes.len() >= 1
            && backlog[i].text.len() >= 1
}

impl<D: Dict, W: WordList> Steno<D, W> {
    /// What the engine looks things up in.
    pub open(crate) spec fn lexicon(&self) -> Lexicon {
        Lexicon {
            dict: self.dict.entries(),
            max_strokes: self.dict.longest(),
            words: self.word_list.words(),
        }
    }

    /// The backlog is within its depth, and each of its events stands for a
    /// chord and holds text.
    pub open(crate) spec fn wf(&self) -> bool {
        &&& self.backlog.wf()
        &&& self.backlog.bound() == BACKLOG_DEPTH
        &&& self.orthography.wf()
        &&& events_wf(self@.backlog)
    }

    /// Whether `other` looks things up in the same dictionary and word
    /// list.
    pub open(crate) spec fn same_setup(&self, other: &Self) -> bool {
        &&& self.dict == other.dict
        &&& self.word_list == other.word_list
        &&& self.orthography == other.orthography
        &&& self.backlog.bound() == other.backlog.bound()
    }

    /// Whether `other` holds the same events.
    pub open(crate) spec fn same_events(&self, other: &Self) -> bool {
        self.backlog == other.backlog
    }

    /// A well-formed engine keeps no more events than the backlog's depth,
    /// and none without text.
    pub proof fn lemma_wf(&self)
        requires
            self.wf(),
        ensures
            self@.backlog.len() <= BACKLOG_DEPTH,
            events_wf(self@.backlog),
    {
        self.backlog.lemma_within_limit();
    }

    /// A new engine over a dictionary and a list of words.
    pub fn new(dict: D, word_list: W) -> (r: Self)
        ensures
            r.wf(),
            r@ == initial_engine(),
            r.lexicon() == (Lexicon {
                dict: dict.entries(),
                max_strokes: dict.longest(),
                words: word_list.words(),
            }),
    {
        let r = Steno {
            dict,
            word_list,
            orthography: Orthography::new(),
            state: InputState::new(),
            backlog: BoundedQueue::new(BACKLOG_DEPTH),
            output_in_progress: Output::default(),
            backlog_entry_in_progress: String::new(),
        };
        assert(events_view(r.backlog@) =~= Seq::<EventModel>::empty());
        r
    }

    /// How the next text is to be written.
    pub fn state(&self) -> (r: InputState)
        ensures
            r == self@.state,
    {
        self.state
    }

    /// The events that can still be taken back, oldest first.
    pub fn backlog(&self) -> (r: &BoundedQueue<InputEvent>)
        ensures
            events_view(r@) == self@.backlog,
    {
        &self.backlog
    }

    /// Runs the chord `keys`. The chord must be one that the engine can
    /// run in its present state.
    pub fn run_keys(&mut self, keys: Keys) -> (r: Result<(), SpecialAction>)
        requires
            old(self).wf(),
            ran_keys(old(self).lexicon(), old(self)@, keys).1 != Outcome::Fault,
        ensures
            final(self).wf(),
            final(self).lexicon() == old(self).lexicon(),
            final(self)@ == ran_keys(old(self).lexicon(), old(self)@, keys).0,
            r is Ok <==> ran_keys(old(self).lexicon(), old(self)@, keys).1 == Outcome::Done,
            final(self)@.backlog.len() <= BACKLOG_DEPTH,
            events_wf(final(self)@.backlog),
    {
        let outcome = self.run_chord(keys);
        proof {
            self.lemma_wf();
        }
        match outcome {
            Outcome::Done => Ok(()),
            Outcome::Quit => Err(SpecialAction::Quit),
            Outcome::Fault => Ok(()),
        }
    }

    /// Runs the chord `keys` if the engine can run it in its present
    /// state; `None` where it cannot, and then the engine is of no further
    /// use.
    pub fn try_run_keys(&mut self, keys: Keys) -> (r: Option<Result<(), SpecialAction>>)
        requires
            old(self).wf(),
        ensures
            final(self).wf(),
            final(self).lexicon() == old(self).lexicon(),
            r is None <==> ran_keys(old(self).lexicon(), old(self)@, keys).1 == Outcome::Fault,
            r is Some ==> final(self)@ == ran_keys(old(self).lexicon(), old(self)@, keys).0,
            r matches Some(done) ==> (done is Ok <==> ran_keys(
                old(self).lexicon(),
                old(self)@,
                keys,
            ).1 == Outcome::Done),
    {
        match self.run_chord(keys) {
            Outcome::Done => Some(Ok(())),
            Outcome::Quit => Some(Err(SpecialAction::Quit)),
            Outcome::Fault => None,
        }
    }

    /// Runs the chord `keys` and hands out the edit that has gathered. Where
    /// the chord asks to quit, the edit stays with the engine.
    pub fn handle_keys(&mut self, keys: Keys) -> (r: Result<Output, SpecialAction>)
        requires
            old(self).wf(),
            ran_keys(old(self).lexicon(), old(self)@, keys).1 != Outcome::Fault,
        ensures
            final(self).wf(),
            final(self).lexicon() == old(self).lexicon(),
            r is Ok <==> ran_keys(old(self).lexicon(), old(self)@, keys).1 == Outcome::Done,
            r matches Ok(output) ==> output@ == ran_keys(
                old(self).lexicon(),
                old(self)@,
                keys,
            ).0.output && final(self)@ == (EngineModel {
                output: no_output(),
                ..ran_keys(old(self).lexicon(), old(self)@, keys).0
            }),
            r is Err ==> final(self)@ == ran_keys(old(self).lexicon(), old(self)@, keys).0,
    {
        match self.run_keys(keys) {
            Ok(()) => Ok(self.flush()),
            Err(special) => Err(special),
        }
    }

    /// Hands out the edit that has gathered, and begins a new one.
    pub fn flush(&mut self) -> (r: Output)
        requires
            old(self).wf(),
        ensures
            final(self).wf(),
            final(self).lexicon() == old(self).lexicon(),
            r@ == old(self)@.output,
            final(self)@ == (EngineModel { output: no_output(), ..old(self)@ }),
    {
        let mut out = Output::default();
        core::mem::swap(&mut self.output_in_progress, &mut out);
        out
    }
}

} // verus!
