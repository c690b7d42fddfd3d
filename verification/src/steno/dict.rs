use vstd::prelude::*;

use crate::dict::entry::PartModel;
use crate::dict::Entry;
use crate::keys::Keys;

verus! {

/// What the engine asks of a dictionary.
pub trait Dict {
    /// The parts of the entry of each sequence of chords that the
    /// dictionary knows.
    spec fn entries(&self) -> Map<Seq<Keys>, Seq<PartModel>>;

    /// The length of the longest key.
    spec fn longest(&self) -> nat;

    /// The entry of a sequence of chords, if the dictionary has one.
    fn get(&self, keys: &[Keys]) -> (r: Option<Entry>)
        ensures
            match r {
                Some(entry) => self.entries().contains_key(keys@) && entry@
                    == self.entries()[keys@],
                None => !self.entries().contains_key(keys@),
            },
    ;

    /// The length of the longest key.
    fn max_strokes(&self) -> (n: usize)
        ensures
            n == self.longest(),
    ;
}

impl Dict for crate::dict::Dict {
    open spec fn entries(&self) -> Map<Seq<Keys>, Seq<PartModel>> {
        self@
    }

    open spec fn longest(&self) -> nat {
        self.spec_max_strokes()
    }

    fn get(&self, keys: &[Keys]) -> (r: Option<Entry>) {
        match crate::dict::Dict::get(self, keys) {
            Some(entry) => Some(entry.share()),
            None => None,
        }
    }

    fn max_strokes(&self) -> (n: usize) {
        crate::dict::Dict::max_strokes(self)
    }
}

impl<'a, T: Dict> Dict for &'a T {
    open spec fn entries(&self) -> Map<Seq<Keys>, Seq<PartModel>> {
        (**self).entries()
    }

    open spec fn longest(&self) -> nat {
        (**self).longest()
    }

    fn get(&self, keys: &[Keys]) -> (r: Option<Entry>) {
        (**self).get(keys)
    }

    fn max_strokes(&self) -> (n: usize) {
        (**self).max_strokes()
    }
}

} // verus!
