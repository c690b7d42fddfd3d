use vstd::prelude::*;

verus! {

/// What the engine asks of a list of words.
pub trait WordList {
    /// The words of the list.
    spec fn words(&self) -> Set<Seq<char>>;

    /// Whether `word` is in the list.
    fn contains(&self, word: &str) -> (r: bool)
        ensures
            r == self.words().contains(word@),
    ;
}

impl WordList for crate::word_list::WordList {
    open spec fn words(&self) -> Set<Seq<char>> {
        self@
    }

    fn contains(&self, word: &str) -> (r: bool) {
        crate::word_list::WordList::contains(self, word)
    }
}

impl<'a, T: WordList> WordList for &'a T {
    open spec fn words(&self) -> Set<Seq<char>> {
        (**self).words()
    }

    fn contains(&self, word: &str) -> (r: bool) {
        (**self).contains(word)
    }
}

} // verus!
