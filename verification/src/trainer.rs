use vstd::prelude::*;

use crate::text::{lowered, str_eq, to_lowercase, trim, trimmed};

verus! {

/// A list of words to practise on: one of them is asked for at a time, and
/// what the learner types is held against it.
#[derive(Debug)]
pub struct Words {
    pub name: String,
    pub words: Vec<String>,
    /// The place of the first word that may be asked for.
    pub start: usize,
    /// The place after the last word that may be asked for.
    pub end: usize,
    /// The place of the word that is asked for.
    pub current_index: usize,
    /// What the learner has typed.
    pub type_buf: String,
}

impl Words {
    /// The list holds the word that is asked for, and the words that may be
    /// asked for are words of the list.
    pub open spec fn wf(&self) -> bool {
        &&& self.start <= self.end <= self.words@.len()
        &&& self.current_index < self.words@.len()
    }

    /// A list of the words `words`, of which the one at `drawn` is asked
    /// for first; `None` where there is no word.
    pub fn new(name: String, words: Vec<String>, drawn: usize) -> (r: Option<Words>)
        requires
            words@.len() > 0 ==> drawn < words@.len(),
        ensures
            r is Some == (words@.len() > 0),
            r matches Some(list) ==> list.wf() && list.name == name && list.words == words
                && list.start == 0 && list.end == words@.len() && list.current_index == drawn
                && list.type_buf@ == Seq::<char>::empty(),
    {
        if words.len() == 0 {
            None
        } else {
            let end = words.len();
            Some(Words { name, words, start: 0, end, current_index: drawn, type_buf: String::new() })
        }
    }

    /// The word that is asked for.
    pub fn current(&self) -> (r: &str)
        requires
            self.wf(),
        ensures
            r@ == self.words@[self.current_index as int]@,
    {
        self.words[self.current_index].as_str()
    }

    /// Whether what was typed is the word that is asked for, apart from
    /// whitespace around it and from the case of ASCII letters.
    pub fn is_correct(&self) -> (r: bool)
        requires
            self.wf(),
        ensures
            r == (lowered(self.words@[self.current_index as int]@) == lowered(
                trimmed(self.type_buf@),
            )),
    {
        let typed = trim(self.type_buf.as_str());
        let want = to_lowercase(self.current());
        let have = to_lowercase(typed.as_str());
        str_eq(want.as_str(), have.as_str())
    }

    /// The place of the next word, given a place `drawn` that was drawn
    /// among all that may be asked for but the last: any place but that of
    /// the word asked for now.
    pub open spec fn next_index(current: usize, drawn: usize) -> usize {
        if drawn >= current {
            (drawn + 1) as usize
        } else {
            drawn
        }
    }

    /// Asks for another word: the one at `drawn`, or the one after it where
    /// `drawn` is not before the word asked for now. What was typed is
    /// forgotten.
    pub fn next(&mut self, drawn: usize)
        requires
            old(self).wf(),
            old(self).start <= drawn,
            drawn + 1 < old(self).end,
        ensures
            final(self).wf(),
            final(self).current_index == Words::next_index(old(self).current_index, drawn),
            final(self).current_index != old(self).current_index,
            final(self).start <= final(self).current_index < final(self).end,
            final(self).type_buf@ == Seq::<char>::empty(),
            final(self).name == old(self).name,
            final(self).words == old(self).words,
            final(self).start == old(self).start,
            final(self).end == old(self).end,
    {
        self.current_index = if drawn >= self.current_index {
            drawn + 1
        } else {
            drawn
        };
        self.type_buf = String::new();
    }

    /// Lets the words from `start` up to `end` be asked for from now on.
    /// Where the word asked for now is not among them, the word at `drawn`
    /// is asked for instead.
    pub fn set_range(&mut self, start: usize, end: usize, drawn: usize)
        requires
            old(self).wf(),
            start <= end <= old(self).words@.len(),
            start <= drawn < end || start <= old(self).current_index < end,
        ensures
            final(self).wf(),
            final(self).start == start,
            final(self).end == end,
            final(self).current_index == (if start <= old(self).current_index < end {
                old(self).current_index
            } else {
                drawn
            }),
            final(self).name == old(self).name,
            final(self).words == old(self).words,
            final(self).type_buf == old(self).type_buf,
    {
        self.start = start;
        self.end = end;
        if !(start <= self.current_index && self.current_index < end) {
            self.current_index = drawn;
        }
    }
}

} // verus!
