use vstd::prelude::*;

use crate::table::SeqTable;
use crate::text::chars_of;

verus! {

/// The words that are known to be spelled right.
///
/// Its view is the set of those words.
#[derive(Debug)]
pub struct WordList {
    table: SeqTable<()>,
}

/// The number of each character of `word`.
pub open spec fn codes_of(word: Seq<char>) -> Seq<u32> {
    Seq::new(word.len(), |i: int| word[i] as u32)
}

proof fn lemma_codes_of_injective(a: Seq<char>, b: Seq<char>)
    requires
        codes_of(a) == codes_of(b),
    ensures
        a == b,
{
    assert(a.len() == codes_of(a).len());
    assert(b.len() == codes_of(b).len());
    assert forall|i: int| 0 <= i < a.len() implies a[i] == b[i] by {
        assert(codes_of(a)[i] == a[i] as u32);
        assert(codes_of(b)[i] == b[i] as u32);
        vstd::utf8::char_u32_cast(a[i], a[i] as u32);
        vstd::utf8::char_u32_cast(b[i], b[i] as u32);
    }
    assert(a =~= b);
}

fn codes_vec(v: &Vec<char>, from: usize, to: usize) -> (r: Vec<u32>)
    requires
        from <= to <= v@.len(),
    ensures
        r@ == codes_of(v@.subrange(from as int, to as int)),
{
    let ghost word = v@.subrange(from as int, to as int);
    let mut out: Vec<u32> = Vec::new();
    let mut i: usize = from;
    while i < to
        invariant
            from <= i <= to <= v@.len(),
            word == v@.subrange(from as int, to as int),
            out@ == codes_of(word).take(i - from),
        decreases to - i,
    {
        out.push(v[i] as u32);
        assert(out@ =~= codes_of(word).take(i + 1 - from));
        i += 1;
    }
    assert(out@ =~= codes_of(word));
    out
}

/// The place of the first line feed in `s` from `from` on.
pub open spec fn next_newline(s: Seq<char>, from: int) -> Option<int>
    decreases s.len() - from,
{
    if from < 0 || from >= s.len() {
        None
    } else if s[from] == '\n' {
        Some(from)
    } else {
        next_newline(s, from + 1)
    }
}

/// A line feed that is found lies at or after the place where the search
/// began.
pub proof fn lemma_next_newline_bounds(s: Seq<char>, from: int)
    requires
        0 <= from,
    ensures
        next_newline(s, from) matches Some(at) ==> from <= at < s.len(),
    decreases s.len() - from,
{
    if from < s.len() && s[from] != '\n' {
        lemma_next_newline_bounds(s, from + 1);
    }
}

/// A line that a line feed ends, without the carriage return that may
/// stand before the line feed.
pub open spec fn without_return(line: Seq<char>) -> Seq<char> {
    if line.len() > 0 && line.last() == '\r' {
        line.drop_last()
    } else {
        line
    }
}

/// The words `so_far` together with the lines of `s` from the place `from`
/// on. A line ends at a line feed, or at a carriage return and a line feed;
/// the last line need not end in either.
pub open spec fn words_from(s: Seq<char>, from: int, so_far: Set<Seq<char>>) -> Set<Seq<char>>
    decreases s.len() - from,
{
    if from < 0 || from >= s.len() {
        so_far
    } else {
        match next_newline(s, from) {
            None => so_far.insert(s.subrange(from, s.len() as int)),
            Some(end) => {
                proof {
                    lemma_next_newline_bounds(s, from);
                }
                words_from(s, end + 1, so_far.insert(without_return(s.subrange(from, end))))
            },
        }
    }
}

/// The lines of the text `s`.
pub open spec fn word_set(s: Seq<char>) -> Set<Seq<char>> {
    words_from(s, 0, Set::empty())
}

impl View for WordList {
    type V = Set<Seq<char>>;

    closed spec fn view(&self) -> Set<Seq<char>> {
        Set::new(|word: Seq<char>| self.table@.contains_key(codes_of(word)))
    }
}

impl WordList {
    /// The list without a word.
    pub fn new() -> (r: WordList)
        ensures
            r@ == Set::<Seq<char>>::empty(),
    {
        let r = WordList { table: SeqTable::new() };
        assert(r@ =~= Set::<Seq<char>>::empty());
        r
    }

    /// Adds the word that the characters of `v` from `from` up to `to`
    /// are.
    fn insert_range(&mut self, v: &Vec<char>, from: usize, to: usize)
        requires
            from <= to <= v@.len(),
        ensures
            final(self)@ == old(self)@.insert(v@.subrange(from as int, to as int)),
    {
        let ghost word = v@.subrange(from as int, to as int);
        let codes = codes_vec(v, from, to);
        if self.table.get(&codes).is_none() {
            self.table.insert(codes, ());
        }
        proof {
            assert forall|other: Seq<char>|
                #[trigger] final(self)@.contains(other) == old(self)@.insert(word).contains(
                    other,
                ) by {
                if codes_of(other) == codes_of(word) {
                    lemma_codes_of_injective(other, word);
                }
            }
            assert(final(self)@ =~= old(self)@.insert(word));
        }
    }

    /// Whether `word` is in the list.
    pub fn contains(&self, word: &str) -> (r: bool)
        ensures
            r == self@.contains(word@),
    {
        let v = chars_of(word);
        assert(v@.subrange(0, v@.len() as int) =~= v@);
        let codes = codes_vec(&v, 0, v.len());
        self.table.get(&codes).is_some()
    }

    /// The list of the lines of `s`, one word each.
    pub fn parse(s: &str) -> (r: WordList)
        ensures
            r@ == word_set(s@),
    {
        let v = chars_of(s);
        let mut list = WordList::new();
        let mut from: usize = 0;
        let mut i: usize = 0;
        while i < v.len()
            invariant
                v@ == s@,
                from <= i <= v@.len(),
                next_newline(v@, from as int) == next_newline(v@, i as int),
                word_set(s@) == words_from(s@, from as int, list@),
            decreases v@.len() - i,
        {
            if v[i] == '\n' {
                let end = if from < i && v[i - 1] == '\r' {
                    i - 1
                } else {
                    i
                };
                proof {
                    let line = v@.subrange(from as int, i as int);
                    assert(without_return(line) =~= v@.subrange(from as int, end as int));
                }
                list.insert_range(&v, from, end);
                from = i + 1;
            }
            i += 1;
        }
        if from < v.len() {
            list.insert_range(&v, from, v.len());
        }
        list
    }
}

impl core::str::FromStr for WordList {
    type Err = core::convert::Infallible;

    fn from_str(s: &str) -> (r: Result<WordList, core::convert::Infallible>)
        ensures
            r matches Ok(list) && list@ == word_set(s@),
    {
        Ok(WordList::parse(s))
    }
}

} // verus!
