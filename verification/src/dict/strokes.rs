use vstd::prelude::*;

use crate::keys::format::formatted;
use crate::keys::parse::{parsed, ParseError};
use crate::keys::Keys;
use crate::text::{chars_of, push_char};

verus! {

/// A sequence of chords: what a dictionary entry stands under.
#[derive(Debug, Default, PartialEq, Eq, Hash)]
pub struct Strokes(pub Vec<Keys>);

impl View for Strokes {
    type V = Seq<Keys>;

    open spec fn view(&self) -> Seq<Keys> {
        self.0@
    }
}

/// The place of the first `/` in `s` from `from` on.
pub open spec fn next_slash(s: Seq<char>, from: int) -> Option<int>
    decreases s.len() - from,
{
    if from < 0 || from >= s.len() {
        None
    } else if s[from] == '/' {
        Some(from)
    } else {
        next_slash(s, from + 1)
    }
}

/// A slash that is found lies at or after the place where the search began.
pub proof fn lemma_next_slash_bounds(s: Seq<char>, from: int)
    requires
        0 <= from,
    ensures
        next_slash(s, from) matches Some(at) ==> from <= at < s.len(),
    decreases s.len() - from,
{
    if from < s.len() && s[from] != '/' {
        lemma_next_slash_bounds(s, from + 1);
    }
}

/// The chords that the text `s` stands for from the place `from` on: the
/// pieces between slashes, each read as a chord; the first error on the way
/// is the result.
pub open spec fn strokes_from(s: Seq<char>, from: int) -> Result<Seq<Keys>, ParseError>
    decreases s.len() - from,
{
    if from < 0 || from > s.len() {
        Ok(Seq::empty())
    } else {
        match next_slash(s, from) {
            None => match parsed(s.subrange(from, s.len() as int)) {
                Ok(keys) => Ok(seq![keys]),
                Err(error) => Err(error),
            },
            Some(slash) => {
                proof {
                    lemma_next_slash_bounds(s, from);
                }
                match parsed(s.subrange(from, slash)) {
                    Err(error) => Err(error),
                    Ok(keys) => match strokes_from(s, slash + 1) {
                        Ok(rest) => Ok(seq![keys] + rest),
                        Err(error) => Err(error),
                    },
                }
            },
        }
    }
}

/// The chords that the text `s` stands for.
pub open spec fn strokes_parsed(s: Seq<char>) -> Result<Seq<Keys>, ParseError> {
    strokes_from(s, 0)
}

/// `done` followed by what `rest` gives.
spec fn after_strokes(done: Seq<Keys>, rest: Result<Seq<Keys>, ParseError>) -> Result<
    Seq<Keys>,
    ParseError,
> {
    match rest {
        Ok(more) => Ok(done + more),
        Err(error) => Err(error),
    }
}

/// The text of the chords of `strokes` from the place `from` on, with a
/// slash before each but the first of all.
pub open spec fn strokes_text_from(strokes: Seq<Keys>, from: int) -> Seq<char>
    decreases strokes.len() - from,
{
    if from < 0 || from >= strokes.len() {
        Seq::empty()
    } else if from == 0 {
        formatted(strokes[from]) + strokes_text_from(strokes, from + 1)
    } else {
        seq!['/'] + formatted(strokes[from]) + strokes_text_from(strokes, from + 1)
    }
}

/// The text of the chords of `strokes` before the place `upto`.
spec fn strokes_text_upto(strokes: Seq<Keys>, upto: int) -> Seq<char>
    decreases upto,
{
    if upto <= 0 {
        Seq::empty()
    } else if upto == 1 {
        formatted(strokes[0])
    } else {
        strokes_text_upto(strokes, upto - 1) + seq!['/'] + formatted(strokes[upto - 1])
    }
}

proof fn lemma_strokes_text_split(strokes: Seq<Keys>, at: int)
    requires
        0 <= at <= strokes.len(),
    ensures
        strokes_text_from(strokes, 0) == strokes_text_upto(strokes, at) + strokes_text_from(
            strokes,
            at,
        ),
    decreases at,
{
    if at == 0 {
        assert(strokes_text_upto(strokes, 0) + strokes_text_from(strokes, 0) =~= strokes_text_from(
            strokes,
            0,
        ));
    } else {
        lemma_strokes_text_split(strokes, at - 1);
        if at == 1 {
            assert(strokes_text_upto(strokes, 0) + strokes_text_from(strokes, 0)
                =~= strokes_text_upto(strokes, 1) + strokes_text_from(strokes, 1));
        } else {
            assert(strokes_text_upto(strokes, at - 1) + strokes_text_from(strokes, at - 1)
                =~= strokes_text_upto(strokes, at) + strokes_text_from(strokes, at));
        }
    }
}

impl Strokes {
    /// The number of chords.
    pub fn num_strokes(&self) -> (n: usize)
        ensures
            n == self@.len(),
    {
        self.0.len()
    }

    /// Reads a sequence of chords from its text: the chords, with a slash
    /// between each two.
    pub fn parse(raw: &str) -> (r: Result<Strokes, ParseError>)
        ensures
            match r {
                Ok(strokes) => strokes_parsed(raw@) == Ok::<Seq<Keys>, ParseError>(strokes@),
                Err(error) => strokes_parsed(raw@) == Err::<Seq<Keys>, ParseError>(error),
            },
    {
        let v = chars_of(raw);
        let mut out: Vec<Keys> = Vec::new();
        let mut from: usize = 0;
        let mut i: usize = 0;
        assert(out@ + Seq::<Keys>::empty() =~= out@);
        loop
            invariant
                v@ == raw@,
                from <= i <= v@.len(),
                next_slash(v@, from as int) == next_slash(v@, i as int),
                strokes_parsed(raw@) == after_strokes(out@, strokes_from(raw@, from as int)),
            decreases v@.len() - i,
        {
            if i == v.len() {
                let ghost done = out@;
                return match Keys::parse_range(&v, from, v.len()) {
                    Ok(keys) => {
                        out.push(keys);
                        assert(done + seq![keys] =~= out@);
                        Ok(Strokes(out))
                    },
                    Err(error) => Err(error),
                };
            }
            if v[i] == '/' {
                let ghost done = out@;
                match Keys::parse_range(&v, from, i) {
                    Ok(keys) => {
                        out.push(keys);
                        proof {
                            match strokes_from(raw@, i + 1) {
                                Ok(rest) => {
                                    assert(done + (seq![keys] + rest) =~= out@ + rest);
                                },
                                Err(_) => {},
                            }
                        }
                    },
                    Err(error) => {
                        return Err(error);
                    },
                }
                from = i + 1;
            }
            i += 1;
        }
    }

    /// Writes the chords as text, with a slash between each two.
    pub fn format(&self) -> (r: String)
        ensures
            r@ == strokes_text_from(self@, 0),
    {
        let mut out = String::new();
        let mut i: usize = 0;
        while i < self.0.len()
            invariant
                i <= self@.len(),
                out@ == strokes_text_upto(self@, i as int),
            decreases self@.len() - i,
        {
            if i > 0 {
                push_char(&mut out, '/');
            }
            let text = self.0[i].format();
            out.append(text.as_str());
            i += 1;
        }
        proof {
            lemma_strokes_text_split(self@, self@.len() as int);
            assert(strokes_text_from(self@, self@.len() as int) =~= Seq::<char>::empty());
            assert(out@ + Seq::<char>::empty() =~= out@);
        }
        out
    }
}

impl From<Vec<Keys>> for Strokes {
    fn from(keys: Vec<Keys>) -> (r: Strokes) {
        Strokes(keys)
    }
}

impl vstd::std_specs::convert::FromSpecImpl<Vec<Keys>> for Strokes {
    open spec fn obeys_from_spec() -> bool {
        true
    }

    open spec fn from_spec(keys: Vec<Keys>) -> Strokes {
        Strokes(keys)
    }
}

impl core::str::FromStr for Strokes {
    type Err = ParseError;

    fn from_str(raw: &str) -> (r: Result<Strokes, ParseError>)
        ensures
            match r {
                Ok(strokes) => strokes_parsed(raw@) == Ok::<Seq<Keys>, ParseError>(strokes@),
                Err(error) => strokes_parsed(raw@) == Err::<Seq<Keys>, ParseError>(error),
            },
    {
        Strokes::parse(raw)
    }
}

} // verus!
