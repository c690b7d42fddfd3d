use std::sync::Arc;
use vstd::prelude::*;

use crate::text::{chars_are, chars_of, starts_with_at, string_of, trim_range, trimmed};

verus! {

/// A command to the engine itself.
#[derive(Clone, Copy, Debug, PartialEq, Eq, Structural)]
pub enum PloverCommand {
    Backspace,
    Quit,
    Reset,
}

/// A name that stands for no command.
#[derive(Clone, Debug, PartialEq, Eq)]
pub struct PloverCommandFromStrError(pub String);

impl PloverCommand {
    /// The command that the name `s` stands for.
    pub open spec fn named(s: Seq<char>) -> Option<PloverCommand> {
        if s == "backspace"@ {
            Some(PloverCommand::Backspace)
        } else if s == "quit"@ {
            Some(PloverCommand::Quit)
        } else if s == "reset"@ {
            Some(PloverCommand::Reset)
        } else {
            None
        }
    }

    /// The name of the command.
    pub fn as_str(self) -> (r: &'static str)
        ensures
            self == PloverCommand::Backspace ==> r@ == "backspace"@,
            self == PloverCommand::Quit ==> r@ == "quit"@,
            self == PloverCommand::Reset ==> r@ == "reset"@,
    {
        match self {
            PloverCommand::Backspace => "backspace",
            PloverCommand::Quit => "quit",
            PloverCommand::Reset => "reset",
        }
    }

    /// The command named by the characters of `v` from `from` up to `to`.
    fn named_by(v: &Vec<char>, from: usize, to: usize) -> (r: Option<PloverCommand>)
        requires
            from <= to <= v@.len(),
        ensures
            r == PloverCommand::named(v@.subrange(from as int, to as int)),
    {
        if chars_are(v, from, to, "backspace") {
            Some(PloverCommand::Backspace)
        } else if chars_are(v, from, to, "quit") {
            Some(PloverCommand::Quit)
        } else if chars_are(v, from, to, "reset") {
            Some(PloverCommand::Reset)
        } else {
            None
        }
    }

    /// Reads a command from its name.
    pub fn parse(s: &str) -> (r: Result<PloverCommand, PloverCommandFromStrError>)
        ensures
            match r {
                Ok(command) => PloverCommand::named(s@) == Some(command),
                Err(error) => PloverCommand::named(s@) is None && error.0@ == s@,
            },
    {
        let v = chars_of(s);
        assert(v@.subrange(0, v@.len() as int) =~= v@);
        match PloverCommand::named_by(&v, 0, v.len()) {
            Some(command) => Ok(command),
            None => Err(PloverCommandFromStrError(string_of(&v, 0, v.len()))),
        }
    }
}

impl core::str::FromStr for PloverCommand {
    type Err = PloverCommandFromStrError;

    fn from_str(s: &str) -> (r: Result<PloverCommand, PloverCommandFromStrError>)
        ensures
            match r {
                Ok(command) => PloverCommand::named(s@) == Some(command),
                Err(error) => PloverCommand::named(s@) is None && error.0@ == s@,
            },
    {
        PloverCommand::parse(s)
    }
}

/// A text that is no punctuation mark.
#[derive(Clone, Debug, PartialEq, Eq)]
pub struct SpecialPunctFromStrError(pub String);

/// A punctuation mark that is written without a space before it.
#[derive(Clone, Copy, Debug, PartialEq, Eq, Structural)]
pub enum SpecialPunct {
    Period,
    Comma,
    Colon,
    Semi,
    Bang,
    Question,
}

impl SpecialPunct {
    /// The mark that the text `s` is.
    pub open spec fn named(s: Seq<char>) -> Option<SpecialPunct> {
        if s == seq!['.'] {
            Some(SpecialPunct::Period)
        } else if s == seq![','] {
            Some(SpecialPunct::Comma)
        } else if s == seq![':'] {
            Some(SpecialPunct::Colon)
        } else if s == seq![';'] {
            Some(SpecialPunct::Semi)
        } else if s == seq!['!'] {
            Some(SpecialPunct::Bang)
        } else if s == seq!['?'] {
            Some(SpecialPunct::Question)
        } else {
            None
        }
    }

    /// Reads a mark from its text.
    pub fn parse(s: &str) -> (r: Result<SpecialPunct, SpecialPunctFromStrError>)
        ensures
            match r {
                Ok(punct) => SpecialPunct::named(s@) == Some(punct),
                Err(error) => SpecialPunct::named(s@) is None && error.0@ == s@,
            },
    {
        let v = chars_of(s);
        assert(v@.subrange(0, v@.len() as int) =~= v@);
        match SpecialPunct::named_by(&v, 0, v.len()) {
            Some(punct) => Ok(punct),
            None => Err(SpecialPunctFromStrError(string_of(&v, 0, v.len()))),
        }
    }

    /// The character of the mark.
    pub open spec fn mark(self) -> char {
        match self {
            SpecialPunct::Period => '.',
            SpecialPunct::Comma => ',',
            SpecialPunct::Colon => ':',
            SpecialPunct::Semi => ';',
            SpecialPunct::Bang => '!',
            SpecialPunct::Question => '?',
        }
    }

    /// The character of the mark.
    pub fn to_char(self) -> (c: char)
        ensures
            c == self.mark(),
    {
        match self {
            SpecialPunct::Period => '.',
            SpecialPunct::Comma => ',',
            SpecialPunct::Colon => ':',
            SpecialPunct::Semi => ';',
            SpecialPunct::Bang => '!',
            SpecialPunct::Question => '?',
        }
    }

    /// The mark as text.
    pub fn as_str(self) -> (r: &'static str)
        ensures
            r@ == seq![self.mark()],
    {
        proof {
            reveal_strlit(".");
            reveal_strlit(",");
            reveal_strlit(":");
            reveal_strlit(";");
            reveal_strlit("!");
            reveal_strlit("?");
        }
        let r = match self {
            SpecialPunct::Period => ".",
            SpecialPunct::Comma => ",",
            SpecialPunct::Colon => ":",
            SpecialPunct::Semi => ";",
            SpecialPunct::Bang => "!",
            SpecialPunct::Question => "?",
        };
        assert(r@ =~= seq![self.mark()]);
        r
    }

    /// Whether the mark ends a sentence.
    pub open spec fn spec_is_sentence_end(self) -> bool {
        self == SpecialPunct::Period || self == SpecialPunct::Bang || self
            == SpecialPunct::Question
    }

    /// Whether the next word begins a sentence after this mark.
    #[verifier::when_used_as_spec(spec_is_sentence_end)]
    pub fn is_sentence_end(self) -> (r: bool)
        ensures
            r == self.spec_is_sentence_end(),
    {
        match self {
            SpecialPunct::Period | SpecialPunct::Bang | SpecialPunct::Question => true,
            SpecialPunct::Colon | SpecialPunct::Comma | SpecialPunct::Semi => false,
        }
    }

    /// The mark that the characters of `v` from `from` up to `to` are.
    fn named_by(v: &Vec<char>, from: usize, to: usize) -> (r: Option<SpecialPunct>)
        requires
            from <= to <= v@.len(),
        ensures
            r == SpecialPunct::named(v@.subrange(from as int, to as int)),
    {
        let ghost s = v@.subrange(from as int, to as int);
        proof {
            assert(seq!['.'].len() == 1 && seq!['.'][0] == '.');
            assert(seq![','].len() == 1 && seq![','][0] == ',');
            assert(seq![':'].len() == 1 && seq![':'][0] == ':');
            assert(seq![';'].len() == 1 && seq![';'][0] == ';');
            assert(seq!['!'].len() == 1 && seq!['!'][0] == '!');
            assert(seq!['?'].len() == 1 && seq!['?'][0] == '?');
        }
        if to - from != 1 {
            return None;
        }
        assert(s =~= seq![v@[from as int]]);
        assert(s[0] == v@[from as int]);
        let c = v[from];
        if c == '.' {
            Some(SpecialPunct::Period)
        } else if c == ',' {
            Some(SpecialPunct::Comma)
        } else if c == ':' {
            Some(SpecialPunct::Colon)
        } else if c == ';' {
            Some(SpecialPunct::Semi)
        } else if c == '!' {
            Some(SpecialPunct::Bang)
        } else if c == '?' {
            Some(SpecialPunct::Question)
        } else {
            None
        }
    }
}

impl core::str::FromStr for SpecialPunct {
    type Err = SpecialPunctFromStrError;

    fn from_str(s: &str) -> (r: Result<SpecialPunct, SpecialPunctFromStrError>)
        ensures
            match r {
                Ok(punct) => SpecialPunct::named(s@) == Some(punct),
                Err(error) => SpecialPunct::named(s@) is None && error.0@ == s@,
            },
    {
        SpecialPunct::parse(s)
    }
}

/// One step of a dictionary entry.
#[derive(Debug, Clone, PartialEq, Eq)]
pub enum Part {
    /// A word: written after a space, and with a capital where one is due.
    Verbatim(String),
    /// An ending that joins what was written before it.
    Suffix(String),
    /// Text that joins other glued text without a space.
    Glue(String),
    SpecialPunct(SpecialPunct),
    /// Whether the next word begins with a capital.
    SetCaps(bool),
    /// Whether the next word follows a space.
    SetSpace(bool),
    /// Keeps capital and space as they are over the next word.
    CarryToNext,
    PloverCommand(PloverCommand),
}

/// What a `Part` holds, as plain values.
pub enum PartModel {
    Verbatim(Seq<char>),
    Suffix(Seq<char>),
    Glue(Seq<char>),
    SpecialPunct(SpecialPunct),
    SetCaps(bool),
    SetSpace(bool),
    CarryToNext,
    PloverCommand(PloverCommand),
}

impl Part {
    /// A part that holds the same as this one.
    pub fn duplicate(&self) -> (r: Part)
        ensures
            r@ == self@,
    {
        match self {
            Part::Verbatim(text) => Part::Verbatim(text.clone()),
            Part::Suffix(text) => Part::Suffix(text.clone()),
            Part::Glue(text) => Part::Glue(text.clone()),
            Part::SpecialPunct(punct) => Part::SpecialPunct(*punct),
            Part::SetCaps(set) => Part::SetCaps(*set),
            Part::SetSpace(set) => Part::SetSpace(*set),
            Part::CarryToNext => Part::CarryToNext,
            Part::PloverCommand(command) => Part::PloverCommand(*command),
        }
    }
}

impl View for Part {
    type V = PartModel;

    open spec fn view(&self) -> PartModel {
        match self {
            Part::Verbatim(text) => PartModel::Verbatim(text@),
            Part::Suffix(text) => PartModel::Suffix(text@),
            Part::Glue(text) => PartModel::Glue(text@),
            Part::SpecialPunct(punct) => PartModel::SpecialPunct(*punct),
            Part::SetCaps(set) => PartModel::SetCaps(*set),
            Part::SetSpace(set) => PartModel::SetSpace(*set),
            Part::CarryToNext => PartModel::CarryToNext,
            Part::PloverCommand(command) => PartModel::PloverCommand(*command),
        }
    }
}

/// The plain values of a sequence of parts.
pub open spec fn parts_view(parts: Seq<Part>) -> Seq<PartModel> {
    Seq::new(parts.len(), |i: int| parts[i]@)
}

/// What a dictionary gives for a sequence of chords: the parts to run, in
/// order. An entry is shared, not copied, by those who hold it.
///
/// Its view is the sequence of its parts as plain values.
#[derive(Clone, Debug, PartialEq, Eq)]
pub struct Entry(pub Arc<Vec<Part>>);

impl View for Entry {
    type V = Seq<PartModel>;

    open spec fn view(&self) -> Seq<PartModel> {
        parts_view(self.0@)
    }
}

impl Entry {
    /// The entry of the parts `parts`.
    pub fn new(parts: Vec<Part>) -> (r: Entry)
        ensures
            r@ == parts_view(parts@),
    {
        Entry(Arc::new(parts))
    }

    /// Another holder of the same entry.
    pub fn share(&self) -> (r: Entry)
        ensures
            r@ == self@,
    {
        Entry(self.0.clone())
    }

    /// The entry of the parts of this entry followed by those of `other`.
    pub fn concat(&self, other: &Entry) -> (r: Entry)
        ensures
            r@ == self@ + other@,
    {
        let mut parts: Vec<Part> = Vec::new();
        let mut i: usize = 0;
        assert(parts_view(parts@) =~= self@.take(0));
        while i < self.0.len()
            invariant
                i <= self@.len(),
                parts_view(parts@) == self@.take(i as int),
            decreases self@.len() - i,
        {
            let part = self.0[i].duplicate();
            proof {
                lemma_parts_push(parts@, part);
                assert(self@[i as int] == self.0@[i as int]@);
            }
            parts.push(part);
            assert(parts_view(parts@) =~= self@.take(i + 1));
            i += 1;
        }
        let mut j: usize = 0;
        assert(self@.take(i as int) =~= self@);
        assert(parts_view(parts@) =~= self@ + other@.take(0));
        while j < other.0.len()
            invariant
                j <= other@.len(),
                parts_view(parts@) == self@ + other@.take(j as int),
            decreases other@.len() - j,
        {
            let part = other.0[j].duplicate();
            proof {
                lemma_parts_push(parts@, part);
                assert(other@[j as int] == other.0@[j as int]@);
            }
            parts.push(part);
            assert(parts_view(parts@) =~= self@ + other@.take(j + 1));
            j += 1;
        }
        assert(other@.take(j as int) =~= other@);
        Entry::new(parts)
    }

    /// The number of parts.
    pub fn len(&self) -> (n: usize)
        ensures
            n == self@.len(),
    {
        self.0.len()
    }

    /// The part at `index`.
    pub fn part(&self, index: usize) -> (r: &Part)
        requires
            index < self@.len(),
        ensures
            r@ == self@[index as int],
    {
        &self.0[index]
    }
}

/// Why a text after a backslash is no escape.
#[derive(Clone, Copy, Debug, PartialEq, Eq, Structural)]
pub enum UnescapeError {
    /// The text ends right after a backslash.
    UnexpectedEof,
    /// A backslash stands before this character, which needs none.
    UnknownEscape(char),
}

/// Why a text is not a dictionary entry.
#[derive(Clone, Debug, PartialEq, Eq)]
pub enum ParseError {
    /// A `{` has no `}` after it.
    UnclosedBracket,
    /// Brackets around this text do nothing.
    PointlessBrackets(String),
    PloverCommand(PloverCommandFromStrError),
    Unescape(UnescapeError),
}

/// What a `ParseError` holds, as plain values.
pub enum ParseErrorModel {
    UnclosedBracket,
    PointlessBrackets(Seq<char>),
    PloverCommand(Seq<char>),
    Unescape(UnescapeError),
}

impl View for ParseError {
    type V = ParseErrorModel;

    open spec fn view(&self) -> ParseErrorModel {
        match self {
            ParseError::UnclosedBracket => ParseErrorModel::UnclosedBracket,
            ParseError::PointlessBrackets(text) => ParseErrorModel::PointlessBrackets(text@),
            ParseError::PloverCommand(error) => ParseErrorModel::PloverCommand(error.0@),
            ParseError::Unescape(error) => ParseErrorModel::Unescape(*error),
        }
    }
}

/// Whether a backslash may stand before `c`.
pub open spec fn escapable(c: char) -> bool {
    c == '^' || c == '{' || c == '}' || c == '\\'
}

/// Puts `head` before a text that was read without error.
pub open spec fn prepend(head: char, rest: Result<Seq<char>, UnescapeError>) -> Result<
    Seq<char>,
    UnescapeError,
> {
    match rest {
        Ok(text) => Ok(seq![head] + text),
        Err(error) => Err(error),
    }
}

/// The text `s` with each backslash taken off the character it escapes, or
/// the first error on the way.
pub open spec fn unescaped(s: Seq<char>) -> Result<Seq<char>, UnescapeError>
    decreases s.len(),
{
    if s.len() == 0 {
        Ok(Seq::empty())
    } else if s[0] != '\\' {
        prepend(s[0], unescaped(s.drop_first()))
    } else if s.len() == 1 {
        Err(UnescapeError::UnexpectedEof)
    } else if escapable(s[1]) {
        prepend(s[1], unescaped(s.skip(2)))
    } else {
        Err(UnescapeError::UnknownEscape(s[1]))
    }
}

/// `done` followed by what `rest` gives.
pub open spec fn after(done: Seq<char>, rest: Result<Seq<char>, UnescapeError>) -> Result<
    Seq<char>,
    UnescapeError,
> {
    match rest {
        Ok(text) => Ok(done + text),
        Err(error) => Err(error),
    }
}

/// Takes the backslashes off the characters of `v` from `from` up to `to`.
pub fn unescape_range(v: &Vec<char>, from: usize, to: usize) -> (r: Result<String, UnescapeError>)
    requires
        from <= to <= v@.len(),
    ensures
        match r {
            Ok(text) => unescaped(v@.subrange(from as int, to as int)) == Ok::<
                Seq<char>,
                UnescapeError,
            >(text@),
            Err(error) => unescaped(v@.subrange(from as int, to as int)) == Err::<
                Seq<char>,
                UnescapeError,
            >(error),
        },
{
    let ghost whole = v@.subrange(from as int, to as int);
    let mut out = String::new();
    let mut i = from;
    assert(v@.subrange(i as int, to as int) =~= whole);
    assert(out@ + whole =~= whole);
    while i < to
        invariant
            from <= i <= to <= v@.len(),
            whole == v@.subrange(from as int, to as int),
            unescaped(whole) == after(out@, unescaped(v@.subrange(i as int, to as int))),
        decreases to - i,
    {
        let ghost rest = v@.subrange(i as int, to as int);
        let ghost before = out@;
        let ch = v[i];
        assert(rest[0] == ch);
        if ch != '\\' {
            crate::text::push_char(&mut out, ch);
            i += 1;
            proof {
                let next = v@.subrange(i as int, to as int);
                assert(rest.drop_first() =~= next);
                match unescaped(next) {
                    Ok(text) => {
                        assert(before + (seq![ch] + text) =~= out@ + text);
                    },
                    Err(_) => {},
                }
            }
        } else if i + 1 >= to {
            return Err(UnescapeError::UnexpectedEof);
        } else {
            let escape = v[i + 1];
            assert(rest[1] == escape);
            if escape == '^' || escape == '{' || escape == '}' || escape == '\\' {
                crate::text::push_char(&mut out, escape);
                i += 2;
                proof {
                    let next = v@.subrange(i as int, to as int);
                    assert(rest.skip(2) =~= next);
                    match unescaped(next) {
                        Ok(text) => {
                            assert(before + (seq![escape] + text) =~= out@ + text);
                        },
                        Err(_) => {},
                    }
                }
            } else {
                return Err(UnescapeError::UnknownEscape(escape));
            }
        }
    }
    assert(v@.subrange(i as int, to as int) =~= Seq::<char>::empty());
    assert(out@ + Seq::<char>::empty() =~= out@);
    Ok(out)
}

/// Takes each backslash of `escaped` off the character that it escapes.
pub fn unescape(escaped: &str) -> (r: Result<String, UnescapeError>)
    ensures
        match r {
            Ok(text) => unescaped(escaped@) == Ok::<Seq<char>, UnescapeError>(text@),
            Err(error) => unescaped(escaped@) == Err::<Seq<char>, UnescapeError>(error),
        },
{
    let v = chars_of(escaped);
    assert(v@.subrange(0, v@.len() as int) =~= v@);
    unescape_range(&v, 0, v.len())
}

/// The place, from `from` on, of the first `pattern` in `s` that no
/// backslash escapes; `escape` says whether a backslash stands right
/// before `from`.
pub open spec fn find_unescaped(s: Seq<char>, pattern: char, from: int, escape: bool) -> Option<
    int,
>
    decreases s.len() - from,
{
    if from < 0 || from >= s.len() {
        None
    } else if escape {
        find_unescaped(s, pattern, from + 1, false)
    } else if s[from] == '\\' {
        find_unescaped(s, pattern, from + 1, true)
    } else if s[from] == pattern {
        Some(from)
    } else {
        find_unescaped(s, pattern, from + 1, false)
    }
}

/// What is found lies at or after the place where the search began.
pub proof fn lemma_find_unescaped_bounds(s: Seq<char>, pattern: char, from: int, escape: bool)
    requires
        0 <= from,
    ensures
        find_unescaped(s, pattern, from, escape) matches Some(at) ==> from <= at < s.len() && s[at]
            == pattern,
    decreases s.len() - from,
{
    if from < s.len() {
        if escape {
            lemma_find_unescaped_bounds(s, pattern, from + 1, false);
        } else if s[from] == '\\' {
            lemma_find_unescaped_bounds(s, pattern, from + 1, true);
        } else if s[from] != pattern {
            lemma_find_unescaped_bounds(s, pattern, from + 1, false);
        }
    }
}

/// The place of the first `pattern` among the characters of `v` from
/// `from` on that no backslash escapes.
pub fn find_from(v: &Vec<char>, pattern: char, from: usize) -> (r: Option<usize>)
    ensures
        match r {
            Some(at) => find_unescaped(v@, pattern, from as int, false) == Some(at as int) && from
                <= at < v@.len(),
            None => find_unescaped(v@, pattern, from as int, false) is None,
        },
{
    let mut escape = false;
    let mut i = from;
    while i < v.len()
        invariant
            from <= i,
            find_unescaped(v@, pattern, from as int, false) == find_unescaped(
                v@,
                pattern,
                i as int,
                escape,
            ),
        decreases v@.len() - i,
    {
        let ch = v[i];
        if escape {
            escape = false;
        } else if ch == '\\' {
            escape = true;
        } else if ch == pattern {
            return Some(i);
        }
        i += 1;
    }
    None
}

/// The place of the first `pattern` in `s` that no backslash escapes,
/// counted in characters from the start.
pub fn find_with_escapes(s: &str, pattern: char) -> (r: Option<usize>)
    ensures
        match r {
            Some(at) => find_unescaped(s@, pattern, 0, false) == Some(at as int),
            None => find_unescaped(s@, pattern, 0, false) is None,
        },
{
    let v = chars_of(s);
    find_from(&v, pattern, 0)
}

/// The number of backslashes at the end of `s`.
pub open spec fn trailing_backslashes(s: Seq<char>) -> nat
    decreases s.len(),
{
    if s.len() > 0 && s.last() == '\\' {
        1 + trailing_backslashes(s.drop_last())
    } else {
        0
    }
}

/// Whether `inner` ends in a `^` that no backslash escapes.
pub open spec fn ends_in_caret(inner: Seq<char>) -> bool {
    inner.len() > 0 && inner.last() == '^' && trailing_backslashes(inner.drop_last()) % 2 == 0
}

/// The one part that a text read without error becomes.
pub open spec fn text_part(
    text: Result<Seq<char>, UnescapeError>,
    make: spec_fn(Seq<char>) -> PartModel,
) -> Result<Seq<PartModel>, ParseErrorModel> {
    match text {
        Ok(text) => Ok(seq![make(text)]),
        Err(error) => Err(ParseErrorModel::Unescape(error)),
    }
}

/// The parts that the text `inner` between two brackets stands for.
pub open spec fn special_parts(inner: Seq<char>) -> Result<Seq<PartModel>, ParseErrorModel> {
    if inner == seq!['>'] {
        Ok(seq![PartModel::SetCaps(false)])
    } else if inner == seq!['-', '|'] {
        Ok(seq![PartModel::SetCaps(true)])
    } else if inner == seq!['^'] {
        Ok(seq![PartModel::SetSpace(false)])
    } else if inner == seq![' '] {
        Ok(seq![PartModel::Verbatim(seq![' '])])
    } else if inner == seq!['~', '|'] {
        Ok(seq![PartModel::CarryToNext])
    } else if "PLOVER:"@.len() <= inner.len() && inner.take("PLOVER:"@.len() as int)
        == "PLOVER:"@ {
        match PloverCommand::named(inner.skip("PLOVER:"@.len() as int)) {
            Some(command) => Ok(seq![PartModel::PloverCommand(command)]),
            None => Err(ParseErrorModel::PloverCommand(inner.skip("PLOVER:"@.len() as int))),
        }
    } else if SpecialPunct::named(inner) is Some {
        Ok(seq![PartModel::SpecialPunct(SpecialPunct::named(inner).unwrap())])
    } else if inner.len() > 0 && inner[0] == '&' {
        text_part(unescaped(inner.drop_first()), |text: Seq<char>| PartModel::Glue(text))
    } else if ends_in_caret(inner) {
        let body = inner.drop_last();
        let first = if body.len() > 0 && body[0] == '^' {
            text_part(unescaped(body.drop_first()), |text: Seq<char>| PartModel::Suffix(text))
        } else {
            text_part(unescaped(body), |text: Seq<char>| PartModel::Verbatim(text))
        };
        match first {
            Ok(parts) => Ok(parts.push(PartModel::SetSpace(false))),
            Err(error) => Err(error),
        }
    } else if inner.len() > 0 && inner[0] == '^' {
        text_part(unescaped(inner.drop_first()), |text: Seq<char>| PartModel::Suffix(text))
    } else {
        Err(ParseErrorModel::PointlessBrackets(inner))
    }
}

/// The part, if any, that the text `run` outside brackets stands for.
pub open spec fn verbatim_parts(run: Seq<char>) -> Result<Seq<PartModel>, ParseErrorModel> {
    if trimmed(run).len() == 0 {
        Ok(Seq::empty())
    } else {
        text_part(unescaped(trimmed(run)), |text: Seq<char>| PartModel::Verbatim(text))
    }
}

/// `done` followed by what `rest` gives.
pub open spec fn then_parts(
    done: Result<Seq<PartModel>, ParseErrorModel>,
    rest: Result<Seq<PartModel>, ParseErrorModel>,
) -> Result<Seq<PartModel>, ParseErrorModel> {
    match done {
        Ok(parts) => match rest {
            Ok(more) => Ok(parts + more),
            Err(error) => Err(error),
        },
        Err(error) => Err(error),
    }
}

/// The parts that the text `s` stands for from the place `from` on: runs of
/// text outside brackets, trimmed, are words; each `{...}` is read by
/// `special_parts`. The first error on the way is the result.
pub open spec fn entry_parts_from(s: Seq<char>, from: int) -> Result<
    Seq<PartModel>,
    ParseErrorModel,
>
    decreases s.len() - from,
{
    if from < 0 || from > s.len() {
        Ok(Seq::empty())
    } else {
        match find_unescaped(s, '{', from, false) {
            None => verbatim_parts(s.subrange(from, s.len() as int)),
            Some(open) => {
                proof {
                    lemma_find_unescaped_bounds(s, '{', from, false);
                }
                match verbatim_parts(s.subrange(from, open)) {
                    Err(error) => Err(error),
                    Ok(before) => match find_unescaped(s, '}', open + 1, false) {
                        None => Err(ParseErrorModel::UnclosedBracket),
                        Some(close) => {
                            proof {
                                lemma_find_unescaped_bounds(s, '}', open + 1, false);
                            }
                            then_parts(
                                then_parts(Ok(before), special_parts(s.subrange(open + 1, close))),
                                entry_parts_from(s, close + 1),
                            )
                        },
                    },
                }
            },
        }
    }
}

/// The parts that the text `s` stands for.
pub open spec fn entry_parts(s: Seq<char>) -> Result<Seq<PartModel>, ParseErrorModel> {
    entry_parts_from(s, 0)
}

proof fn lemma_parts_push(parts: Seq<Part>, part: Part)
    ensures
        parts_view(parts.push(part)) == parts_view(parts).push(part@),
{
    assert(parts_view(parts.push(part)) =~= parts_view(parts).push(part@));
}

/// The number of backslashes at the end of the characters of `v` from
/// `from` up to `to`.
fn count_trailing_backslashes(v: &Vec<char>, from: usize, to: usize) -> (n: usize)
    requires
        from <= to <= v@.len(),
    ensures
        n == trailing_backslashes(v@.subrange(from as int, to as int)),
{
    let mut end = to;
    let mut n: usize = 0;
    while end > from && v[end - 1] == '\\'
        invariant
            from <= end <= to <= v@.len(),
            n == to - end,
            trailing_backslashes(v@.subrange(from as int, to as int)) == n + trailing_backslashes(
                v@.subrange(from as int, end as int),
            ),
        decreases end - from,
    {
        assert(v@.subrange(from as int, end as int).drop_last() =~= v@.subrange(
            from as int,
            end - 1,
        ));
        end -= 1;
        n += 1;
    }
    n
}

/// Reads the text between two brackets, which is the characters of `v`
/// from `from` up to `to`, and appends its parts to `out`.
pub fn parse_special(out: &mut Vec<Part>, v: &Vec<char>, from: usize, to: usize) -> (r: Result<
    (),
    ParseError,
>)
    requires
        from <= to <= v@.len(),
    ensures
        match r {
            Ok(()) => special_parts(v@.subrange(from as int, to as int)) matches Ok(parts)
                && parts_view(final(out)@) == parts_view(old(out)@) + parts,
            Err(error) => special_parts(v@.subrange(from as int, to as int)) == Err::<
                Seq<PartModel>,
                ParseErrorModel,
            >(error@) && final(out)@ == old(out)@,
        },
{
    let ghost inner = v@.subrange(from as int, to as int);
    let ghost before = parts_view(out@);
    proof {
        reveal_strlit(">");
        reveal_strlit("-|");
        reveal_strlit("^");
        reveal_strlit(" ");
        reveal_strlit("~|");
        reveal_strlit("PLOVER:");
        assert(">"@ =~= seq!['>']);
        assert("-|"@ =~= seq!['-', '|']);
        assert("^"@ =~= seq!['^']);
        assert(" "@ =~= seq![' ']);
        assert("~|"@ =~= seq!['~', '|']);
    }
    let single = if chars_are(v, from, to, ">") {
        Some(Part::SetCaps(false))
    } else if chars_are(v, from, to, "-|") {
        Some(Part::SetCaps(true))
    } else if chars_are(v, from, to, "^") {
        Some(Part::SetSpace(false))
    } else if chars_are(v, from, to, " ") {
        let space = string_of(v, from, to);
        Some(Part::Verbatim(space))
    } else if chars_are(v, from, to, "~|") {
        Some(Part::CarryToNext)
    } else {
        None
    };
    match single {
        Some(part) => {
            proof {
                lemma_parts_push(out@, part);
                assert(before.push(part@) =~= before + seq![part@]);
            }
            out.push(part);
            return Ok(());
        },
        None => {},
    }
    if starts_with_at(v, from, to, "PLOVER:") {
        assert(inner.take("PLOVER:"@.len() as int) =~= v@.subrange(
            from as int,
            from + "PLOVER:"@.len(),
        ));
        assert(inner.skip("PLOVER:"@.len() as int) =~= v@.subrange(
            from + "PLOVER:"@.len(),
            to as int,
        ));
        let name_from = from + 7;
        return match PloverCommand::named_by(v, name_from, to) {
            Some(command) => {
                let part = Part::PloverCommand(command);
                proof {
                    lemma_parts_push(out@, part);
                    assert(before.push(part@) =~= before + seq![part@]);
                }
                out.push(part);
                Ok(())
            },
            None => Err(
                ParseError::PloverCommand(PloverCommandFromStrError(string_of(v, name_from, to))),
            ),
        };
    }
    assert(!("PLOVER:"@.len() <= inner.len() && inner.take("PLOVER:"@.len() as int)
        == "PLOVER:"@)) by {
        if "PLOVER:"@.len() <= inner.len() {
            assert(inner.take("PLOVER:"@.len() as int) =~= v@.subrange(
                from as int,
                from + "PLOVER:"@.len(),
            ));
        }
    }
    match SpecialPunct::named_by(v, from, to) {
        Some(punct) => {
            let part = Part::SpecialPunct(punct);
            proof {
                lemma_parts_push(out@, part);
                assert(before.push(part@) =~= before + seq![part@]);
            }
            out.push(part);
            return Ok(());
        },
        None => {},
    }
    if from < to && v[from] == '&' {
        assert(inner.drop_first() =~= v@.subrange(from + 1, to as int));
        return match unescape_range(v, from + 1, to) {
            Ok(text) => {
                let part = Part::Glue(text);
                proof {
                    lemma_parts_push(out@, part);
                    assert(before.push(part@) =~= before + seq![part@]);
                }
                out.push(part);
                Ok(())
            },
            Err(error) => Err(ParseError::Unescape(error)),
        };
    }
    let caret = from < to && v[to - 1] == '^' && count_trailing_backslashes(v, from, to - 1) % 2
        == 0;
    proof {
        if from < to {
            assert(inner.drop_last() =~= v@.subrange(from as int, to - 1));
        }
        assert(caret == ends_in_caret(inner));
    }
    let body_to = if caret {
        to - 1
    } else {
        to
    };
    let ghost body = v@.subrange(from as int, body_to as int);
    let is_suffix = from < body_to && v[from] == '^';
    if !caret && !is_suffix {
        return Err(ParseError::PointlessBrackets(string_of(v, from, to)));
    }
    let first = if is_suffix {
        assert(body.drop_first() =~= v@.subrange(from + 1, body_to as int));
        match unescape_range(v, from + 1, body_to) {
            Ok(text) => Part::Suffix(text),
            Err(error) => {
                return Err(ParseError::Unescape(error));
            },
        }
    } else {
        match unescape_range(v, from, body_to) {
            Ok(text) => Part::Verbatim(text),
            Err(error) => {
                return Err(ParseError::Unescape(error));
            },
        }
    };
    proof {
        lemma_parts_push(out@, first);
        lemma_parts_push(out@.push(first), Part::SetSpace(false));
        assert(before.push(first@) =~= before + seq![first@]);
        assert(before.push(first@).push(PartModel::SetSpace(false)) =~= before + seq![
            first@,
        ].push(PartModel::SetSpace(false)));
    }
    out.push(first);
    if caret {
        out.push(Part::SetSpace(false));
    }
    Ok(())
}

/// Appends to `out` the word, if any, that the characters of `v` from
/// `from` up to `to` are once trimmed.
fn push_verbatim(out: &mut Vec<Part>, v: &Vec<char>, from: usize, to: usize) -> (r: Result<
    (),
    ParseError,
>)
    requires
        from <= to <= v@.len(),
    ensures
        match r {
            Ok(()) => verbatim_parts(v@.subrange(from as int, to as int)) matches Ok(parts)
                && parts_view(final(out)@) == parts_view(old(out)@) + parts,
            Err(error) => verbatim_parts(v@.subrange(from as int, to as int)) == Err::<
                Seq<PartModel>,
                ParseErrorModel,
            >(error@) && final(out)@ == old(out)@,
        },
{
    let ghost before = parts_view(out@);
    let (a, b) = trim_range(v, from, to);
    if a == b {
        assert(before + Seq::<PartModel>::empty() =~= before);
        return Ok(());
    }
    match unescape_range(v, a, b) {
        Ok(text) => {
            let part = Part::Verbatim(text);
            proof {
                lemma_parts_push(out@, part);
                assert(before.push(part@) =~= before + seq![part@]);
            }
            out.push(part);
            Ok(())
        },
        Err(error) => Err(ParseError::Unescape(error)),
    }
}

/// `done` followed by what `rest` gives.
spec fn after_parts(done: Seq<PartModel>, rest: Result<Seq<PartModel>, ParseErrorModel>) -> Result<
    Seq<PartModel>,
    ParseErrorModel,
> {
    match rest {
        Ok(more) => Ok(done + more),
        Err(error) => Err(error),
    }
}

impl Entry {
    /// Reads an entry from its text.
    pub fn parse(entry: &str) -> (r: Result<Entry, ParseError>)
        ensures
            match r {
                Ok(read) => entry_parts(entry@) == Ok::<Seq<PartModel>, ParseErrorModel>(read@),
                Err(error) => entry_parts(entry@) == Err::<Seq<PartModel>, ParseErrorModel>(
                    error@,
                ),
            },
    {
        let v = chars_of(entry);
        let mut out: Vec<Part> = Vec::new();
        let mut pos: usize = 0;
        assert(parts_view(out@) + Seq::<PartModel>::empty() =~= Seq::<PartModel>::empty());
        assert(parts_view(out@) =~= Seq::<PartModel>::empty());
        loop
            invariant
                v@ == entry@,
                pos <= v@.len(),
                entry_parts(entry@) == after_parts(
                    parts_view(out@),
                    entry_parts_from(entry@, pos as int),
                ),
            decreases v@.len() - pos,
        {
            let ghost done = parts_view(out@);
            match find_from(&v, '{', pos) {
                None => {
                    return match push_verbatim(&mut out, &v, pos, v.len()) {
                        Ok(()) => Ok(Entry::new(out)),
                        Err(error) => Err(error),
                    };
                },
                Some(open) => {
                    match push_verbatim(&mut out, &v, pos, open) {
                        Ok(()) => {},
                        Err(error) => {
                            return Err(error);
                        },
                    }
                    let close = match find_from(&v, '}', open + 1) {
                        Some(close) => close,
                        None => {
                            return Err(ParseError::UnclosedBracket);
                        },
                    };
                    match parse_special(&mut out, &v, open + 1, close) {
                        Ok(()) => {},
                        Err(error) => {
                            return Err(error);
                        },
                    }
                    proof {
                        let before = verbatim_parts(v@.subrange(pos as int, open as int))->Ok_0;
                        let special = special_parts(v@.subrange(open + 1, close as int))->Ok_0;
                        match entry_parts_from(entry@, close + 1) {
                            Ok(more) => {
                                assert(done + ((before + special) + more) =~= (done + before
                                    + special) + more);
                            },
                            Err(_) => {},
                        }
                    }
                    pos = close + 1;
                },
            }
        }
    }
}

impl core::str::FromStr for Entry {
    type Err = ParseError;

    fn from_str(entry: &str) -> (r: Result<Entry, ParseError>)
        ensures
            match r {
                Ok(read) => entry_parts(entry@) == Ok::<Seq<PartModel>, ParseErrorModel>(read@),
                Err(error) => entry_parts(entry@) == Err::<Seq<PartModel>, ParseErrorModel>(
                    error@,
                ),
            },
    {
        Entry::parse(entry)
    }
}

} // verus!
