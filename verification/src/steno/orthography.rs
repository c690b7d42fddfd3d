use vstd::prelude::*;

use crate::text::push_char;

verus! {

/// `regex::Regex`: a compiled expression. Nothing inside it is seen here.
#[verifier::external_type_specification]
#[verifier::external_body]
pub struct ExRegex(regex::Regex);

/// `regex::Error`: why an expression does not compile. Nothing inside it
/// is seen here.
#[verifier::external_type_specification]
#[verifier::external_body]
pub struct ExRegexError(regex::Error);

/// The text that a compiled expression was made of, as `regex::Regex::as_str`
/// gives it.
pub uninterp spec fn pattern_of(expression: regex::Regex) -> Seq<char>;

/// Whether the expression was made by `regex::Regex::new`, and so with
/// every option of the builder as it is by default. Of such an expression
/// its text says all.
pub uninterp spec fn built_plainly(expression: regex::Regex) -> bool;

/// Whether `regex::Regex::new` compiles the text `pattern`.
pub uninterp spec fn compiles(pattern: Seq<char>) -> bool;

/// Whether `regex::Regex::is_match` finds the expression `pattern` anywhere
/// in `haystack`.
pub uninterp spec fn has_match(pattern: Seq<char>, haystack: Seq<char>) -> bool;

/// What `regex::Regex::replace` makes of `haystack`: its first match of the
/// expression `pattern` is replaced by `replacement`, in which `$1` and the
/// like stand for what the groups of the expression matched.
pub uninterp spec fn replaced(
    pattern: Seq<char>,
    haystack: Seq<char>,
    replacement: Seq<char>,
) -> Seq<char>;

/// `regex::Regex::new`: compiles an expression. Whether it succeeds depends
/// on the text alone; the compiled expression remembers the text it was
/// made of, and no option of the builder was changed for it.
#[verifier::external_body]
fn compile(pattern: &str) -> (r: Result<regex::Regex, regex::Error>)
    ensures
        r is Ok == compiles(pattern@),
        r matches Ok(expression) ==> pattern_of(expression) == pattern@ && built_plainly(
            expression,
        ),
{
    regex::Regex::new(pattern)
}

/// `regex::Regex::is_match`: whether the expression matches anywhere in
/// `haystack`. The contract only gives the answer its name, and only for an
/// expression that `regex::Regex::new` made: one made with other options
/// may match otherwise though its text is the same.
#[verifier::external_body]
fn is_match(expression: &regex::Regex, haystack: &str) -> (r: bool)
    requires
        built_plainly(*expression),
    ensures
        r == has_match(pattern_of(*expression), haystack@),
{
    expression.is_match(haystack)
}

/// `regex::Regex::replace`: replaces the first match in `haystack`. The
/// contract only gives the result its name, and only for an expression that
/// `regex::Regex::new` made.
#[verifier::external_body]
fn replace(expression: &regex::Regex, haystack: &str, replacement: &str) -> (r: String)
    requires
        built_plainly(*expression),
    ensures
        r@ == replaced(pattern_of(*expression), haystack@, replacement@),
{
    expression.replace(haystack, replacement).into_owned()
}

/// One rule of spelling: where a word ends in `tail` and an ending begins
/// with `head`, the two together are written as `replacement`. `tail` and
/// `head` are expressions.
pub struct RuleText {
    pub tail: &'static str,
    pub head: &'static str,
    pub replacement: &'static str,
}

/// What a `RuleText` holds, as plain values.
pub struct RuleModel {
    pub tail: Seq<char>,
    pub head: Seq<char>,
    pub replacement: Seq<char>,
}

impl View for RuleText {
    type V = RuleModel;

    open spec fn view(&self) -> RuleModel {
        RuleModel { tail: self.tail@, head: self.head@, replacement: self.replacement@ }
    }
}

/// The rules, in the order in which they are tried.
pub open spec fn rule_table() -> Seq<RuleModel> {
    seq![
        RuleModel { tail: "ic"@, head: "ly"@, replacement: "ically"@ },
        RuleModel { tail: "te"@, head: "ry"@, replacement: "tory"@ },
        RuleModel { tail: "te?"@, head: "cy"@, replacement: "cy"@ },
        RuleModel { tail: "s(h?)"@, head: "s"@, replacement: "s${1}es"@ },
        RuleModel { tail: "e([ae])?ch"@, head: "s"@, replacement: "e${1}ches"@ },
        RuleModel { tail: "y"@, head: "s"@, replacement: "ies"@ },
        RuleModel { tail: "y"@, head: "ed"@, replacement: "ied"@ },
        RuleModel { tail: "ie"@, head: "ing"@, replacement: "ying"@ },
        RuleModel { tail: "y"@, head: "ist"@, replacement: "ist"@ },
        RuleModel { tail: "y"@, head: "ful"@, replacement: "iful"@ },
        RuleModel { tail: "te"@, head: "en"@, replacement: "tten"@ },
        RuleModel { tail: "e"@, head: "(en|ed|ing)"@, replacement: "$1"@ },
        RuleModel { tail: "ee"@, head: "e"@, replacement: "ee"@ },
        RuleModel { tail: "([aeiou])([gbtnr])"@, head: "([ei])"@, replacement: "$1$2$2$3"@ },
    ]
}

fn rules() -> (r: Vec<RuleText>)
    ensures
        r@.len() == rule_table().len(),
        forall|i: int| 0 <= i < r@.len() ==> r@[i]@ == #[trigger] rule_table()[i],
{
    vec![
        RuleText { tail: "ic", head: "ly", replacement: "ically" },
        RuleText { tail: "te", head: "ry", replacement: "tory" },
        RuleText { tail: "te?", head: "cy", replacement: "cy" },
        RuleText { tail: "s(h?)", head: "s", replacement: "s${1}es" },
        RuleText { tail: "e([ae])?ch", head: "s", replacement: "e${1}ches" },
        RuleText { tail: "y", head: "s", replacement: "ies" },
        RuleText { tail: "y", head: "ed", replacement: "ied" },
        RuleText { tail: "ie", head: "ing", replacement: "ying" },
        RuleText { tail: "y", head: "ist", replacement: "ist" },
        RuleText { tail: "y", head: "ful", replacement: "iful" },
        RuleText { tail: "te", head: "en", replacement: "tten" },
        RuleText { tail: "e", head: "(en|ed|ing)", replacement: "$1" },
        RuleText { tail: "ee", head: "e", replacement: "ee" },
        RuleText { tail: "([aeiou])([gbtnr])", head: "([ei])", replacement: "$1$2$2$3" },
    ]
}

/// A word and an ending, or the two expressions of a rule, with the
/// character of number 0 between them. An expression made so matches only
/// across the place where word and ending meet.
pub open spec fn joined(first: Seq<char>, second: Seq<char>) -> Seq<char> {
    first + seq!['\0'] + second
}

/// What the rules from the place `from` on make of `text`, which is a word
/// and an ending joined: the first rule whose expression compiles and
/// matches replaces its match; `None` where no rule does.
pub open spec fn fused_from(table: Seq<RuleModel>, from: int, text: Seq<char>) -> Option<
    Seq<char>,
>
    decreases table.len() - from,
{
    if from < 0 || from >= table.len() {
        None
    } else {
        let pattern = joined(table[from].tail, table[from].head);
        if compiles(pattern) && has_match(pattern, text) {
            Some(replaced(pattern, text, table[from].replacement))
        } else {
            fused_from(table, from + 1, text)
        }
    }
}

/// The spelling of the word `first` with the ending `second`, where a rule
/// has something to say of it.
pub open spec fn orthography(first: Seq<char>, second: Seq<char>) -> Option<Seq<char>> {
    fused_from(rule_table(), 0, joined(first, second))
}

fn join(first: &str, second: &str) -> (r: String)
    ensures
        r@ == joined(first@, second@),
{
    let mut out = String::from_str(first);
    push_char(&mut out, '\0');
    out.append(second);
    assert(out@ =~= joined(first@, second@));
    out
}

/// A rule with its expression compiled, where it compiles.
#[derive(Debug)]
pub struct Rule {
    expression: Option<regex::Regex>,
    replacement: &'static str,
}

/// The rules of spelling, ready for use.
#[derive(Debug)]
pub struct Orthography {
    rules: Vec<Rule>,
}

impl Orthography {
    /// Every rule of the table is here, compiled if it compiles.
    pub closed spec fn wf(&self) -> bool {
        &&& self.rules@.len() == rule_table().len()
        &&& forall|i: int|
            0 <= i < self.rules@.len() ==> {
                let pattern = joined(rule_table()[i].tail, rule_table()[i].head);
                &&& (#[trigger] self.rules@[i]).replacement@ == rule_table()[i].replacement
                &&& self.rules@[i].expression is Some == compiles(pattern)
                &&& self.rules@[i].expression matches Some(expression) ==> pattern_of(expression)
                    == pattern && built_plainly(expression)
            }
    }

    /// Compiles the rules.
    pub fn new() -> (r: Orthography)
        ensures
            r.wf(),
    {
        let texts = rules();
        let mut out: Vec<Rule> = Vec::new();
        let mut i: usize = 0;
        while i < texts.len()
            invariant
                i <= texts@.len(),
                texts@.len() == rule_table().len(),
                forall|j: int| 0 <= j < texts@.len() ==> texts@[j]@ == #[trigger] rule_table()[j],
                out@.len() == i,
                forall|j: int|
                    0 <= j < i ==> {
                        let pattern = joined(rule_table()[j].tail, rule_table()[j].head);
                        &&& (#[trigger] out@[j]).replacement@ == rule_table()[j].replacement
                        &&& out@[j].expression is Some == compiles(pattern)
                        &&& out@[j].expression matches Some(expression) ==> pattern_of(expression)
                            == pattern && built_plainly(expression)
                    },
            decreases texts@.len() - i,
        {
            let pattern = join(texts[i].tail, texts[i].head);
            assert(texts@[i as int]@ == rule_table()[i as int]);
            let expression = match compile(pattern.as_str()) {
                Ok(expression) => Some(expression),
                Err(_) => None,
            };
            out.push(Rule { expression, replacement: texts[i].replacement });
            i += 1;
        }
        Orthography { rules: out }
    }

    /// Spells the word `first` with the ending `second` by the first rule
    /// that fits; `None` where none does.
    pub fn apply(&self, first: &str, second: &str) -> (r: Option<String>)
        requires
            self.wf(),
        ensures
            r is Some == orthography(first@, second@) is Some,
            r matches Some(text) ==> orthography(first@, second@) == Some(text@),
    {
        let text = join(first, second);
        let mut i: usize = 0;
        while i < self.rules.len()
            invariant
                self.wf(),
                i <= self.rules@.len(),
                text@ == joined(first@, second@),
                orthography(first@, second@) == fused_from(rule_table(), i as int, text@),
            decreases self.rules@.len() - i,
        {
            let rule = &self.rules[i];
            match &rule.expression {
                Some(expression) => {
                    if is_match(expression, text.as_str()) {
                        return Some(replace(expression, text.as_str(), rule.replacement));
                    }
                },
                None => {},
            }
            i += 1;
        }
        None
    }
}

/// Spells the word `first` with the ending `second` by the rules of
/// spelling; `None` where no rule fits. The result depends on the two texts
/// alone.
pub fn apply_orthography_rules(first: &str, second: &str) -> (r: Option<String>)
    ensures
        r is Some == orthography(first@, second@) is Some,
        r matches Some(text) ==> orthography(first@, second@) == Some(text@),
{
    Orthography::new().apply(first, second)
}

} // verus!
