use vstd::prelude::*;

use crate::keys::{Key, Keys};
use crate::text::chars_of;

verus! {

/// Why a text is not a chord.
#[derive(Clone, Copy, Debug, PartialEq, Eq, Structural)]
pub enum ParseError {
    /// The text ends in a dash.
    TrailingDash,
    /// The text names these keys twice.
    Duplicate(Keys),
    /// The text holds this character, which stands for no key.
    Unrecognized(char),
}

/// The key that a letter of both hands stands for: the one of the right
/// hand after a dash, or once the chord holds the left one or any later
/// key.
pub open spec fn pick(first: Key, second: Key, so_far: u32, after_dash: bool) -> u32 {
    if after_dash || so_far >= first.mask() {
        second.mask()
    } else {
        first.mask()
    }
}

/// The number bar together with `key`, which a digit stands for.
pub open spec fn digit(key: Key) -> u32 {
    Key::NumberBar.mask() | key.mask()
}

/// The keys that the character `ch` adds to a chord that holds `so_far`;
/// `None` for a character that stands for no key. The dash is not handled
/// here.
pub open spec fn char_keys(ch: char, so_far: u32, after_dash: bool) -> Option<u32> {
    if ch == 'S' {
        Some(pick(Key::S, Key::S2, so_far, after_dash))
    } else if ch == 'T' {
        Some(pick(Key::T, Key::T2, so_far, after_dash))
    } else if ch == 'P' {
        Some(pick(Key::P, Key::P2, so_far, after_dash))
    } else if ch == 'R' {
        Some(pick(Key::R, Key::R2, so_far, after_dash))
    } else if ch == 'H' {
        Some(Key::H.mask())
    } else if ch == '*' {
        Some(Key::Star.mask())
    } else if ch == 'F' {
        Some(Key::F.mask())
    } else if ch == 'L' {
        Some(Key::L.mask())
    } else if ch == 'D' {
        Some(Key::D.mask())
    } else if ch == 'K' {
        Some(Key::K.mask())
    } else if ch == 'W' {
        Some(Key::W.mask())
    } else if ch == 'B' {
        Some(Key::B.mask())
    } else if ch == 'G' {
        Some(Key::G.mask())
    } else if ch == 'Z' {
        Some(Key::Z.mask())
    } else if ch == 'A' {
        Some(Key::A.mask())
    } else if ch == 'O' {
        Some(Key::O.mask())
    } else if ch == 'E' {
        Some(Key::E.mask())
    } else if ch == 'U' {
        Some(Key::U.mask())
    } else if ch == '1' {
        Some(digit(Key::S))
    } else if ch == '2' {
        Some(digit(Key::T))
    } else if ch == '3' {
        Some(digit(Key::P))
    } else if ch == '4' {
        Some(digit(Key::H))
    } else if ch == '5' {
        Some(digit(Key::A))
    } else if ch == '0' {
        Some(digit(Key::O))
    } else if ch == '6' {
        Some(digit(Key::F))
    } else if ch == '7' {
        Some(digit(Key::P2))
    } else if ch == '8' {
        Some(digit(Key::L))
    } else if ch == '9' {
        Some(digit(Key::T2))
    } else if ch == '#' {
        Some(Key::NumberBar.mask())
    } else {
        None
    }
}

/// The keys among `new` that a chord holding `so_far` has already; the
/// number bar does not count, since every digit sets it again.
pub open spec fn overlap(so_far: u32, new: u32) -> u32 {
    so_far & new & !Key::NumberBar.mask()
}

/// What the rest `s` of a text parses to, given that the text before it
/// gave the keys `so_far` and that `after_dash` says whether a dash stands
/// right before `s`.
pub open spec fn parse_from(s: Seq<char>, so_far: u32, after_dash: bool) -> Result<
    Keys,
    ParseError,
>
    decreases s.len(),
{
    if s.len() == 0 {
        if after_dash {
            Err(ParseError::TrailingDash)
        } else {
            Ok(Keys(so_far))
        }
    } else if s[0] == '-' {
        parse_from(s.drop_first(), so_far, true)
    } else {
        match char_keys(s[0], so_far, after_dash) {
            None => Err(ParseError::Unrecognized(s[0])),
            Some(new) => if overlap(so_far, new) != 0 {
                Err(ParseError::Duplicate(Keys(overlap(so_far, new))))
            } else {
                parse_from(s.drop_first(), so_far | new, false)
            },
        }
    }
}

/// What a text parses to as a chord.
pub open spec fn parsed(s: Seq<char>) -> Result<Keys, ParseError> {
    parse_from(s, 0, false)
}

fn mask_of(key: Key) -> (r: u32)
    ensures
        r == key.mask(),
{
    1u32 << key.index()
}

fn pick_key(first: Key, second: Key, so_far: u32, after_dash: bool) -> (r: u32)
    ensures
        r == pick(first, second, so_far, after_dash),
{
    if after_dash || so_far >= mask_of(first) {
        mask_of(second)
    } else {
        mask_of(first)
    }
}

fn digit_keys(key: Key) -> (r: u32)
    ensures
        r == digit(key),
{
    mask_of(Key::NumberBar) | mask_of(key)
}

fn keys_of_char(ch: char, so_far: u32, after_dash: bool) -> (r: Option<u32>)
    ensures
        r == char_keys(ch, so_far, after_dash),
{
    match ch {
        'S' => Some(pick_key(Key::S, Key::S2, so_far, after_dash)),
        'T' => Some(pick_key(Key::T, Key::T2, so_far, after_dash)),
        'P' => Some(pick_key(Key::P, Key::P2, so_far, after_dash)),
        'R' => Some(pick_key(Key::R, Key::R2, so_far, after_dash)),
        'H' => Some(mask_of(Key::H)),
        '*' => Some(mask_of(Key::Star)),
        'F' => Some(mask_of(Key::F)),
        'L' => Some(mask_of(Key::L)),
        'D' => Some(mask_of(Key::D)),
        'K' => Some(mask_of(Key::K)),
        'W' => Some(mask_of(Key::W)),
        'B' => Some(mask_of(Key::B)),
        'G' => Some(mask_of(Key::G)),
        'Z' => Some(mask_of(Key::Z)),
        'A' => Some(mask_of(Key::A)),
        'O' => Some(mask_of(Key::O)),
        'E' => Some(mask_of(Key::E)),
        'U' => Some(mask_of(Key::U)),
        '1' => Some(digit_keys(Key::S)),
        '2' => Some(digit_keys(Key::T)),
        '3' => Some(digit_keys(Key::P)),
        '4' => Some(digit_keys(Key::H)),
        '5' => Some(digit_keys(Key::A)),
        '0' => Some(digit_keys(Key::O)),
        '6' => Some(digit_keys(Key::F)),
        '7' => Some(digit_keys(Key::P2)),
        '8' => Some(digit_keys(Key::L)),
        '9' => Some(digit_keys(Key::T2)),
        '#' => Some(mask_of(Key::NumberBar)),
        _ => None,
    }
}

impl Keys {
    /// Reads a chord from the characters of `v` from `from` up to `to`.
    pub fn parse_range(v: &Vec<char>, from: usize, to: usize) -> (r: Result<Keys, ParseError>)
        requires
            from <= to <= v@.len(),
        ensures
            r == parsed(v@.subrange(from as int, to as int)),
    {
        let ghost part = v@.subrange(from as int, to as int);
        let mut so_far: u32 = 0;
        let mut after_dash = false;
        let mut i: usize = from;
        assert(part.skip(0) =~= part);
        while i < to
            invariant
                from <= i <= to <= v@.len(),
                part == v@.subrange(from as int, to as int),
                parsed(part) == parse_from(part.skip(i - from), so_far, after_dash),
            decreases to - i,
        {
            let ch = v[i];
            proof {
                assert(part.skip(i - from).drop_first() =~= part.skip(i + 1 - from));
                assert(part.skip(i - from)[0] == ch);
            }
            if ch == '-' {
                after_dash = true;
            } else {
                match keys_of_char(ch, so_far, after_dash) {
                    None => {
                        return Err(ParseError::Unrecognized(ch));
                    },
                    Some(new) => {
                        let twice = so_far & new & !mask_of(Key::NumberBar);
                        if twice != 0 {
                            return Err(ParseError::Duplicate(Keys(twice)));
                        }
                        after_dash = false;
                        so_far = so_far | new;
                    },
                }
            }
            i += 1;
        }
        assert(part.skip(i - from).len() == 0);
        if after_dash {
            Err(ParseError::TrailingDash)
        } else {
            Ok(Keys(so_far))
        }
    }

    /// Reads a chord from its text. Letters stand for the left hand until a
    /// dash or a key of the right hand has come; a digit stands for the
    /// number bar and a key; no key but the number bar may come twice.
    pub fn parse(part: &str) -> (r: Result<Keys, ParseError>)
        ensures
            r == parsed(part@),
    {
        let chars = chars_of(part);
        assert(chars@.subrange(0, chars@.len() as int) =~= chars@);
        Keys::parse_range(&chars, 0, chars.len())
    }
}

impl core::str::FromStr for Keys {
    type Err = ParseError;

    fn from_str(part: &str) -> (r: Result<Keys, ParseError>)
        ensures
            r == parsed(part@),
    {
        Keys::parse(part)
    }
}

} // verus!
