use vstd::prelude::*;

pub mod format;
pub mod iter;
pub mod laws;
pub mod parse;

pub use self::iter::IntoIter;
pub use self::parse::ParseError;

verus! {

/// One key of the steno keyboard. The variants stand in steno order; the
/// four letters that exist on both hands have a second variant for the
/// right hand.
#[derive(Clone, Copy, Debug, Hash, PartialOrd, Ord, PartialEq, Eq, Structural)]
pub enum Key {
    NumberBar,
    S,
    T,
    K,
    P,
    W,
    H,
    R,
    A,
    O,
    Star,
    E,
    U,
    F,
    R2,
    P2,
    B,
    L,
    G,
    T2,
    S2,
    D,
    Z,
}

/// The number of keys.
pub const KEY_COUNT: u32 = 23;

/// The bit of every key.
pub const ALL_BITS: u32 = 0x7f_ffff;

impl Key {
    /// The place of the key in steno order, from 0.
    pub open spec fn spec_index(self) -> u32 {
        match self {
            Key::NumberBar => 0,
            Key::S => 1,
            Key::T => 2,
            Key::K => 3,
            Key::P => 4,
            Key::W => 5,
            Key::H => 6,
            Key::R => 7,
            Key::A => 8,
            Key::O => 9,
            Key::Star => 10,
            Key::E => 11,
            Key::U => 12,
            Key::F => 13,
            Key::R2 => 14,
            Key::P2 => 15,
            Key::B => 16,
            Key::L => 17,
            Key::G => 18,
            Key::T2 => 19,
            Key::S2 => 20,
            Key::D => 21,
            Key::Z => 22,
        }
    }

    /// The place of the key in steno order, from 0.
    #[verifier::when_used_as_spec(spec_index)]
    pub fn index(self) -> (i: u32)
        ensures
            i == self.spec_index(),
            i < KEY_COUNT,
    {
        match self {
            Key::NumberBar => 0,
            Key::S => 1,
            Key::T => 2,
            Key::K => 3,
            Key::P => 4,
            Key::W => 5,
            Key::H => 6,
            Key::R => 7,
            Key::A => 8,
            Key::O => 9,
            Key::Star => 10,
            Key::E => 11,
            Key::U => 12,
            Key::F => 13,
            Key::R2 => 14,
            Key::P2 => 15,
            Key::B => 16,
            Key::L => 17,
            Key::G => 18,
            Key::T2 => 19,
            Key::S2 => 20,
            Key::D => 21,
            Key::Z => 22,
        }
    }

    /// The key at a place in steno order.
    pub open spec fn spec_from_index(index: u32) -> Option<Key> {
        if index == 0 {
            Some(Key::NumberBar)
        } else if index == 1 {
            Some(Key::S)
        } else if index == 2 {
            Some(Key::T)
        } else if index == 3 {
            Some(Key::K)
        } else if index == 4 {
            Some(Key::P)
        } else if index == 5 {
            Some(Key::W)
        } else if index == 6 {
            Some(Key::H)
        } else if index == 7 {
            Some(Key::R)
        } else if index == 8 {
            Some(Key::A)
        } else if index == 9 {
            Some(Key::O)
        } else if index == 10 {
            Some(Key::Star)
        } else if index == 11 {
            Some(Key::E)
        } else if index == 12 {
            Some(Key::U)
        } else if index == 13 {
            Some(Key::F)
        } else if index == 14 {
            Some(Key::R2)
        } else if index == 15 {
            Some(Key::P2)
        } else if index == 16 {
            Some(Key::B)
        } else if index == 17 {
            Some(Key::L)
        } else if index == 18 {
            Some(Key::G)
        } else if index == 19 {
            Some(Key::T2)
        } else if index == 20 {
            Some(Key::S2)
        } else if index == 21 {
            Some(Key::D)
        } else if index == 22 {
            Some(Key::Z)
        } else {
            None
        }
    }

    /// The key at a place in steno order; `None` from 23 on.
    #[verifier::when_used_as_spec(spec_from_index)]
    pub fn from_index(index: u32) -> (r: Option<Key>)
        ensures
            r == Key::spec_from_index(index),
            r is Some <==> index < KEY_COUNT,
            r matches Some(key) ==> key.spec_index() == index,
    {
        match index {
            0 => Some(Key::NumberBar),
            1 => Some(Key::S),
            2 => Some(Key::T),
            3 => Some(Key::K),
            4 => Some(Key::P),
            5 => Some(Key::W),
            6 => Some(Key::H),
            7 => Some(Key::R),
            8 => Some(Key::A),
            9 => Some(Key::O),
            10 => Some(Key::Star),
            11 => Some(Key::E),
            12 => Some(Key::U),
            13 => Some(Key::F),
            14 => Some(Key::R2),
            15 => Some(Key::P2),
            16 => Some(Key::B),
            17 => Some(Key::L),
            18 => Some(Key::G),
            19 => Some(Key::T2),
            20 => Some(Key::S2),
            21 => Some(Key::D),
            22 => Some(Key::Z),
            _ => None,
        }
    }

    /// The steno key that a key of an ordinary keyboard stands for, by the
    /// code that an input method receives for it.
    pub open spec fn spec_from_code(code: u32) -> Option<Key> {
        if 2 <= code <= 11 {
            Some(Key::NumberBar)
        } else if code == 16 || code == 30 {
            Some(Key::S)
        } else if code == 17 {
            Some(Key::T)
        } else if code == 18 {
            Some(Key::P)
        } else if code == 19 {
            Some(Key::H)
        } else if code == 20 || code == 34 {
            Some(Key::Star)
        } else if code == 21 {
            Some(Key::F)
        } else if code == 22 {
            Some(Key::P2)
        } else if code == 23 {
            Some(Key::L)
        } else if code == 24 {
            Some(Key::T2)
        } else if code == 25 {
            Some(Key::D)
        } else if code == 31 {
            Some(Key::K)
        } else if code == 32 {
            Some(Key::W)
        } else if code == 33 {
            Some(Key::R)
        } else if code == 35 {
            Some(Key::R2)
        } else if code == 36 {
            Some(Key::B)
        } else if code == 37 {
            Some(Key::G)
        } else if code == 38 {
            Some(Key::S2)
        } else if code == 39 {
            Some(Key::Z)
        } else if code == 46 {
            Some(Key::A)
        } else if code == 47 {
            Some(Key::O)
        } else if code == 48 {
            Some(Key::E)
        } else if code == 49 {
            Some(Key::U)
        } else {
            None
        }
    }

    /// The steno key that a key of an ordinary keyboard stands for, by the
    /// code that an input method receives for it.
    #[verifier::when_used_as_spec(spec_from_code)]
    pub fn from_code(code: u32) -> (r: Option<Key>)
        ensures
            r == Key::spec_from_code(code),
    {
        match code {
            2..=11 => Some(Key::NumberBar),
            16 => Some(Key::S),
            17 => Some(Key::T),
            18 => Some(Key::P),
            19 => Some(Key::H),
            20 => Some(Key::Star),
            21 => Some(Key::F),
            22 => Some(Key::P2),
            23 => Some(Key::L),
            24 => Some(Key::T2),
            25 => Some(Key::D),
            30 => Some(Key::S),
            31 => Some(Key::K),
            32 => Some(Key::W),
            33 => Some(Key::R),
            34 => Some(Key::Star),
            35 => Some(Key::R2),
            36 => Some(Key::B),
            37 => Some(Key::G),
            38 => Some(Key::S2),
            39 => Some(Key::Z),
            46 => Some(Key::A),
            47 => Some(Key::O),
            48 => Some(Key::E),
            49 => Some(Key::U),
            _ => None,
        }
    }

    /// The character that a chord is written with for this key.
    pub open spec fn spec_to_char(self) -> char {
        match self {
            Key::NumberBar => '#',
            Key::S | Key::S2 => 'S',
            Key::T | Key::T2 => 'T',
            Key::K => 'K',
            Key::P | Key::P2 => 'P',
            Key::W => 'W',
            Key::H => 'H',
            Key::R | Key::R2 => 'R',
            Key::A => 'A',
            Key::O => 'O',
            Key::Star => '*',
            Key::E => 'E',
            Key::U => 'U',
            Key::F => 'F',
            Key::B => 'B',
            Key::L => 'L',
            Key::G => 'G',
            Key::D => 'D',
            Key::Z => 'Z',
        }
    }

    /// The character that a chord is written with for this key.
    #[verifier::when_used_as_spec(spec_to_char)]
    pub fn to_char(self) -> (c: char)
        ensures
            c == self.spec_to_char(),
    {
        match self {
            Key::NumberBar => '#',
            Key::S | Key::S2 => 'S',
            Key::T | Key::T2 => 'T',
            Key::K => 'K',
            Key::P | Key::P2 => 'P',
            Key::W => 'W',
            Key::H => 'H',
            Key::R | Key::R2 => 'R',
            Key::A => 'A',
            Key::O => 'O',
            Key::Star => '*',
            Key::E => 'E',
            Key::U => 'U',
            Key::F => 'F',
            Key::B => 'B',
            Key::L => 'L',
            Key::G => 'G',
            Key::D => 'D',
            Key::Z => 'Z',
        }
    }

    /// The key of the other hand that is written with the same letter.
    pub open spec fn spec_other(self) -> Option<Key> {
        match self {
            Key::R => Some(Key::R2),
            Key::R2 => Some(Key::R),
            Key::P => Some(Key::P2),
            Key::P2 => Some(Key::P),
            Key::S => Some(Key::S2),
            Key::S2 => Some(Key::S),
            Key::T => Some(Key::T2),
            Key::T2 => Some(Key::T),
            _ => None,
        }
    }

    /// The key of the other hand that is written with the same letter.
    #[verifier::when_used_as_spec(spec_other)]
    pub fn other(self) -> (r: Option<Key>)
        ensures
            r == self.spec_other(),
    {
        match self {
            Key::R => Some(Key::R2),
            Key::R2 => Some(Key::R),
            Key::P => Some(Key::P2),
            Key::P2 => Some(Key::P),
            Key::S => Some(Key::S2),
            Key::S2 => Some(Key::S),
            Key::T => Some(Key::T2),
            Key::T2 => Some(Key::T),
            _ => None,
        }
    }

    /// The key with the same letter, where it comes earlier in steno order.
    pub open spec fn spec_other_before(self) -> Option<Key> {
        match self.spec_other() {
            Some(other) if other.spec_index() < self.spec_index() => Some(other),
            _ => None,
        }
    }

    /// The key with the same letter, where it comes earlier in steno order.
    #[verifier::when_used_as_spec(spec_other_before)]
    pub fn other_before(self) -> (r: Option<Key>)
        ensures
            r == self.spec_other_before(),
    {
        match self.other() {
            Some(other) => if other.index() < self.index() {
                Some(other)
            } else {
                None
            },
            None => None,
        }
    }

    /// The key with the same letter, where it comes later in steno order.
    pub open spec fn spec_other_after(self) -> Option<Key> {
        match self.spec_other() {
            Some(other) if other.spec_index() > self.spec_index() => Some(other),
            _ => None,
        }
    }

    /// The key with the same letter, where it comes later in steno order.
    #[verifier::when_used_as_spec(spec_other_after)]
    pub fn other_after(self) -> (r: Option<Key>)
        ensures
            r == self.spec_other_after(),
    {
        match self.other() {
            Some(other) => if other.index() > self.index() {
                Some(other)
            } else {
                None
            },
            None => None,
        }
    }

    /// The bit that stands for the key in a chord.
    pub open spec fn mask(self) -> u32 {
        1u32 << self.spec_index()
    }
}

/// A chord: a set of keys, held as one bit for each key, the bit of the
/// first key in steno order being the lowest.
#[derive(Clone, Copy, Debug, Hash, PartialEq, Eq, Structural)]
pub struct Keys(pub u32);

impl Keys {
    /// Whether the chord has no bit but those of keys.
    pub open spec fn valid(self) -> bool {
        self.0 & !ALL_BITS == 0
    }

    /// The chord without a key.
    pub open spec fn spec_empty() -> Keys {
        Keys(0)
    }

    /// The chord without a key.
    #[verifier::when_used_as_spec(spec_empty)]
    pub fn empty() -> (r: Keys)
        ensures
            r == Keys(0),
    {
        Keys(0)
    }

    /// The chord of every key.
    pub open spec fn spec_all() -> Keys {
        Keys(ALL_BITS)
    }

    /// The chord of every key.
    #[verifier::when_used_as_spec(spec_all)]
    pub fn all() -> (r: Keys)
        ensures
            r == Keys(ALL_BITS),
    {
        Keys(ALL_BITS)
    }

    /// The chord of one key.
    pub open spec fn spec_single(key: Key) -> Keys {
        Keys(key.mask())
    }

    /// The chord of one key.
    #[verifier::when_used_as_spec(spec_single)]
    pub fn single(key: Key) -> (r: Keys)
        ensures
            r == Keys(key.mask()),
    {
        Keys(1u32 << key.index())
    }

    /// Whether the chord has no key.
    pub open spec fn spec_is_empty(self) -> bool {
        self.0 == 0
    }

    /// Whether the chord has no key.
    #[verifier::when_used_as_spec(spec_is_empty)]
    pub fn is_empty(self) -> (r: bool)
        ensures
            r == (self.0 == 0),
    {
        self.0 == 0
    }

    /// The bits of the chord, one for each key.
    pub open spec fn spec_bits(self) -> u32 {
        self.0
    }

    /// The bits of the chord, one for each key.
    #[verifier::when_used_as_spec(spec_bits)]
    pub fn bits(self) -> (r: u32)
        ensures
            r == self.0,
    {
        self.0
    }

    /// Whether `key` is in the chord.
    pub open spec fn spec_contains(self, key: Key) -> bool {
        self.0 & key.mask() != 0
    }

    /// Whether `key` is in the chord.
    #[verifier::when_used_as_spec(spec_contains)]
    pub fn contains(self, key: Key) -> (r: bool)
        ensures
            r == self.spec_contains(key),
    {
        self.0 & (1u32 << key.index()) != 0
    }

    /// Whether every key of `keys` is in the chord.
    pub open spec fn has_all(self, keys: Keys) -> bool {
        self.0 & keys.0 == keys.0
    }

    /// The chord without the keys of `keys`.
    pub open spec fn without(self, keys: Keys) -> Keys {
        Keys(self.0 & !keys.0)
    }

    /// Takes the keys of `keys` out of the chord if all of them are in it,
    /// and says whether they were.
    pub fn remove(&mut self, keys: Keys) -> (r: bool)
        ensures
            r == old(self).has_all(keys),
            *final(self) == (if r {
                old(self).without(keys)
            } else {
                *old(self)
            }),
    {
        let contains = (self.0 & keys.0) == keys.0;
        if contains {
            *self = Keys(self.0 & !keys.0);
        }
        contains
    }

    /// Takes `key` out of the chord if it is in it, and says whether it was.
    pub fn remove_key(&mut self, key: Key) -> (r: bool)
        ensures
            r == old(self).has_all(Keys::spec_single(key)),
            *final(self) == (if r {
                old(self).without(Keys::spec_single(key))
            } else {
                *old(self)
            }),
    {
        self.remove(Keys::single(key))
    }
}

impl From<Key> for Keys {
    fn from(key: Key) -> (r: Keys) {
        Keys::single(key)
    }
}

impl vstd::std_specs::convert::FromSpecImpl<Key> for Keys {
    open spec fn obeys_from_spec() -> bool {
        true
    }

    open spec fn from_spec(key: Key) -> Keys {
        Keys(key.mask())
    }
}

impl Default for Keys {
    fn default() -> (r: Keys)
        ensures
            r == Keys(0),
    {
        Keys(0)
    }
}

impl core::ops::BitOr for Keys {
    type Output = Keys;

    fn bitor(self, rhs: Keys) -> (r: Keys) {
        Keys(self.0 | rhs.0)
    }
}

impl vstd::std_specs::ops::BitOrSpecImpl for Keys {
    open spec fn obeys_bitor_spec() -> bool {
        true
    }

    open spec fn bitor_req(self, rhs: Keys) -> bool {
        true
    }

    open spec fn bitor_spec(self, rhs: Keys) -> Keys {
        Keys(self.0 | rhs.0)
    }
}

impl core::ops::BitOr<Key> for Keys {
    type Output = Keys;

    fn bitor(self, rhs: Key) -> (r: Keys) {
        Keys(self.0 | (1u32 << rhs.index()))
    }
}

impl vstd::std_specs::ops::BitOrSpecImpl<Key> for Keys {
    open spec fn obeys_bitor_spec() -> bool {
        true
    }

    open spec fn bitor_req(self, rhs: Key) -> bool {
        true
    }

    open spec fn bitor_spec(self, rhs: Key) -> Keys {
        Keys(self.0 | rhs.mask())
    }
}

impl core::ops::BitOr<Keys> for Key {
    type Output = Keys;

    fn bitor(self, rhs: Keys) -> (r: Keys) {
        Keys((1u32 << self.index()) | rhs.0)
    }
}

impl vstd::std_specs::ops::BitOrSpecImpl<Keys> for Key {
    open spec fn obeys_bitor_spec() -> bool {
        true
    }

    open spec fn bitor_req(self, rhs: Keys) -> bool {
        true
    }

    open spec fn bitor_spec(self, rhs: Keys) -> Keys {
        Keys(self.mask() | rhs.0)
    }
}

impl core::ops::BitOr for Key {
    type Output = Keys;

    fn bitor(self, rhs: Key) -> (r: Keys) {
        Keys((1u32 << self.index()) | (1u32 << rhs.index()))
    }
}

impl vstd::std_specs::ops::BitOrSpecImpl for Key {
    open spec fn obeys_bitor_spec() -> bool {
        true
    }

    open spec fn bitor_req(self, rhs: Key) -> bool {
        true
    }

    open spec fn bitor_spec(self, rhs: Key) -> Keys {
        Keys(self.mask() | rhs.mask())
    }
}

impl core::ops::BitAnd for Keys {
    type Output = Keys;

    fn bitand(self, rhs: Keys) -> (r: Keys) {
        Keys(self.0 & rhs.0)
    }
}

impl vstd::std_specs::ops::BitAndSpecImpl for Keys {
    open spec fn obeys_bitand_spec() -> bool {
        true
    }

    open spec fn bitand_req(self, rhs: Keys) -> bool {
        true
    }

    open spec fn bitand_spec(self, rhs: Keys) -> Keys {
        Keys(self.0 & rhs.0)
    }
}

impl core::ops::BitAnd<Key> for Keys {
    type Output = Keys;

    fn bitand(self, rhs: Key) -> (r: Keys) {
        Keys(self.0 & (1u32 << rhs.index()))
    }
}

impl vstd::std_specs::ops::BitAndSpecImpl<Key> for Keys {
    open spec fn obeys_bitand_spec() -> bool {
        true
    }

    open spec fn bitand_req(self, rhs: Key) -> bool {
        true
    }

    open spec fn bitand_spec(self, rhs: Key) -> Keys {
        Keys(self.0 & rhs.mask())
    }
}

impl core::ops::BitXor for Keys {
    type Output = Keys;

    fn bitxor(self, rhs: Keys) -> (r: Keys) {
        Keys(self.0 ^ rhs.0)
    }
}

impl vstd::std_specs::ops::BitXorSpecImpl for Keys {
    open spec fn obeys_bitxor_spec() -> bool {
        true
    }

    open spec fn bitxor_req(self, rhs: Keys) -> bool {
        true
    }

    open spec fn bitxor_spec(self, rhs: Keys) -> Keys {
        Keys(self.0 ^ rhs.0)
    }
}

impl core::ops::BitXor<Key> for Keys {
    type Output = Keys;

    fn bitxor(self, rhs: Key) -> (r: Keys) {
        Keys(self.0 ^ (1u32 << rhs.index()))
    }
}

impl vstd::std_specs::ops::BitXorSpecImpl<Key> for Keys {
    open spec fn obeys_bitxor_spec() -> bool {
        true
    }

    open spec fn bitxor_req(self, rhs: Key) -> bool {
        true
    }

    open spec fn bitxor_spec(self, rhs: Key) -> Keys {
        Keys(self.0 ^ rhs.mask())
    }
}

impl core::ops::Not for Keys {
    type Output = Keys;

    /// The keys that are not in the chord. Bits that stand for no key are
    /// never set in the result.
    fn not(self) -> (r: Keys) {
        Keys(!self.0 & ALL_BITS)
    }
}

impl vstd::std_specs::ops::NotSpecImpl for Keys {
    open spec fn obeys_not_spec() -> bool {
        true
    }

    open spec fn not_req(self) -> bool {
        true
    }

    open spec fn not_spec(self) -> Keys {
        Keys(!self.0 & ALL_BITS)
    }
}

impl core::ops::Not for Key {
    type Output = Keys;

    fn not(self) -> (r: Keys) {
        Keys(!(1u32 << self.index()) & ALL_BITS)
    }
}

impl vstd::std_specs::ops::NotSpecImpl for Key {
    open spec fn obeys_not_spec() -> bool {
        true
    }

    open spec fn not_req(self) -> bool {
        true
    }

    open spec fn not_spec(self) -> Keys {
        Keys(!self.mask() & ALL_BITS)
    }
}

} // verus!
