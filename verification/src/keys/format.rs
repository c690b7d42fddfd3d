use vstd::prelude::*;

use crate::keys::{Key, Keys, KEY_COUNT};
use crate::text::push_char;

verus! {

/// The bits of the keys from `first` up to, but not including, `second`.
pub open spec fn span(first: Key, second: Key) -> u32 {
    (second.mask() - first.mask()) as u32
}

/// Whether `key` could be taken for the left-hand key of its letter in the
/// chord `bits`: it is the right-hand key of a letter of both hands, and the
/// chord holds neither the left-hand key of that letter nor any key between
/// the two.
pub open spec fn needs_dash(bits: u32, key: Key) -> bool {
    match key.spec_other_before() {
        Some(first) => bits & span(first, key) == 0,
        None => false,
    }
}

/// The place of the first key of the right hand in steno order.
pub const RIGHT_HAND: u32 = 13;

/// The bits of the keys before `key` in steno order, but for the number
/// bar.
pub open spec fn before(key: Key) -> u32 {
    ((key.mask() - 1) as u32) & !Key::NumberBar.mask()
}

/// Whether `key` is a key of the right hand with which the chord `bits`
/// begins, the number bar aside.
pub open spec fn leads_right(bits: u32, key: Key) -> bool {
    key.spec_index() >= RIGHT_HAND && bits & before(key) == 0
}

/// Whether `key` is written with a dash before it in the chord `bits`: the
/// chord begins with it and it is a key of the right hand, or it could be
/// taken for the left-hand key of its letter.
pub open spec fn dashed(bits: u32, key: Key) -> bool {
    leads_right(bits, key) || needs_dash(bits, key)
}

/// What the key at `index` adds to the text of the chord `bits`.
pub open spec fn key_text(bits: u32, index: u32) -> Seq<char> {
    match Key::spec_from_index(index) {
        Some(key) => if bits & key.mask() != 0 {
            if dashed(bits, key) {
                seq!['-', key.spec_to_char()]
            } else {
                seq![key.spec_to_char()]
            }
        } else {
            Seq::empty()
        },
        None => Seq::empty(),
    }
}

/// The text of the keys of `bits` from the place `index` on.
pub open spec fn format_from(bits: u32, index: u32) -> Seq<char>
    decreases KEY_COUNT - index,
{
    if index >= KEY_COUNT {
        Seq::empty()
    } else {
        key_text(bits, index) + format_from(bits, (index + 1) as u32)
    }
}

/// The text of a chord: its keys in steno order, with a dash before the
/// first key of a chord of the right hand alone, and where a right-hand
/// letter could be taken for its left-hand twin.
pub open spec fn formatted(keys: Keys) -> Seq<char> {
    format_from(keys.0, 0)
}

/// The text of the keys of `bits` before the place `index`.
pub open spec fn format_upto(bits: u32, index: u32) -> Seq<char>
    decreases index,
{
    if index == 0 {
        Seq::empty()
    } else {
        format_upto(bits, (index - 1) as u32) + key_text(bits, (index - 1) as u32)
    }
}

proof fn lemma_format_split(bits: u32, index: u32)
    requires
        index <= KEY_COUNT,
    ensures
        formatted(Keys(bits)) == format_upto(bits, index) + format_from(bits, index),
    decreases index,
{
    if index == 0 {
        assert(format_upto(bits, 0) + format_from(bits, 0) =~= format_from(bits, 0));
    } else {
        lemma_format_split(bits, (index - 1) as u32);
        assert(format_upto(bits, index) + format_from(bits, index) =~= format_upto(
            bits,
            (index - 1) as u32,
        ) + (key_text(bits, (index - 1) as u32) + format_from(bits, index)));
    }
}

fn dash_needed(bits: u32, key: Key) -> (r: bool)
    ensures
        r == needs_dash(bits, key),
{
    match key.other_before() {
        Some(first) => {
            let hi: u32 = 1u32 << key.index();
            let lo: u32 = 1u32 << first.index();
            assert(lo <= hi) by {
                lemma_twin_order(first, key);
            }
            bits & (hi - lo) == 0
        },
        None => false,
    }
}

fn leading_right(bits: u32, key: Key) -> (r: bool)
    ensures
        r == leads_right(bits, key),
{
    let index = key.index();
    let mask: u32 = 1u32 << index;
    assert(mask >= 1) by (bit_vector)
        requires
            mask == 1u32 << index,
            index < 23,
    ;
    index >= RIGHT_HAND && bits & ((mask - 1) & !(1u32 << Key::NumberBar.index())) == 0
}

proof fn lemma_twin_order(first: Key, second: Key)
    requires
        second.spec_other_before() == Some(first),
    ensures
        first.mask() <= second.mask(),
{
    assert(1u32 << 7 <= 1u32 << 14 && 1u32 << 4 <= 1u32 << 15 && 1u32 << 1 <= 1u32 << 20 && 1u32
        << 2 <= 1u32 << 19) by (bit_vector);
}

impl Keys {
    /// Writes the chord as text.
    pub fn format(self) -> (r: String)
        ensures
            r@ == formatted(self),
    {
        let mut out = String::new();
        let mut index: u32 = 0;
        while index < KEY_COUNT
            invariant
                index <= KEY_COUNT,
                out@ == format_upto(self.0, index),
            decreases KEY_COUNT - index,
        {
            match Key::from_index(index) {
                Some(key) => {
                    if self.contains(key) {
                        if leading_right(self.0, key) || dash_needed(self.0, key) {
                            push_char(&mut out, '-');
                        }
                        push_char(&mut out, key.to_char());
                    }
                },
                None => {},
            }
            assert(out@ =~= format_upto(self.0, index) + key_text(self.0, index));
            index += 1;
        }
        proof {
            lemma_format_split(self.0, KEY_COUNT);
            assert(format_from(self.0, KEY_COUNT) =~= Seq::<char>::empty());
            assert(out@ =~= formatted(self));
        }
        out
    }

    /// The keys of the chord, in steno order.
    pub open spec fn key_seq(self) -> Seq<Key> {
        Seq::new(KEY_COUNT as nat, |i: int| Key::spec_from_index(i as u32).unwrap()).filter(
            |key: Key| self.spec_contains(key),
        )
    }

    /// The keys of the chord, in steno order.
    pub fn to_vec(self) -> (r: Vec<Key>)
        ensures
            r@ == self.key_seq(),
    {
        let ghost order = Seq::new(
            KEY_COUNT as nat,
            |i: int| Key::spec_from_index(i as u32).unwrap(),
        );
        let ghost pred = |key: Key| self.spec_contains(key);
        let mut out: Vec<Key> = Vec::new();
        let mut index: u32 = 0;
        while index < KEY_COUNT
            invariant
                index <= KEY_COUNT,
                order == Seq::new(
                    KEY_COUNT as nat,
                    |i: int| Key::spec_from_index(i as u32).unwrap(),
                ),
                pred == (|key: Key| self.spec_contains(key)),
                out@ == order.take(index as int).filter(pred),
            decreases KEY_COUNT - index,
        {
            proof {
                assert(order.take(index + 1) =~= order.take(index as int).push(order[index as int]));
                order.take(index as int).lemma_filter_push(order[index as int], pred);
            }
            match Key::from_index(index) {
                Some(key) => {
                    if self.contains(key) {
                        out.push(key);
                    }
                },
                None => {},
            }
            index += 1;
        }
        assert(order.take(KEY_COUNT as int) =~= order);
        out
    }
}

} // verus!
