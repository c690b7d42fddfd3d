use vstd::prelude::*;

use crate::keys::format::{dashed, format_from, formatted, key_text, span};
use crate::keys::parse::{char_keys, overlap, parse_from, parsed, ParseError};
use crate::keys::{Key, Keys, ALL_BITS, KEY_COUNT};

verus! {

/// The bits of the keys before the place `index`.
spec fn below(index: u32) -> u32 {
    ((1u32 << index) - 1) as u32
}

proof fn lemma_below(bits: u32, i: u32)
    by (bit_vector)
    requires
        i < 23,
    ensures
        (bits & (((1u32 << i) - 1) as u32)) < (1u32 << i),
        (bits & (((1u32 << i) - 1) as u32)) & (1u32 << i) == 0,
        bits & (1u32 << i) == 0 ==> bits & (((1u32 << i) - 1) as u32) == bits & (((1u32 << ((i
            + 1) as u32)) - 1) as u32),
        bits & (1u32 << i) != 0 ==> (bits & (((1u32 << i) - 1) as u32)) | (1u32 << i) == bits & (((
        1u32 << ((i + 1) as u32)) - 1) as u32),
{
}

proof fn lemma_between(bits: u32, f: u32, s: u32)
    by (bit_vector)
    requires
        f < s,
        s < 23,
    ensures
        (bits & (((1u32 << s) - (1u32 << f)) as u32) != 0) == ((bits & (((1u32 << s) - 1) as u32))
            >= (1u32 << f)),
{
}

proof fn lemma_ends(bits: u32)
    by (bit_vector)
    requires
        bits & !0x7f_ffffu32 == 0,
    ensures
        bits & (((1u32 << 23u32) - 1) as u32) == bits,
        bits & (((1u32 << 0u32) - 1) as u32) == 0,
{
}

/// Reading the text of one key of a chord, after the text of the keys
/// before it, adds that key and no other.
proof fn lemma_key_roundtrip(bits: u32, key: Key, rest: Seq<char>)
    ensures
        bits & key.mask() != 0 ==> parse_from(
            key_text(bits, key.spec_index()) + rest,
            bits & below(key.spec_index()),
            false,
        ) == parse_from(rest, bits & below((key.spec_index() + 1) as u32), false),
{
    let index = key.spec_index();
    let so_far = bits & below(index);
    if bits & key.mask() != 0 {
        lemma_below(bits, index);
        let dash = dashed(bits, key);
        let c = key.spec_to_char();
        let text = key_text(bits, index) + rest;
        assert(Key::spec_from_index(index) == Some(key));
        match key.spec_other_before() {
            Some(first) => {
                lemma_between(bits, first.spec_index(), index);
                assert(span(first, key) == ((1u32 << index) - (1u32 << first.spec_index())) as u32);
            },
            None => {},
        }
        assert(char_keys(c, so_far, dash) == Some(key.mask()));
        assert(overlap(so_far, key.mask()) == 0) by {
            let m = key.mask();
            assert(so_far & m == 0 ==> so_far & m & !(1u32 << 0u32) == 0) by (bit_vector);
        }
        if dash {
            assert(text =~= seq!['-'] + (seq![c] + rest));
            assert(text.drop_first() =~= seq![c] + rest);
            assert((seq![c] + rest).drop_first() =~= rest);
            assert(parse_from(text, so_far, false) == parse_from(seq![c] + rest, so_far, true));
        } else {
            assert(text =~= seq![c] + rest);
            assert(text.drop_first() =~= rest);
        }
    }
}

proof fn lemma_roundtrip_from(bits: u32, index: u32)
    requires
        bits & !ALL_BITS == 0,
        index <= KEY_COUNT,
    ensures
        parse_from(format_from(bits, index), bits & below(index), false) == Ok::<
            Keys,
            ParseError,
        >(Keys(bits)),
    decreases KEY_COUNT - index,
{
    if index >= KEY_COUNT {
        lemma_ends(bits);
    } else {
        let key = Key::spec_from_index(index).unwrap();
        let rest = format_from(bits, (index + 1) as u32);
        lemma_roundtrip_from(bits, (index + 1) as u32);
        lemma_below(bits, index);
        if bits & key.mask() != 0 {
            lemma_key_roundtrip(bits, key, rest);
        } else {
            assert(key_text(bits, index) + rest =~= rest);
        }
    }
}

/// Reading the text that a chord is written as gives the chord back.
pub proof fn lemma_parse_format(keys: Keys)
    requires
        keys.valid(),
    ensures
        parsed(formatted(keys)) == Ok::<Keys, ParseError>(keys),
{
    lemma_ends(keys.0);
    lemma_roundtrip_from(keys.0, 0);
}

} // verus!
