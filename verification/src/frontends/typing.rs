use vstd::prelude::*;

use crate::steno::output::{Output, OutputModel};
use crate::text::chars_of;

verus! {

/// One thing that a virtual keyboard does.
#[derive(Debug, Clone, Copy, PartialEq, Eq, Structural)]
pub enum KeyPress {
    /// The key with this code goes down and up.
    Key(u32),
    /// The modifier keys are held, or not, from now on.
    Modifiers { ctrl: bool, shift: bool },
}

/// The code of the first key of the keymap; the key of an ASCII character
/// has the code of the character less this.
pub const KEYCODE_BASE: u32 = 8;

/// The ASCII character that the backspace key stands for.
pub const BACKSPACE: u8 = 8;

/// Whether the keymap has a key for the ASCII character `byte`.
pub open spec fn spec_has_ascii(byte: u8) -> bool {
    8 <= byte <= 126
}

/// Whether the keymap has a key for the ASCII character `byte`.
#[verifier::when_used_as_spec(spec_has_ascii)]
pub fn has_ascii(byte: u8) -> (r: bool)
    ensures
        r == spec_has_ascii(byte),
{
    8 <= byte && byte <= 126
}

/// The key press that types the ASCII character `ascii`.
pub open spec fn ascii_press(ascii: u8) -> KeyPress {
    KeyPress::Key((ascii - KEYCODE_BASE) as u32)
}

/// The key press that types the ASCII character `ascii`.
pub fn type_ascii(ascii: u8) -> (r: KeyPress)
    requires
        spec_has_ascii(ascii),
    ensures
        r == ascii_press(ascii),
{
    KeyPress::Key(ascii as u32 - KEYCODE_BASE)
}

/// The hexadecimal digit of a number below 16.
pub open spec fn hex_digit(value: u32) -> u8 {
    if value < 10 {
        ('0' as u8 + value) as u8
    } else {
        ('a' as u8 + (value - 10)) as u8
    }
}

/// The hexadecimal digits of `value`, without leading zeros.
pub open spec fn hex_digits(value: u32) -> Seq<u8>
    decreases value,
{
    if value < 16 {
        seq![hex_digit(value)]
    } else {
        hex_digits(value / 16).push(hex_digit(value % 16))
    }
}

fn digit(value: u32) -> (r: u8)
    requires
        value < 16,
    ensures
        r == hex_digit(value),
        spec_has_ascii(r),
{
    if value < 10 {
        48u8 + value as u8
    } else {
        97u8 + (value - 10) as u8
    }
}

/// The key presses that type the hexadecimal digits of `value`.
pub open spec fn hex_presses(value: u32) -> Seq<KeyPress> {
    hex_digits(value).map_values(|digit: u8| ascii_press(digit))
}

fn type_hex(out: &mut Vec<KeyPress>, value: u32)
    ensures
        final(out)@ == old(out)@ + hex_presses(value),
    decreases value,
{
    if value >= 16 {
        type_hex(out, value / 16);
    }
    let ghost before = out@;
    out.push(type_ascii(digit(value % 16)));
    proof {
        if value >= 16 {
            assert(hex_presses(value) =~= hex_presses(value / 16).push(
                ascii_press(hex_digit(value % 16)),
            ));
            assert(before.push(ascii_press(hex_digit(value % 16))) =~= old(out)@ + hex_presses(
                value,
            ));
        } else {
            assert(hex_presses(value) =~= seq![ascii_press(hex_digit(value))]);
            assert(before.push(ascii_press(hex_digit(value))) =~= old(out)@ + hex_presses(value));
        }
    }
}

/// The key presses that type the character `ch`: the key of the character
/// where the keymap has one, and otherwise the keys that enter the number
/// of the character in hexadecimal.
pub open spec fn char_presses(ch: char) -> Seq<KeyPress> {
    if (ch as u32) < 128 && spec_has_ascii(ch as u8) {
        seq![ascii_press(ch as u8)]
    } else {
        seq![
            KeyPress::Modifiers { ctrl: true, shift: true },
            ascii_press('u' as u8),
            KeyPress::Modifiers { ctrl: false, shift: false },
            ascii_press('0' as u8),
            ascii_press('x' as u8),
        ] + hex_presses(ch as u32) + seq![ascii_press('\n' as u8)]
    }
}

/// Appends the key presses that type the character `ch`.
pub fn type_char(out: &mut Vec<KeyPress>, ch: char)
    ensures
        final(out)@ == old(out)@ + char_presses(ch),
{
    let code = ch as u32;
    if code < 128 && has_ascii(code as u8) {
        out.push(type_ascii(code as u8));
        assert(out@ =~= old(out)@ + char_presses(ch));
    } else {
        out.push(KeyPress::Modifiers { ctrl: true, shift: true });
        out.push(type_ascii(117u8));
        out.push(KeyPress::Modifiers { ctrl: false, shift: false });
        out.push(type_ascii(48u8));
        out.push(type_ascii(120u8));
        type_hex(out, code);
        out.push(type_ascii(10u8));
        assert(out@ =~= old(out)@ + char_presses(ch));
    }
}

/// The key presses that type the text `text` from the place `from` on.
pub open spec fn text_presses(text: Seq<char>, from: int) -> Seq<KeyPress>
    decreases text.len() - from,
{
    if from < 0 || from >= text.len() {
        Seq::empty()
    } else {
        char_presses(text[from]) + text_presses(text, from + 1)
    }
}

/// Appends the key presses that type the text `s`.
pub fn type_str(out: &mut Vec<KeyPress>, s: &str)
    ensures
        final(out)@ == old(out)@ + text_presses(s@, 0),
{
    let v = chars_of(s);
    let mut i: usize = 0;
    assert(out@ + text_presses(s@, 0) =~= old(out)@ + text_presses(s@, 0));
    while i < v.len()
        invariant
            i <= v@.len(),
            v@ == s@,
            out@ + text_presses(s@, i as int) == old(out)@ + text_presses(s@, 0),
        decreases v@.len() - i,
    {
        let ghost before = out@;
        type_char(out, v[i]);
        assert(out@ + text_presses(s@, i + 1) =~= before + text_presses(s@, i as int));
        i += 1;
    }
    assert(out@ + text_presses(s@, i as int) =~= out@);
}

/// `count` presses of the backspace key.
pub open spec fn backspaces(count: nat) -> Seq<KeyPress> {
    Seq::new(count, |i: int| ascii_press(BACKSPACE))
}

fn type_backspaces(out: &mut Vec<KeyPress>, count: usize)
    ensures
        final(out)@ == old(out)@ + backspaces(count as nat),
{
    let mut i: usize = 0;
    assert(out@ =~= old(out)@ + backspaces(0));
    while i < count
        invariant
            i <= count,
            out@ == old(out)@ + backspaces(i as nat),
        decreases count - i,
    {
        out.push(type_ascii(BACKSPACE));
        assert(out@ =~= old(out)@ + backspaces((i + 1) as nat));
        i += 1;
    }
}

/// The key presses that make the edit `o` on a virtual keyboard: a
/// backspace for each character to delete, a backspace with the control key
/// held for each word to delete, and then the text.
pub open spec fn edit_presses(o: OutputModel) -> Seq<KeyPress> {
    backspaces(o.delete.chars as nat) + seq![KeyPress::Modifiers { ctrl: true, shift: false }]
        + backspaces(o.delete_words as nat) + seq![
        KeyPress::Modifiers { ctrl: false, shift: false },
    ] + text_presses(o.append, 0)
}

/// The key presses that make the edit `output` on a virtual keyboard.
pub fn type_output(output: &Output) -> (r: Vec<KeyPress>)
    ensures
        r@ == edit_presses(output@),
{
    let mut out: Vec<KeyPress> = Vec::new();
    type_backspaces(&mut out, output.delete.chars());
    out.push(KeyPress::Modifiers { ctrl: true, shift: false });
    type_backspaces(&mut out, output.delete_words);
    out.push(KeyPress::Modifiers { ctrl: false, shift: false });
    type_str(&mut out, output.append.as_str());
    assert(out@ =~= edit_presses(output@));
    out
}

/// The number of bytes that an input method is asked to delete for the edit
/// `o`; a word counts as one. `None` where the number leaves `u32`.
pub open spec fn surrounding_delete_spec(o: OutputModel) -> Option<u32> {
    if o.delete_words + o.delete.bytes <= u32::MAX {
        Some((o.delete_words + o.delete.bytes) as u32)
    } else {
        None
    }
}

/// The number of bytes that an input method is asked to delete for the edit
/// `output`.
pub fn surrounding_delete(output: &Output) -> (r: Option<u32>)
    ensures
        r == surrounding_delete_spec(output@),
{
    match output.delete_words.checked_add(output.delete.bytes()) {
        Some(sum) => if sum <= u32::MAX as usize {
            Some(sum as u32)
        } else {
            None
        },
        None => None,
    }
}

} // verus!
