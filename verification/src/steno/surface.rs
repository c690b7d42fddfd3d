use vstd::prelude::*;

use vstd::utf8::encode_utf8;

use crate::steno::output::{appended, text_deleted, OutputModel};
use crate::text::{byte_len, lemma_boundary_concat, lemma_byte_len_chars, lemma_encode_concat};

verus! {

/// `text` without its last `count` items; empty where it has no more than
/// that.
pub open spec fn drop_end<T>(text: Seq<T>, count: int) -> Seq<T> {
    if count <= 0 {
        text
    } else if count >= text.len() {
        Seq::empty()
    } else {
        text.take(text.len() - count)
    }
}

/// The text that stands on a surface that held `surface` once the
/// characters that the edit `o` deletes are taken off its end and the text
/// that `o` appends is typed. The words that `o` deletes are left aside.
pub open spec fn typed(surface: Seq<char>, o: OutputModel) -> Seq<char> {
    drop_end(surface, o.delete.chars as int) + o.append
}

/// Whether `text` ends in `tail`.
pub open spec fn ends_with(text: Seq<char>, tail: Seq<char>) -> bool {
    tail.len() <= text.len() && text.skip(text.len() - tail.len()) == tail
}

/// Dropping characters from the end twice is dropping them all at once.
pub proof fn lemma_drop_end_twice(text: Seq<char>, a: int, b: int)
    requires
        0 <= a,
        0 <= b,
    ensures
        drop_end(drop_end(text, a), b) == drop_end(text, a + b),
{
    assert(drop_end(drop_end(text, a), b) =~= drop_end(text, a + b));
}

/// Typing after an edit adds to what the edit leaves on the surface.
pub proof fn lemma_typed_appended(surface: Seq<char>, o: OutputModel, text: Seq<char>)
    ensures
        typed(surface, appended(o, text)) == typed(surface, o) + text,
        appended(o, text).delete_words == o.delete_words,
{
    assert(typed(surface, appended(o, text)) =~= typed(surface, o) + text);
}

/// Whether the edit `o` has room for the deletion of `text` after it: the
/// text is no longer in bytes than what `o` would type, or the counts of
/// what `o` deletes stay within `usize` when the rest is added to them.
pub open spec fn can_delete(o: OutputModel, text: Seq<char>) -> bool {
    ||| byte_len(text) <= byte_len(o.append)
    ||| (o.delete.chars + (text.len() - o.append.len()) <= usize::MAX && o.delete.bytes + (
    byte_len(text) - byte_len(o.append)) <= usize::MAX)
}

/// Deleting, after an edit, a text that the surface then ends in takes that
/// text off the end of what the edit leaves on the surface, and fails only
/// for want of room in the counts.
pub proof fn lemma_typed_deleted(surface: Seq<char>, o: OutputModel, text: Seq<char>)
    requires
        ends_with(typed(surface, o), text),
    ensures
        text_deleted(o, text) is Some == can_delete(o, text),
        text_deleted(o, text) matches Some(after) ==> typed(surface, after) == drop_end(
            typed(surface, o),
            text.len() as int,
        ) && after.delete_words == o.delete_words,
{
    let full = typed(surface, o);
    let kept = drop_end(surface, o.delete.chars as int);
    if text.len() <= o.append.len() {
        let head = o.append.take(o.append.len() - text.len());
        assert(o.append =~= head + text) by {
            assert forall|i: int| 0 <= i < text.len() implies o.append[head.len() + i] == text[i] by {
                assert(full.skip(full.len() - text.len())[i] == text[i]);
            }
        }
        lemma_encode_concat(head, text);
        lemma_boundary_concat(head, text);
        assert(encode_utf8(o.append).take(byte_len(head) as int) =~= encode_utf8(head));
        vstd::utf8::encode_utf8_decode_utf8(head);
        let after = text_deleted(o, text).unwrap();
        assert(after.append == head);
        assert(typed(surface, after) =~= drop_end(full, text.len() as int));
    } else {
        let more = text.len() - o.append.len();
        let head = text.take(more);
        assert(text =~= head + o.append) by {
            assert forall|i: int| 0 <= i < o.append.len() implies text[more + i] == o.append[i] by {
                assert(full.skip(full.len() - text.len())[more + i] == text[more + i]);
            }
        }
        lemma_encode_concat(head, o.append);
        lemma_byte_len_chars(head);
        if text_deleted(o, text) is Some {
            let after = text_deleted(o, text).unwrap();
            lemma_drop_end_twice(surface, o.delete.chars as int, more);
            assert(after.delete.chars == o.delete.chars + more);
            assert(typed(surface, after) =~= drop_end(surface, o.delete.chars + more));
            assert(drop_end(full, text.len() as int) =~= drop_end(kept, more));
        }
    }
}

/// What was dropped from the end of a text that ends in `tail` comes back
/// when `tail` is typed again.
pub proof fn lemma_drop_end_restore(text: Seq<char>, tail: Seq<char>)
    requires
        ends_with(text, tail),
    ensures
        drop_end(text, tail.len() as int) + tail == text,
{
    assert(drop_end(text, tail.len() as int) + tail =~= text);
}

/// A text ends in what was added to it last.
pub proof fn lemma_ends_with_added_tail(text: Seq<char>, tail: Seq<char>)
    ensures
        ends_with(text + tail, tail),
{
    assert((text + tail).skip((text + tail).len() - tail.len()) =~= tail);
}

/// Dropping from the end what was just added gives the text before.
pub proof fn lemma_drop_end_added(text: Seq<char>, tail: Seq<char>)
    ensures
        drop_end(text + tail, tail.len() as int) == text,
{
    assert(drop_end(text + tail, tail.len() as int) =~= text);
}

} // verus!
