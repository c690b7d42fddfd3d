use vstd::prelude::*;
use vstd::string::StringSliceAdditionalSpecFns;
use vstd::utf8::{decode_utf8, encode_utf8, is_char_boundary};

use crate::chars_or_bytes::CharsOrBytes;
use crate::text::byte_len;

verus! {

/// An edit of the text that was typed so far: first `delete_words` words
/// and then the text counted by `delete` are taken off its end, then
/// `append` is typed.
#[derive(Debug)]
pub struct Output {
    pub delete_words: usize,
    pub delete: CharsOrBytes,
    pub append: String,
}

/// What an `Output` holds, as plain values.
pub struct OutputModel {
    pub delete_words: usize,
    pub delete: CharsOrBytes,
    pub append: Seq<char>,
}

impl View for Output {
    type V = OutputModel;

    open spec fn view(&self) -> OutputModel {
        OutputModel { delete_words: self.delete_words, delete: self.delete, append: self.append@ }
    }
}

/// The empty edit.
pub open spec fn no_output() -> OutputModel {
    OutputModel {
        delete_words: 0,
        delete: CharsOrBytes { chars: 0, bytes: 0 },
        append: Seq::empty(),
    }
}

/// The edit `o` followed by the typing of `text`.
pub open spec fn appended(o: OutputModel, text: Seq<char>) -> OutputModel {
    OutputModel { append: o.append + text, ..o }
}

/// The edit `o` followed by the deletion of a text of `chars` characters
/// and `bytes` bytes. The bytes decide. Where what `o` would type has at
/// least that many, they are cut off its end: `None` where the cut would
/// not fall where a character begins. Otherwise nothing is typed any more,
/// and what the deletion exceeds the typed text by, in characters and in
/// bytes, is added to what `o` deletes: `None` where the text has fewer
/// characters than what `o` would type, or where a count would leave
/// `usize`.
pub open spec fn deleted(o: OutputModel, chars: nat, bytes: nat) -> Option<OutputModel> {
    let have = encode_utf8(o.append);
    if bytes <= have.len() {
        if is_char_boundary(have, have.len() - bytes) {
            Some(OutputModel { append: decode_utf8(have.take(have.len() - bytes)), ..o })
        } else {
            None
        }
    } else if chars >= o.append.len() && o.delete.chars + (chars - o.append.len())
        <= usize::MAX && o.delete.bytes + (bytes - byte_len(o.append)) <= usize::MAX {
        Some(
            OutputModel {
                delete: CharsOrBytes {
                    chars: (o.delete.chars + (chars - o.append.len())) as usize,
                    bytes: (o.delete.bytes + (bytes - byte_len(o.append))) as usize,
                },
                append: Seq::empty(),
                ..o
            },
        )
    } else {
        None
    }
}

/// The edit `o` followed by the deletion of the text `text`.
pub open spec fn text_deleted(o: OutputModel, text: Seq<char>) -> Option<OutputModel> {
    deleted(o, text.len(), byte_len(text))
}

/// The edit `o` followed by the deletion of `words` words. Words can only
/// be deleted while `o` types nothing: `None` otherwise, and where the
/// count would leave `usize`.
pub open spec fn words_deleted(o: OutputModel, words: usize) -> Option<OutputModel> {
    if o.append.len() == 0 && o.delete_words + words <= usize::MAX {
        Some(OutputModel { delete_words: (o.delete_words + words) as usize, ..o })
    } else {
        None
    }
}

impl Default for Output {
    fn default() -> (r: Output)
        ensures
            r@ == no_output(),
    {
        Output {
            delete_words: 0,
            delete: CharsOrBytes { chars: 0, bytes: 0 },
            append: String::new(),
        }
    }
}

impl Output {
    /// The empty edit.
    pub fn new() -> (r: Output)
        ensures
            r@ == no_output(),
    {
        Output::default()
    }

    /// Takes a text of the size `amount` off the end of the edit's result:
    /// off what the edit types where that has the bytes, else off what
    /// stood there before. Returns `false`, and leaves the edit as it is,
    /// where the cut would fall inside a character or a count cannot be
    /// kept.
    pub fn delete(&mut self, amount: CharsOrBytes) -> (ok: bool)
        ensures
            ok == deleted(old(self)@, amount.chars as nat, amount.bytes as nat) is Some,
            ok ==> final(self)@ == deleted(
                old(self)@,
                amount.chars as nat,
                amount.bytes as nat,
            ).unwrap(),
            !ok ==> *final(self) == *old(self),
    {
        let text = self.append.as_str();
        let have = text.as_bytes().len();
        if amount.bytes() <= have {
            let cut = have - amount.bytes();
            if !text.is_char_boundary(cut) {
                return false;
            }
            let (kept, _) = text.split_at(cut);
            proof {
                vstd::utf8::encode_utf8_decode_utf8(kept@);
                assert(encode_utf8(old(self)@.append).subrange(0, cut as int) =~= encode_utf8(
                    old(self)@.append,
                ).take(cut as int));
            }
            let kept = kept.to_owned();
            self.append = kept;
            true
        } else {
            let size = CharsOrBytes::for_str(self.append.as_str());
            match amount.checked_sub(size) {
                None => false,
                Some(rest) => match self.delete.checked_add(rest) {
                    None => false,
                    Some(sum) => {
                        self.delete = sum;
                        self.append = String::new();
                        true
                    },
                },
            }
        }
    }

    /// Whether the edit types nothing.
    pub fn types_nothing(&self) -> (r: bool)
        ensures
            r == (self@.append.len() == 0),
    {
        self.append.as_str().unicode_len() == 0
    }

    /// Asks for `words` more words to be deleted, of an edit that types
    /// nothing yet. Returns `false`, and leaves the edit as it is, where
    /// the count would leave `usize`.
    pub fn delete_words(&mut self, words: usize) -> (ok: bool)
        requires
            old(self)@.append.len() == 0,
        ensures
            ok == (old(self)@.delete_words + words <= usize::MAX),
            ok == words_deleted(old(self)@, words) is Some,
            ok ==> final(self)@ == words_deleted(old(self)@, words).unwrap(),
            !ok ==> *final(self) == *old(self),
    {
        match self.delete_words.checked_add(words) {
            None => false,
            Some(sum) => {
                self.delete_words = sum;
                true
            },
        }
    }

    /// Types `text` after everything else.
    pub fn append(&mut self, text: &str)
        ensures
            final(self)@ == appended(old(self)@, text@),
    {
        self.append.append(text);
    }

    /// Puts `new` in the place of a text of the size `old_size` at the end
    /// of the edit's result. Returns `false`, and leaves the edit as it is,
    /// where the deletion cannot be made.
    pub fn replace(&mut self, old_size: CharsOrBytes, new: &str) -> (ok: bool)
        ensures
            ok == deleted(old(self)@, old_size.chars as nat, old_size.bytes as nat) is Some,
            ok ==> final(self)@ == appended(
                deleted(old(self)@, old_size.chars as nat, old_size.bytes as nat).unwrap(),
                new@,
            ),
            !ok ==> *final(self) == *old(self),
    {
        if self.delete(old_size) {
            self.append(new);
            true
        } else {
            false
        }
    }

    /// Makes the edit empty.
    pub fn clear(&mut self)
        ensures
            final(self)@ == no_output(),
    {
        self.append = String::new();
        self.delete = CharsOrBytes { chars: 0, bytes: 0 };
        self.delete_words = 0;
    }
}

} // verus!
