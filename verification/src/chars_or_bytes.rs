use vstd::prelude::*;
use vstd::string::StringSliceAdditionalSpecFns;

use crate::text::byte_len;

verus! {

/// The size of a piece of text, counted both in characters and in UTF-8
/// bytes. One frontend deletes by characters and the other by bytes, so
/// every deletion carries both counts.
#[derive(Debug, Clone, Copy, PartialEq, Eq, Structural)]
pub struct CharsOrBytes {
    pub chars: usize,
    pub bytes: usize,
}

impl CharsOrBytes {
    /// The size of `s`: its number of characters and of UTF-8 bytes.
    pub fn for_str(s: &str) -> (r: Self)
        ensures
            r.chars == s@.len(),
            r.bytes == byte_len(s@),
    {
        Self { chars: s.unicode_len(), bytes: s.as_bytes().len() }
    }

    /// The number of characters.
    pub open spec fn spec_chars(self) -> usize {
        self.chars
    }

    /// The number of bytes.
    pub open spec fn spec_bytes(self) -> usize {
        self.bytes
    }

    /// The number of characters.
    #[verifier::when_used_as_spec(spec_chars)]
    pub fn chars(self) -> (n: usize)
        ensures
            n == self.chars,
    {
        self.chars
    }

    /// The number of bytes.
    #[verifier::when_used_as_spec(spec_bytes)]
    pub fn bytes(self) -> (n: usize)
        ensures
            n == self.bytes,
    {
        self.bytes
    }

    /// The componentwise sum, or `None` where a count leaves `usize`.
    pub fn checked_add(self, rhs: Self) -> (r: Option<Self>)
        ensures
            r == (if self.chars + rhs.chars <= usize::MAX && self.bytes + rhs.bytes <= usize::MAX {
                Some(CharsOrBytes {
                    chars: (self.chars + rhs.chars) as usize,
                    bytes: (self.bytes + rhs.bytes) as usize,
                })
            } else {
                None
            }),
    {
        match (self.chars.checked_add(rhs.chars), self.bytes.checked_add(rhs.bytes)) {
            (Some(chars), Some(bytes)) => Some(Self { chars, bytes }),
            _ => None,
        }
    }

    /// The componentwise difference, or `None` where `rhs` exceeds `self`
    /// in either count.
    pub fn checked_sub(self, rhs: Self) -> (r: Option<Self>)
        ensures
            r == (if rhs.chars <= self.chars && rhs.bytes <= self.bytes {
                Some(CharsOrBytes {
                    chars: (self.chars - rhs.chars) as usize,
                    bytes: (self.bytes - rhs.bytes) as usize,
                })
            } else {
                None
            }),
    {
        if rhs.chars <= self.chars && rhs.bytes <= self.bytes {
            Some(Self { chars: self.chars - rhs.chars, bytes: self.bytes - rhs.bytes })
        } else {
            None
        }
    }
}

impl Default for CharsOrBytes {
    fn default() -> (r: Self)
        ensures
            r.chars == 0,
            r.bytes == 0,
    {
        Self { chars: 0, bytes: 0 }
    }
}

impl core::ops::Add for CharsOrBytes {
    type Output = Self;

    fn add(self, rhs: Self) -> (r: Self) {
        Self { chars: self.chars + rhs.chars, bytes: self.bytes + rhs.bytes }
    }
}

impl vstd::std_specs::ops::AddSpecImpl for CharsOrBytes {
    open spec fn obeys_add_spec() -> bool {
        true
    }

    open spec fn add_req(self, rhs: Self) -> bool {
        self.chars + rhs.chars <= usize::MAX && self.bytes + rhs.bytes <= usize::MAX
    }

    open spec fn add_spec(self, rhs: Self) -> Self {
        CharsOrBytes {
            chars: (self.chars + rhs.chars) as usize,
            bytes: (self.bytes + rhs.bytes) as usize,
        }
    }
}

impl core::ops::Sub for CharsOrBytes {
    type Output = Self;

    fn sub(self, rhs: Self) -> (r: Self) {
        Self { chars: self.chars - rhs.chars, bytes: self.bytes - rhs.bytes }
    }
}

impl vstd::std_specs::ops::SubSpecImpl for CharsOrBytes {
    open spec fn obeys_sub_spec() -> bool {
        true
    }

    open spec fn sub_req(self, rhs: Self) -> bool {
        rhs.chars <= self.chars && rhs.bytes <= self.bytes
    }

    open spec fn sub_spec(self, rhs: Self) -> Self {
        CharsOrBytes {
            chars: (self.chars - rhs.chars) as usize,
            bytes: (self.bytes - rhs.bytes) as usize,
        }
    }
}

} // verus!
