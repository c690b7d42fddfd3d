use vstd::prelude::*;

use crate::keys::{Key, Keys, ALL_BITS};

verus! {

/// Makes chords of single keys that go down and up: a chord is all the
/// keys that went down since the last chord, and it is complete at the
/// moment when the last key that is held goes up.
#[derive(Debug, Clone, Copy, PartialEq, Eq, Structural)]
pub struct ChordTracker {
    /// The keys that went down since the last chord.
    pub seen: Keys,
    /// The keys that are held now.
    pub current: Keys,
}

impl ChordTracker {
    /// A tracker before any key went down.
    pub fn new() -> (r: ChordTracker)
        ensures
            r == (ChordTracker { seen: Keys(0), current: Keys(0) }),
    {
        ChordTracker { seen: Keys(0), current: Keys(0) }
    }

    /// The key `key` goes down.
    pub fn key_pressed(&mut self, key: Key)
        ensures
            final(self).seen == Keys(old(self).seen.0 | key.mask()),
            final(self).current == Keys(old(self).current.0 | key.mask()),
    {
        let mask = 1u32 << key.index();
        self.seen = Keys(self.seen.0 | mask);
        self.current = Keys(self.current.0 | mask);
    }

    /// The keys that are still held once `key` has gone up.
    pub open spec fn held_after(self, key: Key) -> Keys {
        Keys(self.current.0 & (!key.mask() & ALL_BITS))
    }

    /// The key `key` goes up. Where no key is held any more and some key
    /// went down before, the chord of those keys is returned, and the next
    /// chord begins.
    pub fn key_released(&mut self, key: Key) -> (r: Option<Keys>)
        ensures
            r == (if old(self).held_after(key).0 == 0 && old(self).seen.0 != 0 {
                Some(old(self).seen)
            } else {
                None
            }),
            *final(self) == (if r is Some {
                ChordTracker { seen: Keys(0), current: Keys(0) }
            } else {
                ChordTracker { seen: old(self).seen, current: old(self).held_after(key) }
            }),
    {
        let mask = 1u32 << key.index();
        self.current = Keys(self.current.0 & (!mask & ALL_BITS));
        if self.current.is_empty() && !self.seen.is_empty() {
            let chord = self.seen;
            self.seen = Keys::empty();
            Some(chord)
        } else {
            None
        }
    }
}

} // verus!
