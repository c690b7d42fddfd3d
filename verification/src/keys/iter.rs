use vstd::prelude::*;

use crate::keys::{Key, Keys, KEY_COUNT};

verus! {

/// The keys of a chord that are still to come, in steno order.
pub struct IntoIter(pub u32);

/// The first key in steno order, from the place `from` on, whose bit is
/// set in `bits`.
pub open spec fn first_key(bits: u32, from: u32) -> Option<Key>
    decreases KEY_COUNT - from,
{
    if from >= KEY_COUNT {
        None
    } else {
        match Key::spec_from_index(from) {
            Some(key) if bits & key.mask() != 0 => Some(key),
            _ => first_key(bits, (from + 1) as u32),
        }
    }
}

impl Keys {
    /// The keys of the chord, to be taken one by one in steno order.
    pub fn into_iter(self) -> (r: IntoIter)
        ensures
            r.0 == self.0,
    {
        IntoIter(self.0)
    }
}

impl IntoIter {
    /// Takes the first key that is left, if there is one.
    pub fn next(&mut self) -> (r: Option<Key>)
        ensures
            r == first_key(old(self).0, 0),
            final(self).0 == (match r {
                Some(key) => old(self).0 & !key.mask(),
                None => old(self).0,
            }),
    {
        let mut index: u32 = 0;
        while index < KEY_COUNT
            invariant
                index <= KEY_COUNT,
                *self == *old(self),
                first_key(self.0, 0) == first_key(self.0, index),
            decreases KEY_COUNT - index,
        {
            match Key::from_index(index) {
                Some(key) => {
                    if self.0 & (1u32 << index) != 0 {
                        self.0 = self.0 & !(1u32 << index);
                        return Some(key);
                    }
                },
                None => {},
            }
            index += 1;
        }
        None
    }
}

} // verus!
