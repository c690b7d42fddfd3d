use vstd::prelude::*;

use crate::keys::{Key, Keys};

verus! {

/// The number of bytes in a packet of a steno machine.
pub const PACKET_LEN: usize = 6;

/// The number of bits of a packet that can stand for a key.
pub const PACKET_BITS: u32 = 48;

/// The key that the bit `bit` of a packet stands for. The bits are counted
/// from the lowest bit of the last byte.
pub open spec fn key_of_bit(bit: u32) -> Option<Key> {
    if bit == 0 {
        Some(Key::Z)
    } else if bit == 3 || bit == 5 || bit == 42 || bit == 44 {
        Some(Key::NumberBar)
    } else if bit == 8 {
        Some(Key::D)
    } else if bit == 9 {
        Some(Key::S2)
    } else if bit == 10 {
        Some(Key::T2)
    } else if bit == 11 {
        Some(Key::G)
    } else if bit == 12 {
        Some(Key::L)
    } else if bit == 13 {
        Some(Key::B)
    } else if bit == 14 {
        Some(Key::P2)
    } else if bit == 16 {
        Some(Key::R2)
    } else if bit == 17 {
        Some(Key::F)
    } else if bit == 18 {
        Some(Key::U)
    } else if bit == 19 {
        Some(Key::E)
    } else if bit == 20 || bit == 21 || bit == 26 || bit == 27 {
        Some(Key::Star)
    } else if bit == 28 {
        Some(Key::O)
    } else if bit == 29 {
        Some(Key::A)
    } else if bit == 30 {
        Some(Key::R)
    } else if bit == 32 {
        Some(Key::H)
    } else if bit == 33 {
        Some(Key::W)
    } else if bit == 34 {
        Some(Key::P)
    } else if bit == 35 {
        Some(Key::K)
    } else if bit == 36 {
        Some(Key::T)
    } else if bit == 37 || bit == 38 {
        Some(Key::S)
    } else {
        None
    }
}

fn lookup(bit: u32) -> (r: Option<Key>)
    ensures
        r == key_of_bit(bit),
{
    match bit {
        0 => Some(Key::Z),
        3 | 5 | 42 | 44 => Some(Key::NumberBar),
        8 => Some(Key::D),
        9 => Some(Key::S2),
        10 => Some(Key::T2),
        11 => Some(Key::G),
        12 => Some(Key::L),
        13 => Some(Key::B),
        14 => Some(Key::P2),
        16 => Some(Key::R2),
        17 => Some(Key::F),
        18 => Some(Key::U),
        19 => Some(Key::E),
        20 | 21 | 26 | 27 => Some(Key::Star),
        28 => Some(Key::O),
        29 => Some(Key::A),
        30 => Some(Key::R),
        32 => Some(Key::H),
        33 => Some(Key::W),
        34 => Some(Key::P),
        35 => Some(Key::K),
        36 => Some(Key::T),
        37 | 38 => Some(Key::S),
        _ => None,
    }
}

/// Whether the bit `bit` of the packet `packet` is set. The highest bit of
/// the first byte marks the start of the packet and counts as not set.
pub open spec fn bit_set(packet: Seq<u8>, bit: u32) -> bool {
    bit < 47 && packet[5 - (bit / 8) as int] & (1u8 << (bit % 8)) != 0
}

/// The bits of the keys that the bits of `packet` below `upto` stand for.
pub open spec fn decoded_upto(packet: Seq<u8>, upto: u32) -> u32
    decreases upto,
{
    if upto == 0 {
        0
    } else {
        let bit = (upto - 1) as u32;
        decoded_upto(packet, bit) | (if bit_set(packet, bit) {
            match key_of_bit(bit) {
                Some(key) => key.mask(),
                None => 0,
            }
        } else {
            0
        })
    }
}

/// The chord that the packet `packet` stands for: the keys of all its bits
/// that are set. `None` where the packet does not begin with a byte that
/// marks a start.
pub open spec fn decoded(packet: Seq<u8>) -> Option<Keys> {
    if packet[0] & 0x80 != 0 {
        Some(Keys(decoded_upto(packet, PACKET_BITS)))
    } else {
        None
    }
}

/// Reads the chord of a packet.
pub fn decode(packet: &[u8; 6]) -> (r: Option<Keys>)
    ensures
        r == decoded(packet@),
{
    if packet[0] & 0x80 == 0 {
        return None;
    }
    let mut bits: u32 = 0;
    let mut bit: u32 = 0;
    while bit < PACKET_BITS
        invariant
            bit <= PACKET_BITS,
            bits == decoded_upto(packet@, bit),
        decreases PACKET_BITS - bit,
    {
        let byte = packet[5 - (bit / 8) as usize];
        if bit < 47 && byte & (1u8 << (bit % 8)) != 0 {
            match lookup(bit) {
                Some(key) => {
                    bits = bits | (1u32 << key.index());
                },
                None => {
                    assert(bits | 0 == bits) by (bit_vector);
                },
            }
        } else {
            assert(bits | 0 == bits) by (bit_vector);
        }
        bit += 1;
    }
    Some(Keys(bits))
}

} // verus!
