use vstd::prelude::*;

use crate::text::str_eq;

verus! {

/// What the program is started with.
#[derive(Debug)]
pub struct Args {
    /// The path of the dictionary.
    pub dict: String,
    /// The path of the word list.
    pub word_list: String,
    pub frontend: Frontend,
}

/// How chords come in and text goes out.
#[derive(Debug)]
pub enum Frontend {
    InputMethod(InputMethodArgs),
    VirtualKeyboard(VirtualKeyboardArgs),
}

/// Run as an input method: the keys of the normal keyboard stand for
/// those of a stenotype.
#[derive(Debug)]
pub struct InputMethodArgs {}

/// The protocol that a steno machine speaks.
#[derive(Debug, Clone, Copy, PartialEq, Eq, Structural)]
pub enum StenoProtocol {
    Gemini,
}

/// A name that stands for no protocol.
#[derive(Debug, Clone, Copy, PartialEq, Eq, Structural)]
pub struct StenoProtocolFromStrError;

impl StenoProtocol {
    /// The protocol that the name `s` stands for.
    pub open spec fn named(s: Seq<char>) -> Option<StenoProtocol> {
        if s == "gemini"@ {
            Some(StenoProtocol::Gemini)
        } else {
            None
        }
    }

    /// Reads a protocol from its name.
    pub fn parse(s: &str) -> (r: Result<StenoProtocol, StenoProtocolFromStrError>)
        ensures
            r is Ok == StenoProtocol::named(s@) is Some,
            r matches Ok(protocol) ==> StenoProtocol::named(s@) == Some(protocol),
    {
        if str_eq(s, "gemini") {
            Ok(StenoProtocol::Gemini)
        } else {
            Err(StenoProtocolFromStrError)
        }
    }
}

impl Default for StenoProtocol {
    fn default() -> (r: StenoProtocol)
        ensures
            r == StenoProtocol::Gemini,
    {
        StenoProtocol::Gemini
    }
}

impl core::str::FromStr for StenoProtocol {
    type Err = StenoProtocolFromStrError;

    fn from_str(s: &str) -> (r: Result<StenoProtocol, StenoProtocolFromStrError>)
        ensures
            r is Ok == StenoProtocol::named(s@) is Some,
            r matches Ok(protocol) ==> StenoProtocol::named(s@) == Some(protocol),
    {
        StenoProtocol::parse(s)
    }
}

/// Run as a virtual keyboard, taking input from a dedicated stenotype
/// machine.
#[derive(Debug)]
pub struct VirtualKeyboardArgs {
    /// The path of the steno device.
    pub device: Option<String>,
    /// The protocol that the steno device speaks.
    pub protocol: StenoProtocol,
}

} // verus!
