//! What the two ways of running the engine decide: how single keys make a
//! chord, what a packet of a steno machine stands for, and which keys a
//! virtual keyboard presses for an edit.

pub mod chord;
pub mod gemini;
pub mod typing;
