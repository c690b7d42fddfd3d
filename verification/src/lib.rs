//! A stenotype engine: chords of a steno keyboard come in, and edits of the
//! text that was typed so far go out.
//!
//! [`steno::Steno`] is the engine. It looks chords up in a [`dict::Dict`],
//! several at a time where the dictionary has an entry for them, spells
//! endings by the rules of [`steno::orthography`] and a
//! [`word_list::WordList`], and keeps what it wrote in a backlog so that it
//! can be taken back. What the engine does is stated in [`steno::model`],
//! and what follows from that in [`steno::backlog_law`],
//! [`steno::step_law`], [`steno::undo_law`], [`steno::flush_law`] and
//! [`steno::replay_law`].

pub mod args;
pub mod bounded_queue;
pub mod chars_or_bytes;
pub mod dict;
pub mod frontends;
pub mod keys;
pub mod steno;
pub mod table;
pub mod text;
pub mod trainer;
pub mod word_list;
