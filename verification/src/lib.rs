//! Incremental text synchronisation: from the text a language server last saw
//! and the text an editor now holds, compute range-based change events.

pub mod chars_diff;
pub mod document;
pub mod event;
pub mod hash;
pub mod laws;
pub mod rope_diff;
pub mod script;
pub mod text;
