//! A dual-view normalized string: a value that carries an unmodified
//! original text and a derived normalized text, together with a per-character
//! alignment between them, so that offsets found in either view can be mapped
//! back to the other.

pub mod align;
pub mod laws;
pub mod normalized;
pub mod ranges;
pub mod text;
pub mod unicode;
