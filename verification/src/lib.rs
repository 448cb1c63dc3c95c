//! Structural comparison of JSON-like documents.
//!
//! Two parsed documents are walked in lockstep and every position is
//! classified as present only in the left document, present only in the
//! right document, or present in both with differing values.  Objects are
//! reconciled by key-set operations, arrays by an edit script, and the
//! three result channels are merged bottom-up into a [`ds::mismatch::Mismatch`].

pub mod ds;
pub mod enums;
pub mod ext;
pub mod json;
pub mod myers;
pub mod order;
pub mod process;
pub mod render;

pub use json::JsonVal;
pub use process::{compare_jsons, match_json};
