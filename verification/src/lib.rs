//! Core of a clipboard history manager: a bounded, deduplicated, ordered log
//! of past clipboard snapshots with a binary persistence format, a heuristic
//! classifier for sensitive-looking text, and the decision logic of the
//! capture and selection flows.
//!
//! All I/O (files, clipboard tools, the selector menu) lives outside this
//! library; these modules work on plain values and state exactly what they
//! compute.

pub mod codec;
pub mod daemon;
pub mod history;
pub mod password;
pub mod select;
pub mod text;
