//! Replicated state of one collaboratively edited text document: a
//! tombstone-based sequence whose visible text is the surviving characters
//! ordered by a 128-bit uid.
pub mod buffer;
pub mod document;
pub mod laws;
pub mod text;
pub mod uid;

pub use document::AppError as GameError;
pub use document::{AppError, DocOp, DocumentView, Event, PresenceEntry, SharedDocument};
pub use text::{render_text, Element};
pub use uid::{compose_uid, encode_executor_address, fingerprint_of_bytes, make_uid};
