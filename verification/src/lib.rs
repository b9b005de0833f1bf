//! A rich text document assembled from text runs and embedded attachments,
//! serialized into a self-describing rich binary payload (with a text-only
//! fallback) suitable for handing to a clipboard.
//!
//! The document is append-only: runs keep their order forever and the total
//! length only grows. Serialization selects a range of the document's
//! elementary units (one unit per text byte, one per attachment) and either
//! produces the full payload or fails atomically.

pub mod attachment;
pub mod document;
pub mod flat;
pub mod range;
pub mod serialize;
