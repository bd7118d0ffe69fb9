//! A content-addressed, append-only blob store kept as one framed byte log.
//!
//! Blobs are keyed by their 256-bit cryptographic digest. The log is a
//! concatenation of 64-byte-aligned records, each framing one blob behind a
//! 64-byte header; an in-memory index resolves a digest to the payload range
//! of the record that carries it, together with a lazily-checked validation
//! state.

pub mod clock;
pub mod digest;
pub mod errors;
pub mod laws;
pub mod record;
pub mod store;

pub use digest::blob_digest;
pub use errors::FlushError;
pub use errors::GetError;
pub use errors::InsertError;
pub use errors::LoadError;
pub use record::Header;
pub use record::ParseResult;
pub use record::Record;
pub use store::EntryModel;
pub use store::GetOutcome;
pub use store::Pile;
pub use store::PileView;
pub use store::ValidationState;
