//! A concurrent, persistable store mapping a (document, field) pair to a single
//! orderable numeric value, with a verified compact binary codec and a verified
//! entry-listing representation for embedding in larger structured payloads.

pub mod codec;
pub mod data;
pub mod store;

pub use data::DecodeError;
pub use data::DocumentId;
pub use data::Entry;
pub use data::FieldId;
pub use data::Key;
pub use data::Number;
pub use codec::encoded_len_of_header;
pub use store::RankedMap;
