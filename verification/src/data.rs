use vstd::prelude::*;

verus! {

/// Opaque identifier of a document within the index, carried as its raw value.
#[derive(Clone, Copy, PartialEq, Eq, Hash, Debug, Structural)]
pub struct DocumentId(pub u64);

/// Opaque identifier of a schema field within the index, carried as its raw value.
#[derive(Clone, Copy, PartialEq, Eq, Hash, Debug, Structural)]
pub struct FieldId(pub u16);

/// An orderable numeric ranking value. A floating-point value is carried as its
/// IEEE-754 bit pattern, so that the store itself never computes on floats;
/// comparison semantics belong to the consumer of the value, not to the store.
#[derive(Clone, Copy, PartialEq, Eq, Hash, Debug, Structural)]
pub enum Number {
    Unsigned(u64),
    Signed(i64),
    Float(u64),
}

/// The composite key of the store: one document paired with one field.
pub type Key = (DocumentId, FieldId);

/// One stored pair, as listed by the serialized representations.
pub type Entry = (Key, Number);

/// Why a byte stream was rejected by the binary decoder.
#[derive(Clone, Copy, PartialEq, Eq, Debug, Structural)]
pub enum DecodeError {
    /// The stream ends before the declared entries are complete.
    Truncated,
    /// An entry carries a numeric tag that names no known `Number` variant.
    InvalidNumberTag,
}

} // verus!
