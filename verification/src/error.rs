//! The errors that encoding and decoding report.

use vstd::prelude::*;

verus! {

/// Why a byte stream could not be decoded as the expected types.
#[derive(Debug, Clone, Copy, PartialEq, Eq, Structural)]
pub enum DecodeError {
    /// The stream does not begin with the four magic bytes.
    BadMagic,
    /// The type table holds an unknown opcode, an index out of range, members
    /// out of order or two methods of one name; or the expected types
    /// themselves cannot be put into a table.
    MalformedTable,
    /// The stream ends inside a value, a length or a table entry.
    UnexpectedEof,
    /// A variable-length integer exceeds the fixed width it is read into.
    Overflow,
    /// A text value is not valid UTF-8.
    InvalidUtf8,
    /// A byte that must be 0 or 1 (a boolean, an option's presence flag, the
    /// marker of a reference to a service or function) is neither, a
    /// variant's member index is out of range, or a value of the empty type
    /// is asked for.
    MalformedValue,
    /// The value is nested deeper than the reader was allowed to descend.
    DepthLimit,
    /// The written variant member is not a member of the expected variant with
    /// a compatible payload.
    UnknownVariantTag { table_index: usize, key: u32 },
    /// The written type of a record field cannot be read as the expected one.
    FieldSubtypeMismatch { table_index: usize, key: u32 },
    /// A field that the expected record requires was not written.
    MissingRequiredField { table_index: usize, key: u32 },
}

/// Why values could not be written under their declared types.
#[derive(Debug, Clone, Copy, PartialEq, Eq, Structural)]
pub enum EncodeError {
    /// A value does not have the shape that its declared type requires, or
    /// there are not as many values as types.
    TypeMismatch,
    /// A type refers to a definition that does not exist, or the definitions
    /// refer only to each other.
    UnresolvedReference,
    /// The members of a record or variant type do not ascend by key, or two
    /// methods of a service type share a name.
    MalformedType,
}

} // verus!
