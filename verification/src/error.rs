//! The ways in which describing, reading or writing a record can fail.

use vstd::prelude::*;

verus! {

/// Why a descriptor, a buffer or a set of values was rejected.
#[derive(Clone, Copy, Debug, PartialEq, Eq, Structural)]
pub enum LayoutError {
    /// The field list does not describe a record: a width is not that of a
    /// scalar, a variable-length field is not the last one, or its length does
    /// not refer to an earlier fixed-size field.
    Definition,
    /// The buffer is shorter than the record it is declared to hold.
    TooShort,
    /// A sequence length cannot be carried: the byte length of the sequence
    /// does not fit the address space, or the element count does not fit the
    /// field that declares it.
    LengthOverflow,
    /// The size of a record does not fit the address space.
    SizeOverflow,
    /// The values handed to the writer are not values of the record's fields.
    ValueMismatch,
}

} // verus!
