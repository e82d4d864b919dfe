//! What the bytes of a record mean under a descriptor: where each field lies,
//! what it holds, and when a buffer holds a whole record.

use vstd::prelude::*;
use crate::error::LayoutError;
use crate::layout::{
    element_width, fixed_count, fixed_width, has_sequence, length_field, lemma_fixed_fields,
    minimum_size, offset_of, record_size, valid_field, valid_fields, FieldKind, LayoutView,
};
use crate::scalar::scalar_value;

verus! {

/// The bytes of the scalar field at position `i`.
pub open spec fn field_bytes(kinds: Seq<FieldKind>, bytes: Seq<u8>, i: int) -> Seq<u8> {
    bytes.subrange(
        offset_of(kinds, i) as int,
        (offset_of(kinds, i) + fixed_width(kinds[i])) as int,
    )
}

/// The value of the scalar field at position `i`.
pub open spec fn field_value(layout: LayoutView, bytes: Seq<u8>, i: int) -> nat {
    scalar_value(layout.order, field_bytes(layout.kinds, bytes, i))
}

/// The number of elements that the record declares: the value of the field
/// that the sequence names, and zero for a record without a sequence.
pub open spec fn declared_length(layout: LayoutView, bytes: Seq<u8>) -> nat {
    if has_sequence(layout.kinds) {
        field_value(layout, bytes, length_field(layout.kinds))
    } else {
        0
    }
}

/// The byte offset of element `k` of the sequence.
pub open spec fn element_offset(kinds: Seq<FieldKind>, k: int) -> int {
    minimum_size(kinds) + k * element_width(kinds)
}

/// The bytes of element `k` of the sequence.
pub open spec fn element_bytes(kinds: Seq<FieldKind>, bytes: Seq<u8>, k: int) -> Seq<u8> {
    bytes.subrange(element_offset(kinds, k), element_offset(kinds, k) + element_width(kinds))
}

/// The value of element `k` of the sequence.
pub open spec fn element_value(layout: LayoutView, bytes: Seq<u8>, k: int) -> nat {
    scalar_value(layout.order, element_bytes(layout.kinds, bytes, k))
}

/// What reading `bytes` comes to: the size of the record that `bytes` starts
/// with, or the reason why it starts with none.
///
/// The buffer must hold the fixed part; the byte length of the declared
/// sequence must fit the address space; and the buffer must hold the sequence.
pub open spec fn parsed_size(layout: LayoutView, bytes: Seq<u8>) -> Result<nat, LayoutError> {
    let length = declared_length(layout, bytes);
    if bytes.len() < minimum_size(layout.kinds) {
        Err(LayoutError::TooShort)
    } else if length * element_width(layout.kinds) > usize::MAX {
        Err(LayoutError::LengthOverflow)
    } else if record_size(layout.kinds, length) > bytes.len() {
        Err(LayoutError::TooShort)
    } else {
        Ok(record_size(layout.kinds, length))
    }
}

/// A record: a descriptor and the bytes that it describes.
pub struct RecordView {
    pub layout: LayoutView,
    pub bytes: Seq<u8>,
}

impl RecordView {
    /// The bytes are exactly one record of the layout.
    pub open spec fn wf(self) -> bool {
        &&& valid_fields(self.layout.kinds)
        &&& parsed_size(self.layout, self.bytes) == Ok::<nat, LayoutError>(self.bytes.len())
    }

    /// The number of elements of the sequence.
    pub open spec fn length(self) -> nat {
        declared_length(self.layout, self.bytes)
    }

    /// The value of the scalar field at position `i`.
    pub open spec fn fixed(self, i: int) -> nat {
        field_value(self.layout, self.bytes, i)
    }

    /// The value of element `k` of the sequence.
    pub open spec fn element(self, k: int) -> nat {
        element_value(self.layout, self.bytes, k)
    }

    /// The elements of the sequence, in order.
    pub open spec fn elements(self) -> Seq<nat> {
        Seq::new(self.length(), |k: int| self.element(k))
    }
}

/// Element `k` of a sequence of `n` elements of width `w` ends where element
/// `k + 1` starts, and no later than the sequence does.
pub proof fn lemma_element_span(k: int, n: int, w: int)
    by (nonlinear_arith)
    requires
        0 <= k < n,
        0 <= w,
    ensures
        0 <= k * w,
        k * w + w == (k + 1) * w,
        (k + 1) * w <= n * w,
{
}

/// A scalar field reads the same in a buffer and in any prefix of it that
/// holds the fixed part.
pub proof fn lemma_field_in_prefix(kinds: Seq<FieldKind>, bytes: Seq<u8>, size: int, i: int)
    requires
        valid_fields(kinds),
        0 <= i < fixed_count(kinds),
        minimum_size(kinds) <= size <= bytes.len(),
    ensures
        field_bytes(kinds, bytes.take(size), i) == field_bytes(kinds, bytes, i),
{
    lemma_fixed_fields(kinds, i);
    assert(field_bytes(kinds, bytes.take(size), i) =~= field_bytes(kinds, bytes, i));
}

/// An element reads the same in a buffer and in any prefix of it that holds
/// the element.
pub proof fn lemma_element_in_prefix(kinds: Seq<FieldKind>, bytes: Seq<u8>, size: int, k: int)
    requires
        0 <= k,
        element_offset(kinds, k) + element_width(kinds) <= size <= bytes.len(),
    ensures
        element_bytes(kinds, bytes.take(size), k) == element_bytes(kinds, bytes, k),
{
    assert(0 <= k * element_width(kinds)) by (nonlinear_arith)
        requires
            0 <= k,
            0 <= element_width(kinds),
    ;
    assert(element_bytes(kinds, bytes.take(size), k) =~= element_bytes(kinds, bytes, k));
}

/// A buffer declares the same length as any prefix of it that holds the fixed
/// part.
pub proof fn lemma_length_in_prefix(layout: LayoutView, bytes: Seq<u8>, size: int)
    requires
        valid_fields(layout.kinds),
        minimum_size(layout.kinds) <= size <= bytes.len(),
    ensures
        declared_length(layout, bytes.take(size)) == declared_length(layout, bytes),
{
    let kinds = layout.kinds;
    if has_sequence(kinds) {
        assert(valid_field(kinds, kinds.len() - 1));
        lemma_field_in_prefix(kinds, bytes, size, length_field(kinds));
    }
}

/// The record that a buffer starts with holds what the buffer holds: cut
/// off at the record's size, the buffer shows the same declared length, the
/// same value in every scalar field and the same value in every element.
pub proof fn lemma_prefix_reads_alike(layout: LayoutView, bytes: Seq<u8>)
    requires
        valid_fields(layout.kinds),
        parsed_size(layout, bytes) is Ok,
    ensures
        ({
            let record = bytes.take(parsed_size(layout, bytes).unwrap() as int);
            &&& declared_length(layout, record) == declared_length(layout, bytes)
            &&& forall|i: int|
                0 <= i < fixed_count(layout.kinds) ==> #[trigger] field_value(layout, record, i)
                    == field_value(layout, bytes, i)
            &&& forall|k: int|
                0 <= k < declared_length(layout, bytes) ==> #[trigger] element_value(
                    layout,
                    record,
                    k,
                ) == element_value(layout, bytes, k)
        }),
{
    let kinds = layout.kinds;
    let size = parsed_size(layout, bytes).unwrap() as int;
    let record = bytes.take(size);
    lemma_outcome_defined(layout, bytes);
    lemma_length_in_prefix(layout, bytes, size);
    assert forall|i: int| 0 <= i < fixed_count(kinds) implies #[trigger] field_value(
        layout,
        record,
        i,
    ) == field_value(layout, bytes, i) by {
        lemma_field_in_prefix(kinds, bytes, size, i);
    }
    assert forall|k: int| 0 <= k < declared_length(layout, bytes) implies #[trigger] element_value(
        layout,
        record,
        k,
    ) == element_value(layout, bytes, k) by {
        lemma_element_span(k, declared_length(layout, bytes) as int, element_width(kinds) as int);
        lemma_element_in_prefix(kinds, bytes, size, k);
    }
}

/// The record that a buffer starts with is a record by itself: cut off at its
/// size, it reads as exactly one record.
pub proof fn lemma_record_prefix(layout: LayoutView, bytes: Seq<u8>)
    requires
        valid_fields(layout.kinds),
        parsed_size(layout, bytes) is Ok,
    ensures
        (RecordView { layout, bytes: bytes.take(parsed_size(layout, bytes).unwrap() as int) }).wf(),
{
    let size = parsed_size(layout, bytes).unwrap() as int;
    assert(0 <= declared_length(layout, bytes) * element_width(layout.kinds)) by (nonlinear_arith)
        requires
            0 <= declared_length(layout, bytes),
            0 <= element_width(layout.kinds),
    ;
    lemma_length_in_prefix(layout, bytes, size);
}

/// Every field and every element of a record lies within the record's bytes.
pub proof fn lemma_spans_in_bounds(record: RecordView, i: int, k: int)
    requires
        record.wf(),
    ensures
        0 <= i < fixed_count(record.layout.kinds) ==> offset_of(record.layout.kinds, i)
            + fixed_width(record.layout.kinds[i]) <= record.bytes.len(),
        0 <= k < record.length() ==> 0 <= element_offset(record.layout.kinds, k)
            && element_offset(record.layout.kinds, k) + element_width(record.layout.kinds)
            <= record.bytes.len(),
{
    let kinds = record.layout.kinds;
    if 0 <= i < fixed_count(kinds) {
        lemma_fixed_fields(kinds, i);
    }
    if 0 <= k < record.length() {
        lemma_element_span(k, record.length() as int, element_width(kinds) as int);
    }
}

/// Reading never ends without a verdict, and never claims more than the
/// buffer holds: the outcome is a record size within the buffer, `TooShort` or
/// `LengthOverflow`, whatever the bytes are.
pub proof fn lemma_outcome_defined(layout: LayoutView, bytes: Seq<u8>)
    ensures
        match parsed_size(layout, bytes) {
            Ok(size) => minimum_size(layout.kinds) <= size <= bytes.len(),
            Err(e) => e == LayoutError::TooShort || e == LayoutError::LengthOverflow,
        },
{
    assert(0 <= declared_length(layout, bytes) * element_width(layout.kinds)) by (nonlinear_arith)
        requires
            0 <= declared_length(layout, bytes),
            0 <= element_width(layout.kinds),
    ;
}

/// A buffer shorter than the smallest record is rejected as `TooShort`.
pub proof fn lemma_short_buffer_rejected(layout: LayoutView, bytes: Seq<u8>)
    requires
        bytes.len() < minimum_size(layout.kinds),
    ensures
        parsed_size(layout, bytes) == Err::<nat, LayoutError>(LayoutError::TooShort),
{
}

/// An addressable buffer that holds the fixed part and as many elements as
/// it declares is accepted, at exactly the size of the record it declares:
/// nothing is left over where the buffer is of that size, and every byte
/// beyond it is left over where the buffer is longer.
pub proof fn lemma_whole_record_accepted(layout: LayoutView, bytes: Seq<u8>)
    requires
        bytes.len() <= usize::MAX,
        record_size(layout.kinds, declared_length(layout, bytes)) <= bytes.len(),
    ensures
        parsed_size(layout, bytes) == Ok::<nat, LayoutError>(
            record_size(layout.kinds, declared_length(layout, bytes)),
        ),
        bytes.skip(record_size(layout.kinds, declared_length(layout, bytes)) as int).len()
            == bytes.len() - record_size(layout.kinds, declared_length(layout, bytes)),
{
    assert(0 <= declared_length(layout, bytes) * element_width(layout.kinds)) by (nonlinear_arith)
        requires
            0 <= declared_length(layout, bytes),
            0 <= element_width(layout.kinds),
    ;
}

/// A buffer that declares more elements than it holds is rejected as
/// `TooShort`, however long it is, as long as the byte length of the declared
/// sequence fits the address space (where it does not, the buffer is rejected
/// as `LengthOverflow`).
pub proof fn lemma_overstated_length_rejected(layout: LayoutView, bytes: Seq<u8>)
    requires
        declared_length(layout, bytes) * element_width(layout.kinds) <= usize::MAX,
        record_size(layout.kinds, declared_length(layout, bytes)) > bytes.len(),
    ensures
        parsed_size(layout, bytes) == Err::<nat, LayoutError>(LayoutError::TooShort),
{
}

} // verus!
