//! The writer: the size of the record first, then its bytes, field by field,
//! into one freshly allocated buffer.

use vstd::prelude::*;
use vstd::pervasive::unreached;
use crate::error::LayoutError;
use crate::layout::{
    element_width, fixed_count, fixed_width, has_sequence, lemma_fixed_fields, length_field,
    minimum_size, offset_of, record_size, valid_field, valid_fields, FieldKind, LayoutView,
    RecordLayout,
};
use crate::record::{
    declared_length, element_bytes, element_value, field_bytes, field_value, lemma_element_span,
    parsed_size,
};
use crate::scalar::{
    append_scalar, capacity, fits, lemma_le_bytes_len, lemma_scalar_round_trip, scalar_bytes,
    ByteOrder,
};

verus! {

/// The value that the scalar field at position `i` is written with: the one
/// supplied, or, where none is supplied, the number of elements.
pub open spec fn resolved(fixed: Seq<Option<u64>>, length: nat, i: int) -> nat {
    match fixed[i] {
        Some(v) => v as nat,
        None => length,
    }
}

/// Whether what is supplied for the scalar field at position `i` is a value
/// of that field. A supplied value must fit the field's width, and, for the
/// field that holds the element count, be that count. Only for that field may
/// the value be left out.
pub open spec fn value_conforms(
    kinds: Seq<FieldKind>,
    fixed: Seq<Option<u64>>,
    length: nat,
    i: int,
) -> bool {
    let counts = has_sequence(kinds) && i == length_field(kinds);
    match fixed[i] {
        Some(v) => (v as nat) < capacity(fixed_width(kinds[i])) && (counts ==> v as nat == length),
        None => counts,
    }
}

/// Whether `fixed` and `elements` are the values of a record of these fields:
/// one entry per scalar field, each a value of its field, and elements only
/// where the record ends in a sequence, each fitting the element width.
pub open spec fn values_conform(
    kinds: Seq<FieldKind>,
    fixed: Seq<Option<u64>>,
    elements: Seq<u64>,
) -> bool {
    &&& fixed.len() == fixed_count(kinds)
    &&& forall|i: int|
        0 <= i < fixed.len() ==> #[trigger] value_conforms(kinds, fixed, elements.len(), i)
    &&& !has_sequence(kinds) ==> elements.len() == 0
    &&& forall|k: int|
        0 <= k < elements.len() ==> (#[trigger] elements[k] as nat) < capacity(
            element_width(kinds),
        )
}

/// Whether the field that holds the element count can hold `length`.
pub open spec fn length_fits(kinds: Seq<FieldKind>, length: nat) -> bool {
    has_sequence(kinds) ==> length < capacity(fixed_width(kinds[length_field(kinds)]))
}

/// The bytes of the first `count` scalar fields.
pub open spec fn fixed_part(
    layout: LayoutView,
    fixed: Seq<Option<u64>>,
    length: nat,
    count: int,
) -> Seq<u8>
    decreases count,
{
    if count <= 0 {
        Seq::empty()
    } else {
        fixed_part(layout, fixed, length, count - 1) + scalar_bytes(
            layout.order,
            resolved(fixed, length, count - 1),
            fixed_width(layout.kinds[count - 1]),
        )
    }
}

/// The bytes of the first `count` elements.
pub open spec fn sequence_part(layout: LayoutView, elements: Seq<u64>, count: int) -> Seq<u8>
    decreases count,
{
    if count <= 0 {
        Seq::empty()
    } else {
        sequence_part(layout, elements, count - 1) + scalar_bytes(
            layout.order,
            elements[count - 1] as nat,
            element_width(layout.kinds),
        )
    }
}

/// The bytes of the record: the scalar fields in declaration order, then the
/// elements, with nothing between them.
pub open spec fn record_bytes(
    layout: LayoutView,
    fixed: Seq<Option<u64>>,
    elements: Seq<u64>,
) -> Seq<u8> {
    fixed_part(layout, fixed, elements.len(), fixed_count(layout.kinds) as int) + sequence_part(
        layout,
        elements,
        elements.len() as int,
    )
}

/// What writing comes to: the record's bytes, or the reason why there are
/// none.
pub open spec fn written(
    layout: LayoutView,
    fixed: Seq<Option<u64>>,
    elements: Seq<u64>,
) -> Result<Seq<u8>, LayoutError> {
    if !values_conform(layout.kinds, fixed, elements) {
        Err(LayoutError::ValueMismatch)
    } else if !length_fits(layout.kinds, elements.len()) {
        Err(LayoutError::LengthOverflow)
    } else if record_size(layout.kinds, elements.len()) > usize::MAX {
        Err(LayoutError::SizeOverflow)
    } else {
        Ok(record_bytes(layout, fixed, elements))
    }
}

proof fn lemma_scalar_bytes_len(order: ByteOrder, v: nat, width: nat)
    ensures
        scalar_bytes(order, v, width).len() == width,
{
    lemma_le_bytes_len(v, width);
}

/// The first `count` scalar fields take as many bytes as the offset of the
/// field that follows them.
pub proof fn lemma_fixed_part_len(
    layout: LayoutView,
    fixed: Seq<Option<u64>>,
    length: nat,
    count: int,
)
    requires
        0 <= count,
    ensures
        fixed_part(layout, fixed, length, count).len() == offset_of(layout.kinds, count),
    decreases count,
{
    if count > 0 {
        lemma_fixed_part_len(layout, fixed, length, count - 1);
        lemma_scalar_bytes_len(
            layout.order,
            resolved(fixed, length, count - 1),
            fixed_width(layout.kinds[count - 1]),
        );
    }
}

/// The first `count` elements take `count` times the element width.
pub proof fn lemma_sequence_part_len(layout: LayoutView, elements: Seq<u64>, count: int)
    requires
        0 <= count,
    ensures
        sequence_part(layout, elements, count).len() == count * element_width(layout.kinds),
    decreases count,
{
    if count > 0 {
        lemma_sequence_part_len(layout, elements, count - 1);
        lemma_scalar_bytes_len(
            layout.order,
            elements[count - 1] as nat,
            element_width(layout.kinds),
        );
        assert((count - 1) * element_width(layout.kinds) + element_width(layout.kinds) == count
            * element_width(layout.kinds)) by (nonlinear_arith);
    } else {
        assert(0 * element_width(layout.kinds) == 0);
    }
}

/// A record is written in exactly the size that its descriptor gives it.
pub proof fn lemma_record_bytes_len(
    layout: LayoutView,
    fixed: Seq<Option<u64>>,
    elements: Seq<u64>,
)
    ensures
        has_sequence(layout.kinds) || elements.len() == 0 ==> record_bytes(
            layout,
            fixed,
            elements,
        ).len() == record_size(layout.kinds, elements.len()),
{
    let kinds = layout.kinds;
    lemma_fixed_part_len(layout, fixed, elements.len(), fixed_count(kinds) as int);
    lemma_sequence_part_len(layout, elements, elements.len() as int);
    if !has_sequence(kinds) && elements.len() == 0 {
        assert(0 * element_width(kinds) == 0);
    }
}

/// Within the bytes of the first `count` scalar fields, field `i` lies at its
/// offset and holds the bytes of its value.
proof fn lemma_fixed_part_field(
    layout: LayoutView,
    fixed: Seq<Option<u64>>,
    length: nat,
    count: int,
    i: int,
)
    requires
        0 <= i < count,
    ensures
        offset_of(layout.kinds, i) + fixed_width(layout.kinds[i]) <= fixed_part(
            layout,
            fixed,
            length,
            count,
        ).len(),
        fixed_part(layout, fixed, length, count).subrange(
            offset_of(layout.kinds, i) as int,
            (offset_of(layout.kinds, i) + fixed_width(layout.kinds[i])) as int,
        ) == scalar_bytes(layout.order, resolved(fixed, length, i), fixed_width(layout.kinds[i])),
    decreases count,
{
    let kinds = layout.kinds;
    let before = fixed_part(layout, fixed, length, count - 1);
    let last = scalar_bytes(
        layout.order,
        resolved(fixed, length, count - 1),
        fixed_width(kinds[count - 1]),
    );
    let start = offset_of(kinds, i) as int;
    let end = (offset_of(kinds, i) + fixed_width(kinds[i])) as int;
    lemma_fixed_part_len(layout, fixed, length, count - 1);
    lemma_fixed_part_len(layout, fixed, length, count);
    lemma_scalar_bytes_len(layout.order, resolved(fixed, length, count - 1), fixed_width(kinds[count - 1]));
    if i == count - 1 {
        assert((before + last).subrange(start, end) =~= last);
    } else {
        lemma_fixed_part_field(layout, fixed, length, count - 1, i);
        assert((before + last).subrange(start, end) =~= before.subrange(start, end));
    }
}

/// Within the bytes of the first `count` elements, element `k` lies at `k`
/// times the element width and holds the bytes of its value.
proof fn lemma_sequence_part_element(layout: LayoutView, elements: Seq<u64>, count: int, k: int)
    requires
        0 <= k < count,
    ensures
        0 <= k * element_width(layout.kinds),
        k * element_width(layout.kinds) + element_width(layout.kinds) <= sequence_part(
            layout,
            elements,
            count,
        ).len(),
        sequence_part(layout, elements, count).subrange(
            k * element_width(layout.kinds),
            k * element_width(layout.kinds) + element_width(layout.kinds),
        ) == scalar_bytes(layout.order, elements[k] as nat, element_width(layout.kinds)),
    decreases count,
{
    let width = element_width(layout.kinds);
    let before = sequence_part(layout, elements, count - 1);
    let last = scalar_bytes(layout.order, elements[count - 1] as nat, width);
    let start = k * width;
    let end = k * width + width;
    lemma_sequence_part_len(layout, elements, count - 1);
    lemma_sequence_part_len(layout, elements, count);
    lemma_scalar_bytes_len(layout.order, elements[count - 1] as nat, width);
    lemma_element_span(k, count, width as int);
    if k == count - 1 {
        assert((before + last).subrange(start, end) =~= last);
    } else {
        lemma_sequence_part_element(layout, elements, count - 1, k);
        assert((before + last).subrange(start, end) =~= before.subrange(start, end));
    }
}

/// Round trip: what is written is read back. For every descriptor, in either
/// byte order, and for all values that the writer accepts, a buffer that
/// starts with the written record, whatever follows it, reads as a record of
/// exactly the written size, with every scalar field holding the value it was
/// written with, the declared length being the number of elements, and every
/// element holding the value it was written with.
pub proof fn lemma_round_trip(
    layout: LayoutView,
    fixed: Seq<Option<u64>>,
    elements: Seq<u64>,
    extra: Seq<u8>,
)
    requires
        valid_fields(layout.kinds),
        written(layout, fixed, elements) is Ok,
    ensures
        ({
            let record = written(layout, fixed, elements).unwrap();
            let buffer = record + extra;
            &&& record.len() == record_size(layout.kinds, elements.len())
            &&& parsed_size(layout, buffer) == Ok::<nat, LayoutError>(record.len())
            &&& buffer.take(record.len() as int) == record
            &&& buffer.skip(record.len() as int) == extra
            &&& declared_length(layout, buffer) == elements.len()
            &&& forall|i: int|
                0 <= i < fixed_count(layout.kinds) ==> #[trigger] field_value(layout, buffer, i)
                    == resolved(fixed, elements.len(), i)
            &&& forall|k: int|
                0 <= k < elements.len() ==> #[trigger] element_value(layout, buffer, k)
                    == elements[k] as nat
        }),
{
    let kinds = layout.kinds;
    let length = elements.len();
    let count = fixed_count(kinds) as int;
    let head = fixed_part(layout, fixed, length, count);
    let body = sequence_part(layout, elements, length as int);
    let record = head + body;
    let buffer = record + extra;
    let width = element_width(kinds);
    lemma_record_bytes_len(layout, fixed, elements);
    lemma_fixed_part_len(layout, fixed, length, count);
    lemma_sequence_part_len(layout, elements, length as int);
    assert(head.len() == minimum_size(kinds));
    assert(buffer.take(record.len() as int) =~= record);
    assert(buffer.skip(record.len() as int) =~= extra);

    assert forall|i: int| 0 <= i < count implies #[trigger] field_value(layout, buffer, i)
        == resolved(fixed, length, i) by {
        lemma_fixed_part_field(layout, fixed, length, count, i);
        assert(value_conforms(kinds, fixed, length, i));
        assert(field_bytes(kinds, buffer, i) =~= head.subrange(
            offset_of(kinds, i) as int,
            (offset_of(kinds, i) + fixed_width(kinds[i])) as int,
        ));
        lemma_scalar_round_trip(layout.order, resolved(fixed, length, i), fixed_width(kinds[i]));
    }
    if has_sequence(kinds) {
        assert(valid_field(kinds, kinds.len() - 1));
        assert(field_value(layout, buffer, length_field(kinds)) == resolved(
            fixed,
            length,
            length_field(kinds),
        ));
        assert(value_conforms(kinds, fixed, length, length_field(kinds)));
    }
    assert(declared_length(layout, buffer) == length);
    assert forall|k: int| 0 <= k < length implies #[trigger] element_value(layout, buffer, k)
        == elements[k] as nat by {
        lemma_sequence_part_element(layout, elements, length as int, k);
        assert(element_bytes(kinds, buffer, k) =~= body.subrange(k * width, k * width + width));
        lemma_scalar_round_trip(layout.order, elements[k] as nat, width);
    }
}

impl RecordLayout {
    /// Writes one record into a new buffer of exactly the record's size.
    ///
    /// `fixed` holds one entry per scalar field, in declaration order. The
    /// entry of the field that holds the element count may be `None`: the
    /// count is then taken from `elements`.
    ///
    /// Fails with `ValueMismatch` where the values are not values of this
    /// record's fields, with `LengthOverflow` where the field that holds the
    /// element count cannot hold the number of elements, and with
    /// `SizeOverflow` where the record's size does not fit the address space.
    /// On failure there is no buffer.
    pub fn write(&self, fixed: &[Option<u64>], elements: &[u64]) -> (r: Result<
        Vec<u8>,
        LayoutError,
    >)
        ensures
            match r {
                Ok(buffer) => written(self@, fixed@, elements@) == Ok::<Seq<u8>, LayoutError>(
                    buffer@,
                ),
                Err(e) => written(self@, fixed@, elements@) == Err::<Seq<u8>, LayoutError>(e),
            },
    {
        let ghost kinds = self@.kinds;
        let ghost length = elements@.len();
        let fixed_size: usize = self.minimum_size();
        let count: usize = self.fixed_count();
        let counter: Option<usize> = self.length_field();
        let width: usize = self.element_width();
        let order = self.order();
        if fixed.len() != count {
            return Err(LayoutError::ValueMismatch);
        }
        if counter.is_none() && elements.len() != 0 {
            return Err(LayoutError::ValueMismatch);
        }
        proof {
            if has_sequence(kinds) {
                assert(valid_field(kinds, kinds.len() - 1));
            }
        }
        let mut i: usize = 0;
        while i < count
            invariant
                i <= count == fixed.len(),
                count == fixed_count(kinds),
                kinds == self@.kinds,
                self.wf(),
                length == elements@.len(),
                counter == if has_sequence(kinds) {
                    Some(kinds.last()->length_field)
                } else {
                    None::<usize>
                },
                forall|j: int| 0 <= j < i ==> #[trigger] value_conforms(kinds, fixed@, length, j),
            decreases count - i,
        {
            proof {
                lemma_fixed_fields(kinds, i as int);
            }
            let field_width: usize = match self.kind(i) {
                Some(FieldKind::Fixed { width }) => width,
                _ => unreached(),
            };
            let counts: bool = match counter {
                Some(position) => position == i,
                None => false,
            };
            let conforms: bool = match fixed[i] {
                Some(v) => fits(v, field_width) && (!counts || v == elements.len() as u64),
                None => counts,
            };
            if !conforms {
                assert(!value_conforms(kinds, fixed@, length, i as int));
                return Err(LayoutError::ValueMismatch);
            }
            i = i + 1;
        }
        let mut k: usize = 0;
        while k < elements.len()
            invariant
                k <= elements.len(),
                width == element_width(kinds),
                kinds == self@.kinds,
                forall|j: int|
                    0 <= j < k ==> (#[trigger] elements@[j] as nat) < capacity(width as nat),
            decreases elements.len() - k,
        {
            if !fits(elements[k], width) {
                assert(!((elements@[k as int] as nat) < capacity(element_width(kinds))));
                assert(!values_conform(kinds, fixed@, elements@));
                return Err(LayoutError::ValueMismatch);
            }
            k = k + 1;
        }
        assert(values_conform(kinds, fixed@, elements@));
        match counter {
            Some(position) => {
                proof {
                    lemma_fixed_fields(kinds, position as int);
                }
                let field_width: usize = match self.kind(position) {
                    Some(FieldKind::Fixed { width }) => width,
                    _ => unreached(),
                };
                if !fits(elements.len() as u64, field_width) {
                    return Err(LayoutError::LengthOverflow);
                }
            },
            None => {},
        }
        let size: usize = match self.size_of(elements.len()) {
            Ok(size) => size,
            Err(e) => return Err(e),
        };
        let mut out: Vec<u8> = Vec::with_capacity(size);
        let mut i: usize = 0;
        while i < count
            invariant
                i <= count == fixed.len(),
                count == fixed_count(kinds),
                kinds == self@.kinds,
                order == self@.order,
                self.wf(),
                length == elements@.len(),
                out@ == fixed_part(self@, fixed@, length, i as int),
            decreases count - i,
        {
            proof {
                lemma_fixed_fields(kinds, i as int);
            }
            let field_width: usize = match self.kind(i) {
                Some(FieldKind::Fixed { width }) => width,
                _ => unreached(),
            };
            let value: u64 = match fixed[i] {
                Some(v) => v,
                None => elements.len() as u64,
            };
            append_scalar(order, value, field_width, &mut out);
            i = i + 1;
        }
        let ghost head = out@;
        let mut k: usize = 0;
        while k < elements.len()
            invariant
                k <= elements.len(),
                width == element_width(kinds),
                kinds == self@.kinds,
                order == self@.order,
                out@ == head + sequence_part(self@, elements@, k as int),
            decreases elements.len() - k,
        {
            let ghost before = sequence_part(self@, elements@, k as int);
            append_scalar(order, elements[k], width, &mut out);
            proof {
                let bytes = scalar_bytes(order, elements@[k as int] as nat, width as nat);
                assert((head + before) + bytes =~= head + (before + bytes));
            }
            k = k + 1;
        }
        Ok(out)
    }
}

} // verus!
