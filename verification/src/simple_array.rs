//! A simple array of 64-bit scalars, laid out as
//!
//! ```text
//! header: 4 bytes | len: 4 bytes | data: len scalars of 8 bytes
//! ```
//!
//! The header is reserved for whoever frames the record: it is written as
//! zero and never interpreted here. The scalars are kept as bit patterns; a
//! caller that stores floating-point numbers converts them to and from their
//! bits.

use vstd::prelude::*;
use vstd::pervasive::unreached;
use crate::error::LayoutError;
use crate::layout::{
    fixed_count, has_sequence, kinds_of, minimum_size, offset_of, record_size, valid_field,
    valid_fields, FieldKind, FieldSpec, LayoutView, RecordLayout,
};
use crate::record::{
    declared_length, element_value, field_bytes, field_value, parsed_size, RecordView,
};
use crate::scalar::{lemma_capacity_values, lemma_scalar_value_bound, ByteOrder};
use crate::view::BorrowedView;
use crate::writer::{lemma_round_trip, resolved, value_conforms, values_conform, written};

verus! {

/// The position of the header among the fields.
pub const HEADER_FIELD: usize = 0;

/// The position of the element count among the fields.
pub const LENGTH_FIELD: usize = 1;

/// The fields of a simple array.
pub open spec fn simple_array_kinds() -> Seq<FieldKind> {
    seq![
        FieldKind::Fixed { width: 4 },
        FieldKind::Fixed { width: 4 },
        FieldKind::VarSequence { element_width: 8, length_field: 1 },
    ]
}

/// What is handed to the writer for the scalar fields of a simple array: a
/// zero header, and the element count left to be taken from the data.
pub open spec fn simple_array_fixed() -> Seq<Option<u64>> {
    seq![Some(0u64), None]
}

/// The simple array's fields describe a record of eight fixed bytes.
pub proof fn lemma_simple_array_kinds()
    ensures
        valid_fields(simple_array_kinds()),
        has_sequence(simple_array_kinds()),
        fixed_count(simple_array_kinds()) == 2,
        offset_of(simple_array_kinds(), 0) == 0,
        offset_of(simple_array_kinds(), 1) == 4,
        minimum_size(simple_array_kinds()) == 8,
        forall|n: nat| #[trigger] record_size(simple_array_kinds(), n) == 8 + n * 8,
{
    let kinds = simple_array_kinds();
    reveal_with_fuel(offset_of, 4);
    assert forall|i: int| 0 <= i < kinds.len() implies #[trigger] valid_field(kinds, i) by {
        if i == 0 {
        } else if i == 1 {
        } else {
        }
    }
}

/// Round trip of a simple array: in either byte order, any values that can be
/// counted in four bytes and whose record fits the address space are written,
/// with a zero header, as eight bytes and eight more for each value; and a
/// buffer that starts with those bytes, whatever follows them, reads as a
/// record of that size with a zero header, that number of elements, and
/// every element equal to the value written.
pub proof fn lemma_simple_array_round_trip(order: ByteOrder, values: Seq<u64>, extra: Seq<u8>)
    requires
        values.len() < 0x1_0000_0000,
        8 + values.len() * 8 <= usize::MAX,
    ensures
        ({
            let layout = LayoutView { kinds: simple_array_kinds(), order };
            let outcome = written(layout, simple_array_fixed(), values);
            &&& outcome is Ok
            &&& outcome.unwrap().len() == 8 + values.len() * 8
            &&& parsed_size(layout, outcome.unwrap() + extra) == Ok::<nat, LayoutError>(
                outcome.unwrap().len(),
            )
            &&& field_value(layout, outcome.unwrap() + extra, HEADER_FIELD as int) == 0
            &&& declared_length(layout, outcome.unwrap() + extra) == values.len()
            &&& forall|k: int|
                0 <= k < values.len() ==> #[trigger] element_value(
                    layout,
                    outcome.unwrap() + extra,
                    k,
                ) == values[k] as nat
        }),
{
    let layout = LayoutView { kinds: simple_array_kinds(), order };
    let kinds = simple_array_kinds();
    let fixed = simple_array_fixed();
    lemma_simple_array_kinds();
    lemma_capacity_values();
    assert forall|i: int| 0 <= i < fixed.len() implies #[trigger] value_conforms(
        kinds,
        fixed,
        values.len(),
        i,
    ) by {
        if i == 0 {
        } else {
        }
    }
    assert(values_conform(kinds, fixed, values));
    assert(record_size(kinds, values.len()) == 8 + values.len() * 8);
    lemma_round_trip(layout, fixed, values, extra);
    assert(field_value(layout, written(layout, fixed, values).unwrap() + extra, 0)
        == resolved(fixed, values.len(), 0));
}

/// The descriptor of a simple array held in byte order `order`.
pub fn simple_array_layout_in(order: ByteOrder) -> (layout: RecordLayout)
    ensures
        layout.wf(),
        layout@.kinds == simple_array_kinds(),
        layout@.order == order,
{
    let mut fields: Vec<FieldSpec> = Vec::new();
    fields.push(FieldSpec { name: "header".to_owned(), kind: FieldKind::Fixed { width: 4 } });
    fields.push(FieldSpec { name: "len".to_owned(), kind: FieldKind::Fixed { width: 4 } });
    fields.push(
        FieldSpec {
            name: "data".to_owned(),
            kind: FieldKind::VarSequence { element_width: 8, length_field: 1 },
        },
    );
    proof {
        lemma_simple_array_kinds();
        assert(kinds_of(fields@) =~= simple_array_kinds());
    }
    match RecordLayout::with_order(fields, order) {
        Ok(layout) => layout,
        Err(_) => unreached(),
    }
}

/// The descriptor of a simple array held in the byte order of this machine.
pub fn simple_array_layout() -> (layout: RecordLayout)
    ensures
        layout.wf(),
        layout@.kinds == simple_array_kinds(),
{
    simple_array_layout_in(ByteOrder::native())
}

/// Whether `layout` describes a simple array.
pub fn is_simple_array(layout: &RecordLayout) -> (r: bool)
    ensures
        r == (layout@.kinds == simple_array_kinds()),
{
    let r = layout.field_count() == 3 && layout.kind(0) == Some(FieldKind::Fixed { width: 4 })
        && layout.kind(1) == Some(FieldKind::Fixed { width: 4 }) && layout.kind(2) == Some(
        FieldKind::VarSequence { element_width: 8, length_field: 1 },
    );
    proof {
        if r {
            assert(layout@.kinds =~= simple_array_kinds());
        }
    }
    r
}

/// A read-only view of one simple array in a buffer.
#[derive(Clone, Copy, Debug)]
pub struct SimpleArray<'input>(BorrowedView<'input>);

impl<'input> View for SimpleArray<'input> {
    type V = RecordView;

    closed spec fn view(&self) -> RecordView {
        self.0@
    }
}

impl<'input> SimpleArray<'input> {
    #[verifier::type_invariant]
    closed spec fn inv(&self) -> bool {
        self.0@.layout.kinds == simple_array_kinds()
    }

    /// Reads the simple array that `bytes` starts with, without copying it,
    /// and hands back what follows it.
    ///
    /// Fails with `Definition` where `layout` does not describe a simple
    /// array, and otherwise as reading a record of `layout` does.
    pub fn try_ref(layout: &'input RecordLayout, bytes: &'input [u8]) -> (r: Result<
        (SimpleArray<'input>, &'input [u8]),
        LayoutError,
    >)
        ensures
            match r {
                Ok((array, rest)) => {
                    &&& layout@.kinds == simple_array_kinds()
                    &&& parsed_size(layout@, bytes@) == Ok::<nat, LayoutError>(array@.bytes.len())
                    &&& array@.layout == layout@
                    &&& array@.wf()
                    &&& array@.bytes == bytes@.take(array@.bytes.len() as int)
                    &&& rest@ == bytes@.skip(array@.bytes.len() as int)
                },
                Err(e) => if layout@.kinds == simple_array_kinds() {
                    parsed_size(layout@, bytes@) == Err::<nat, LayoutError>(e)
                } else {
                    e == LayoutError::Definition
                },
            },
    {
        if !is_simple_array(layout) {
            return Err(LayoutError::Definition);
        }
        match layout.try_view(bytes) {
            Ok((view, rest)) => Ok((SimpleArray(view), rest)),
            Err(e) => Err(e),
        }
    }

    /// The view of the record that this array is.
    pub fn as_view(&self) -> (view: BorrowedView<'input>)
        ensures
            view@ == self@,
            self@.wf(),
            self@.layout.kinds == simple_array_kinds(),
    {
        proof {
            use_type_invariant(self);
        }
        let view = self.0;
        let _ = view.len();
        view
    }

    /// The header, as it stands in the buffer.
    pub fn header(&self) -> (header: u32)
        ensures
            header as nat == self@.fixed(HEADER_FIELD as int),
    {
        let view = self.as_view();
        proof {
            lemma_simple_array_kinds();
            lemma_capacity_values();
            lemma_scalar_value_bound(
                view@.layout.order,
                field_bytes(view@.layout.kinds, view@.bytes, 0),
            );
        }
        match view.fixed_value(HEADER_FIELD) {
            Some(value) => value as u32,
            None => unreached(),
        }
    }

    /// The number of elements.
    pub fn len(&self) -> (n: usize)
        ensures
            n == self@.length(),
    {
        self.as_view().len()
    }

    /// Element `index`, counted from zero, or `None` where the array has no
    /// such element.
    pub fn get(&self, index: usize) -> (r: Option<u64>)
        ensures
            r is Some <==> index < self@.length(),
            r is Some ==> r.unwrap() as nat == self@.element(index as int),
    {
        self.as_view().element(index)
    }

    /// The elements, copied out in order.
    pub fn data(&self) -> (data: Vec<u64>)
        ensures
            data@.len() == self@.length(),
            forall|k: int| 0 <= k < data@.len() ==> data@[k] as nat == #[trigger] self@.element(k),
    {
        let view = self.as_view();
        let n: usize = view.len();
        let mut data: Vec<u64> = Vec::with_capacity(n);
        let mut k: usize = 0;
        while k < n
            invariant
                k <= n == view@.length(),
                view@ == self@,
                data@.len() == k,
                forall|j: int| 0 <= j < k ==> data@[j] as nat == #[trigger] self@.element(j),
            decreases n - k,
        {
            match view.element(k) {
                Some(value) => data.push(value),
                None => unreached(),
            }
            k = k + 1;
        }
        data
    }
}

/// Element `position` of `state`, counted from zero, or `None` where the
/// array has no such element.
pub fn index<'input>(state: SimpleArray<'input>, position: u32) -> (r: Option<u64>)
    ensures
        r is Some <==> position < state@.length(),
        r is Some ==> r.unwrap() as nat == state@.element(position as int),
{
    state.get(position as usize)
}

/// One step of collecting values: `value` is put behind what `state` holds,
/// and a first value starts a new collection.
pub fn simple_array_trans(state: Option<Vec<u64>>, value: u64) -> (r: Option<Vec<u64>>)
    ensures
        r is Some,
        r.unwrap()@ == match state {
            Some(values) => values@.push(value),
            None => seq![value],
        },
{
    let mut values: Vec<u64> = match state {
        Some(values) => values,
        None => Vec::new(),
    };
    values.push(value);
    Some(values)
}

/// Ends collecting: what was collected is flattened into the bytes of one
/// simple array, with a zero header and the element count taken from the
/// data. Where nothing was collected there is no array.
///
/// Fails with `Definition` where `layout` does not describe a simple array,
/// and otherwise as writing a record of `layout` does.
pub fn simple_array_final(layout: &RecordLayout, state: Option<Vec<u64>>) -> (r: Result<
    Option<Vec<u8>>,
    LayoutError,
>)
    ensures
        match r {
            Ok(flattened) => {
                &&& layout@.kinds == simple_array_kinds()
                &&& match state {
                    None => flattened is None,
                    Some(values) => flattened is Some && written(
                        layout@,
                        simple_array_fixed(),
                        values@,
                    ) == Ok::<Seq<u8>, LayoutError>(flattened.unwrap()@),
                }
            },
            Err(e) => if layout@.kinds == simple_array_kinds() {
                state is Some && written(layout@, simple_array_fixed(), state.unwrap()@) == Err::<
                    Seq<u8>,
                    LayoutError,
                >(e)
            } else {
                e == LayoutError::Definition
            },
        },
{
    if !is_simple_array(layout) {
        return Err(LayoutError::Definition);
    }
    let values: Vec<u64> = match state {
        None => return Ok(None),
        Some(values) => values,
    };
    let mut fixed: Vec<Option<u64>> = Vec::new();
    fixed.push(Some(0));
    fixed.push(None);
    assert(fixed@ =~= simple_array_fixed());
    match layout.write(fixed.as_slice(), values.as_slice()) {
        Ok(flattened) => Ok(Some(flattened)),
        Err(e) => Err(e),
    }
}

} // verus!
