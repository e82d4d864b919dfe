//! The layout descriptor: an ordered list of fields, each a fixed-width scalar
//! or a trailing sequence whose element count is held by an earlier scalar.

use vstd::prelude::*;
use crate::error::LayoutError;
use crate::scalar::ByteOrder;
use crate::scalar::MAX_SCALAR_WIDTH;

verus! {

/// What a field holds.
#[derive(Clone, Copy, Debug, PartialEq, Eq, Structural)]
pub enum FieldKind {
    /// A scalar of `width` bytes.
    Fixed { width: usize },
    /// A sequence of scalars of `element_width` bytes each. The number of
    /// elements is the value of the field at position `length_field`.
    VarSequence { element_width: usize, length_field: usize },
}

/// One field of a record.
#[derive(Clone, Debug)]
pub struct FieldSpec {
    pub name: String,
    pub kind: FieldKind,
}

/// The kinds of a list of fields, in order.
pub open spec fn kinds_of(fields: Seq<FieldSpec>) -> Seq<FieldKind> {
    fields.map_values(|f: FieldSpec| f.kind)
}

/// Whether `width` is the width of a scalar.
pub open spec fn scalar_width(width: nat) -> bool {
    1 <= width <= MAX_SCALAR_WIDTH
}

/// Whether the field at position `i` may stand there: a scalar has a scalar's
/// width; a sequence is the last field, has scalar elements, and takes its
/// length from a scalar declared before it.
pub open spec fn valid_field(kinds: Seq<FieldKind>, i: int) -> bool {
    match kinds[i] {
        FieldKind::Fixed { width } => scalar_width(width as nat),
        FieldKind::VarSequence { element_width, length_field } => {
            &&& i == kinds.len() - 1
            &&& length_field < i
            &&& kinds[length_field as int] is Fixed
            &&& scalar_width(element_width as nat)
        },
    }
}

/// Whether `kinds` describes a record.
pub open spec fn valid_fields(kinds: Seq<FieldKind>) -> bool {
    forall|i: int| 0 <= i < kinds.len() ==> #[trigger] valid_field(kinds, i)
}

/// The bytes that the field of this kind takes in every record: its width for
/// a scalar, nothing for a sequence.
pub open spec fn fixed_width(kind: FieldKind) -> nat {
    match kind {
        FieldKind::Fixed { width } => width as nat,
        FieldKind::VarSequence { .. } => 0,
    }
}

/// The byte offset of the field at position `i`: the widths of the fields
/// before it, added up. With `i` the number of fields it is the offset of the
/// end of the fixed part.
pub open spec fn offset_of(kinds: Seq<FieldKind>, i: int) -> nat
    decreases i,
{
    if i <= 0 {
        0
    } else {
        offset_of(kinds, i - 1) + fixed_width(kinds[i - 1])
    }
}

/// The size of the smallest record: all the fixed widths, added up.
pub open spec fn minimum_size(kinds: Seq<FieldKind>) -> nat {
    offset_of(kinds, kinds.len() as int)
}

/// Whether the record ends in a sequence.
pub open spec fn has_sequence(kinds: Seq<FieldKind>) -> bool {
    kinds.len() > 0 && kinds.last() is VarSequence
}

/// The width of one element of the sequence; zero where there is none.
pub open spec fn element_width(kinds: Seq<FieldKind>) -> nat {
    if has_sequence(kinds) {
        kinds.last()->element_width as nat
    } else {
        0
    }
}

/// The position of the field that holds the element count.
pub open spec fn length_field(kinds: Seq<FieldKind>) -> int
    recommends
        has_sequence(kinds),
{
    kinds.last()->length_field as int
}

/// The number of scalar fields.
pub open spec fn fixed_count(kinds: Seq<FieldKind>) -> nat {
    if has_sequence(kinds) {
        (kinds.len() - 1) as nat
    } else {
        kinds.len()
    }
}

/// The exact size of a record whose sequence has `length` elements.
pub open spec fn record_size(kinds: Seq<FieldKind>, length: nat) -> nat {
    minimum_size(kinds) + length * element_width(kinds)
}

/// Offsets grow with the position.
pub proof fn lemma_offset_monotonic(kinds: Seq<FieldKind>, i: int, j: int)
    requires
        i <= j,
    ensures
        offset_of(kinds, i) <= offset_of(kinds, j),
    decreases j - i,
{
    if i < j {
        lemma_offset_monotonic(kinds, i, j - 1);
    }
}

/// In a valid list every field before the last is a scalar, and so is the
/// last unless the record ends in a sequence.
pub proof fn lemma_fixed_fields(kinds: Seq<FieldKind>, i: int)
    requires
        valid_fields(kinds),
        0 <= i < fixed_count(kinds),
    ensures
        kinds[i] is Fixed,
        scalar_width(fixed_width(kinds[i])),
        offset_of(kinds, i) + fixed_width(kinds[i]) <= minimum_size(kinds),
{
    assert(valid_field(kinds, i));
    lemma_offset_monotonic(kinds, i + 1, kinds.len() as int);
}

/// The mathematical content of a descriptor.
pub struct LayoutView {
    pub kinds: Seq<FieldKind>,
    pub order: ByteOrder,
}

/// A validated, immutable record descriptor together with the byte order in
/// which the record's scalars are held.
#[derive(Debug)]
pub struct RecordLayout {
    fields: Vec<FieldSpec>,
    order: ByteOrder,
    fixed_size: usize,
}

impl View for RecordLayout {
    type V = LayoutView;

    closed spec fn view(&self) -> LayoutView {
        LayoutView { kinds: kinds_of(self.fields@), order: self.order }
    }
}

/// Checks the field at position `i`.
fn check_field(fields: &Vec<FieldSpec>, i: usize) -> (ok: bool)
    requires
        i < fields.len(),
    ensures
        ok == valid_field(kinds_of(fields@), i as int),
{
    match fields[i].kind {
        FieldKind::Fixed { width } => 1 <= width && width <= MAX_SCALAR_WIDTH,
        FieldKind::VarSequence { element_width, length_field } => {
            if i + 1 != fields.len() || length_field >= i {
                return false;
            }
            let refers_to_scalar = match fields[length_field].kind {
                FieldKind::Fixed { .. } => true,
                FieldKind::VarSequence { .. } => false,
            };
            refers_to_scalar && 1 <= element_width && element_width <= MAX_SCALAR_WIDTH
        },
    }
}

impl RecordLayout {
    /// The fields as they were declared, names included.
    pub closed spec fn fields(&self) -> Seq<FieldSpec> {
        self.fields@
    }

    /// The kinds that the view holds are those of the declared fields.
    pub proof fn lemma_kinds_of_fields(&self)
        ensures
            self@.kinds == kinds_of(self.fields()),
    {
    }

    /// What every descriptor satisfies: its fields describe a record whose
    /// fixed part fits the address space.
    pub open spec fn wf(&self) -> bool {
        &&& valid_fields(self@.kinds)
        &&& minimum_size(self@.kinds) <= usize::MAX
    }

    #[verifier::type_invariant]
    closed spec fn inv(&self) -> bool {
        &&& self.wf()
        &&& self.fixed_size == minimum_size(self@.kinds)
    }

    /// Describes a record held in the byte order of this machine.
    ///
    /// Fails with `Definition` where `fields` does not describe a record, and
    /// with `SizeOverflow` where it does but the fixed part alone is larger
    /// than the address space.
    pub fn new(fields: Vec<FieldSpec>) -> (r: Result<RecordLayout, LayoutError>)
        ensures
            match r {
                Ok(layout) => {
                    &&& layout.wf()
                    &&& layout.fields() == fields@
                    &&& layout@.kinds == kinds_of(fields@)
                },
                Err(e) => if valid_fields(kinds_of(fields@)) {
                    e == LayoutError::SizeOverflow && minimum_size(kinds_of(fields@)) > usize::MAX
                } else {
                    e == LayoutError::Definition
                },
            },
    {
        RecordLayout::with_order(fields, ByteOrder::native())
    }

    /// Describes a record held in byte order `order`.
    ///
    /// Fails with `Definition` where `fields` does not describe a record, and
    /// with `SizeOverflow` where it does but the fixed part alone is larger
    /// than the address space.
    pub fn with_order(fields: Vec<FieldSpec>, order: ByteOrder) -> (r: Result<
        RecordLayout,
        LayoutError,
    >)
        ensures
            match r {
                Ok(layout) => {
                    &&& layout.wf()
                    &&& layout.fields() == fields@
                    &&& layout@.kinds == kinds_of(fields@)
                    &&& layout@.order == order
                },
                Err(e) => if valid_fields(kinds_of(fields@)) {
                    e == LayoutError::SizeOverflow && minimum_size(kinds_of(fields@)) > usize::MAX
                } else {
                    e == LayoutError::Definition
                },
            },
    {
        let ghost kinds = kinds_of(fields@);
        let n: usize = fields.len();
        let mut i: usize = 0;
        while i < n
            invariant
                i <= n == fields.len(),
                kinds == kinds_of(fields@),
                forall|k: int| 0 <= k < i ==> #[trigger] valid_field(kinds, k),
            decreases n - i,
        {
            if !check_field(&fields, i) {
                return Err(LayoutError::Definition);
            }
            i = i + 1;
        }
        let mut total: usize = 0;
        let mut j: usize = 0;
        while j < n
            invariant
                j <= n == fields.len(),
                kinds == kinds_of(fields@),
                valid_fields(kinds),
                total == offset_of(kinds, j as int),
            decreases n - j,
        {
            let width: usize = match fields[j].kind {
                FieldKind::Fixed { width } => width,
                FieldKind::VarSequence { .. } => 0,
            };
            assert(width == fixed_width(kinds[j as int]));
            if width > usize::MAX - total {
                proof {
                    lemma_offset_monotonic(kinds, j + 1, n as int);
                }
                return Err(LayoutError::SizeOverflow);
            }
            total = total + width;
            j = j + 1;
        }
        Ok(RecordLayout { fields, order, fixed_size: total })
    }

    /// The byte order of the record's scalars.
    pub fn order(&self) -> (order: ByteOrder)
        ensures
            order == self@.order,
    {
        self.order
    }

    /// The number of fields.
    pub fn field_count(&self) -> (n: usize)
        ensures
            n == self@.kinds.len(),
    {
        self.fields.len()
    }

    /// The field at position `index`, if there is one.
    pub fn field(&self, index: usize) -> (r: Option<&FieldSpec>)
        ensures
            r is Some <==> index < self@.kinds.len(),
            r is Some ==> *r.unwrap() == self.fields()[index as int],
            r is Some ==> r.unwrap().kind == self@.kinds[index as int],
    {
        if index < self.fields.len() {
            Some(&self.fields[index])
        } else {
            None
        }
    }

    /// The kind of the field at position `index`, if there is one.
    pub fn kind(&self, index: usize) -> (r: Option<FieldKind>)
        ensures
            r == if index < self@.kinds.len() {
                Some(self@.kinds[index as int])
            } else {
                None
            },
    {
        if index < self.fields.len() {
            Some(self.fields[index].kind)
        } else {
            None
        }
    }

    /// The size of the smallest record, one whose sequence is empty.
    pub fn minimum_size(&self) -> (size: usize)
        ensures
            self.wf(),
            size == minimum_size(self@.kinds),
    {
        proof {
            use_type_invariant(self);
        }
        self.fixed_size
    }

    /// Whether the record ends in a sequence.
    pub fn has_sequence(&self) -> (r: bool)
        ensures
            r == has_sequence(self@.kinds),
    {
        let n: usize = self.fields.len();
        if n == 0 {
            return false;
        }
        match self.fields[n - 1].kind {
            FieldKind::Fixed { .. } => false,
            FieldKind::VarSequence { .. } => true,
        }
    }

    /// The number of scalar fields.
    pub fn fixed_count(&self) -> (n: usize)
        ensures
            n == fixed_count(self@.kinds),
    {
        if self.has_sequence() {
            self.fields.len() - 1
        } else {
            self.fields.len()
        }
    }

    /// The width of one element of the sequence; zero where there is none.
    pub fn element_width(&self) -> (width: usize)
        ensures
            width == element_width(self@.kinds),
    {
        let n: usize = self.fields.len();
        if n == 0 {
            return 0;
        }
        match self.fields[n - 1].kind {
            FieldKind::Fixed { .. } => 0,
            FieldKind::VarSequence { element_width, .. } => element_width,
        }
    }

    /// The position of the field that holds the element count, where the
    /// record ends in a sequence.
    pub fn length_field(&self) -> (r: Option<usize>)
        ensures
            r == if has_sequence(self@.kinds) {
                Some(self@.kinds.last()->length_field)
            } else {
                None
            },
    {
        let n: usize = self.fields.len();
        if n == 0 {
            return None;
        }
        match self.fields[n - 1].kind {
            FieldKind::Fixed { .. } => None,
            FieldKind::VarSequence { length_field, .. } => Some(length_field),
        }
    }

    /// The byte offset of the field at position `index` within a record, if
    /// there is such a field. The sequence, being last, starts where the fixed
    /// part ends.
    pub fn offset_of(&self, index: usize) -> (r: Option<usize>)
        ensures
            r == if index < self@.kinds.len() {
                Some(offset_of(self@.kinds, index as int) as usize)
            } else {
                None
            },
            index < self@.kinds.len() ==> offset_of(self@.kinds, index as int) <= minimum_size(
                self@.kinds,
            ) <= usize::MAX,
    {
        proof {
            use_type_invariant(self);
        }
        if index >= self.fields.len() {
            return None;
        }
        let ghost kinds = self@.kinds;
        let mut total: usize = 0;
        let mut j: usize = 0;
        while j < index
            invariant
                j <= index < self.fields.len(),
                kinds == kinds_of(self.fields@),
                minimum_size(kinds) <= usize::MAX,
                total == offset_of(kinds, j as int),
            decreases index - j,
        {
            let width: usize = match self.fields[j].kind {
                FieldKind::Fixed { width } => width,
                FieldKind::VarSequence { .. } => 0,
            };
            assert(width == fixed_width(kinds[j as int]));
            proof {
                lemma_offset_monotonic(kinds, j + 1, kinds.len() as int);
            }
            total = total + width;
            j = j + 1;
        }
        proof {
            lemma_offset_monotonic(kinds, index as int, kinds.len() as int);
        }
        Some(total)
    }

    /// The exact size of a record whose sequence has `length` elements.
    ///
    /// Fails with `SizeOverflow` where that size does not fit the address
    /// space, and on no other input.
    pub fn size_of(&self, length: usize) -> (r: Result<usize, LayoutError>)
        ensures
            r == if record_size(self@.kinds, length as nat) <= usize::MAX {
                Ok::<usize, LayoutError>(record_size(self@.kinds, length as nat) as usize)
            } else {
                Err::<usize, LayoutError>(LayoutError::SizeOverflow)
            },
    {
        proof {
            use_type_invariant(self);
        }
        let width: usize = self.element_width();
        match length.checked_mul(width) {
            None => Err(LayoutError::SizeOverflow),
            Some(body) => match self.fixed_size.checked_add(body) {
                None => Err(LayoutError::SizeOverflow),
                Some(size) => Ok(size),
            },
        }
    }
}

} // verus!
