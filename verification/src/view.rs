//! The reader: a validated, borrowed view of the record at the start of a
//! buffer.

use vstd::prelude::*;
use vstd::pervasive::unreached;
use vstd::slice::slice_subrange;
use crate::error::LayoutError;
use crate::layout::{
    fixed_count, has_sequence, lemma_fixed_fields, minimum_size, record_size, valid_field,
    FieldKind, RecordLayout,
};
use crate::record::{
    field_bytes, lemma_element_span, lemma_length_in_prefix, lemma_record_prefix, parsed_size,
    RecordView,
};
use crate::scalar::read_scalar;

verus! {

/// A read-only view of one record. It borrows the buffer that it was read
/// from and the descriptor that it was read with, and owns nothing.
#[derive(Clone, Copy, Debug)]
pub struct BorrowedView<'a> {
    layout: &'a RecordLayout,
    record: &'a [u8],
    length: usize,
}

impl<'a> View for BorrowedView<'a> {
    type V = RecordView;

    closed spec fn view(&self) -> RecordView {
        RecordView { layout: self.layout@, bytes: self.record@ }
    }
}

impl<'a> BorrowedView<'a> {
    #[verifier::type_invariant]
    closed spec fn inv(&self) -> bool {
        &&& self@.wf()
        &&& self.layout.wf()
        &&& self.length == self@.length()
    }

    /// The descriptor that the record was read with.
    pub fn layout(&self) -> (layout: &'a RecordLayout)
        ensures
            layout@ == self@.layout,
    {
        self.layout
    }

    /// The bytes of the record, from its first field to its last element.
    pub fn as_bytes(&self) -> (bytes: &'a [u8])
        ensures
            self@.wf(),
            bytes@ == self@.bytes,
    {
        proof {
            use_type_invariant(self);
        }
        self.record
    }

    /// The number of elements of the sequence; zero for a record without one.
    pub fn len(&self) -> (n: usize)
        ensures
            self@.wf(),
            n == self@.length(),
    {
        proof {
            use_type_invariant(self);
        }
        self.length
    }

    /// The value of the scalar field at position `index`, or `None` where the
    /// descriptor has no scalar field there.
    pub fn fixed_value(&self, index: usize) -> (r: Option<u64>)
        ensures
            self@.wf(),
            r is Some <==> index < fixed_count(self@.layout.kinds),
            r is Some ==> r.unwrap() as nat == self@.fixed(index as int),
    {
        proof {
            use_type_invariant(self);
        }
        let ghost kinds = self@.layout.kinds;
        if index >= self.layout.fixed_count() {
            return None;
        }
        proof {
            lemma_fixed_fields(kinds, index as int);
        }
        let offset: usize = match self.layout.offset_of(index) {
            Some(offset) => offset,
            None => unreached(),
        };
        let width: usize = match self.layout.kind(index) {
            Some(FieldKind::Fixed { width }) => width,
            _ => unreached(),
        };
        Some(read_scalar(self.layout.order(), self.record, offset, width))
    }

    /// The bytes of the scalar field at position `index`, or `None` where the
    /// descriptor has no scalar field there.
    pub fn fixed_bytes(&self, index: usize) -> (r: Option<&'a [u8]>)
        ensures
            self@.wf(),
            r is Some <==> index < fixed_count(self@.layout.kinds),
            r is Some ==> r.unwrap()@ == field_bytes(
                self@.layout.kinds,
                self@.bytes,
                index as int,
            ),
    {
        proof {
            use_type_invariant(self);
        }
        let ghost kinds = self@.layout.kinds;
        if index >= self.layout.fixed_count() {
            return None;
        }
        proof {
            lemma_fixed_fields(kinds, index as int);
        }
        let offset: usize = match self.layout.offset_of(index) {
            Some(offset) => offset,
            None => unreached(),
        };
        let width: usize = match self.layout.kind(index) {
            Some(FieldKind::Fixed { width }) => width,
            _ => unreached(),
        };
        Some(slice_subrange(self.record, offset, offset + width))
    }

    /// The bytes of the whole sequence.
    pub fn sequence_bytes(&self) -> (bytes: &'a [u8])
        ensures
            self@.wf(),
            bytes@ == self@.bytes.skip(minimum_size(self@.layout.kinds) as int),
    {
        proof {
            use_type_invariant(self);
        }
        let start: usize = self.layout.minimum_size();
        slice_subrange(self.record, start, self.record.len())
    }

    /// Element `index` of the sequence, counted from zero, or `None` where the
    /// sequence has no such element.
    pub fn element(&self, index: usize) -> (r: Option<u64>)
        ensures
            self@.wf(),
            r is Some <==> index < self@.length(),
            r is Some ==> r.unwrap() as nat == self@.element(index as int),
    {
        proof {
            use_type_invariant(self);
        }
        let ghost kinds = self@.layout.kinds;
        if index >= self.length {
            return None;
        }
        let width: usize = self.layout.element_width();
        let fixed: usize = self.layout.minimum_size();
        proof {
            assert(has_sequence(kinds));
            assert(valid_field(kinds, kinds.len() - 1));
            lemma_element_span(index as int, self.length as int, width as int);
            assert(self.record.len() == record_size(kinds, self.length as nat));
        }
        let start: usize = fixed + index * width;
        Some(read_scalar(self.layout.order(), self.record, start, width))
    }
}

impl RecordLayout {
    /// Reads the record that `bytes` starts with, without copying it, and
    /// hands back what follows the record.
    ///
    /// Fails with `TooShort` where `bytes` does not hold the fixed part, with
    /// `LengthOverflow` where the byte length of the declared sequence does not
    /// fit the address space, and with `TooShort` where `bytes` does not hold
    /// the declared sequence. On failure there is no view.
    pub fn try_view<'a>(&'a self, bytes: &'a [u8]) -> (r: Result<
        (BorrowedView<'a>, &'a [u8]),
        LayoutError,
    >)
        ensures
            match r {
                Ok((view, rest)) => {
                    &&& parsed_size(self@, bytes@) == Ok::<nat, LayoutError>(view@.bytes.len())
                    &&& view@.layout == self@
                    &&& view@.wf()
                    &&& view@.bytes == bytes@.take(view@.bytes.len() as int)
                    &&& rest@ == bytes@.skip(view@.bytes.len() as int)
                },
                Err(e) => parsed_size(self@, bytes@) == Err::<nat, LayoutError>(e),
            },
    {
        let fixed: usize = self.minimum_size();
        let ghost kinds = self@.kinds;
        if bytes.len() < fixed {
            return Err(LayoutError::TooShort);
        }
        let mut size: usize = fixed;
        let mut length: usize = 0;
        match self.length_field() {
            None => {},
            Some(position) => {
                proof {
                    assert(valid_field(kinds, kinds.len() - 1));
                    lemma_fixed_fields(kinds, position as int);
                }
                let offset: usize = match self.offset_of(position) {
                    Some(offset) => offset,
                    None => unreached(),
                };
                let width: usize = match self.kind(position) {
                    Some(FieldKind::Fixed { width }) => width,
                    _ => unreached(),
                };
                let declared: u64 = read_scalar(self.order(), bytes, offset, width);
                let element: usize = self.element_width();
                assert(declared * element <= 0xffff_ffff_ffff_ffff * 8) by (nonlinear_arith)
                    requires
                        0 <= declared <= 0xffff_ffff_ffff_ffff,
                        0 <= element <= 8,
                ;
                let body: u128 = (declared as u128) * (element as u128);
                if body > usize::MAX as u128 {
                    return Err(LayoutError::LengthOverflow);
                }
                if body > (bytes.len() - fixed) as u128 {
                    return Err(LayoutError::TooShort);
                }
                assert(declared <= declared * element) by (nonlinear_arith)
                    requires
                        0 <= declared,
                        1 <= element,
                ;
                size = fixed + body as usize;
                length = declared as usize;
            },
        }
        proof {
            lemma_record_prefix(self@, bytes@);
            lemma_length_in_prefix(self@, bytes@, size as int);
            assert(bytes@.subrange(0, size as int) =~= bytes@.take(size as int));
            assert(bytes@.subrange(size as int, bytes@.len() as int) =~= bytes@.skip(size as int));
        }
        let record = slice_subrange(bytes, 0, size);
        let rest = slice_subrange(bytes, size, bytes.len());
        Ok((BorrowedView { layout: self, record, length }, rest))
    }
}

} // verus!
