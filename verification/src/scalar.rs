//! Fixed-width unsigned scalars and their byte representation in either byte
//! order.

use vstd::prelude::*;

verus! {

/// The order in which the bytes of a scalar are laid out.
#[derive(Clone, Copy, Debug, PartialEq, Eq, Structural)]
pub enum ByteOrder {
    /// Least significant byte first.
    Little,
    /// Most significant byte first.
    Big,
}

/// The widest scalar, in bytes, that a record can hold.
pub const MAX_SCALAR_WIDTH: usize = 8;

/// The number of distinct values that `width` bytes can hold: `256^width`.
pub open spec fn capacity(width: nat) -> nat
    decreases width,
{
    if width == 0 {
        1
    } else {
        256 * capacity((width - 1) as nat)
    }
}

/// The number that `s` denotes when its first byte is the least significant.
pub open spec fn le_value(s: Seq<u8>) -> nat
    decreases s.len(),
{
    if s.len() == 0 {
        0
    } else {
        s[0] as nat + 256 * le_value(s.skip(1))
    }
}

/// The `width` low-order base-256 digits of `v`, least significant first.
pub open spec fn le_bytes(v: nat, width: nat) -> Seq<u8>
    decreases width,
{
    if width == 0 {
        Seq::empty()
    } else {
        seq![(v % 256) as u8] + le_bytes(v / 256, (width - 1) as nat)
    }
}

/// The number that the bytes `s` denote in byte order `order`.
pub open spec fn scalar_value(order: ByteOrder, s: Seq<u8>) -> nat {
    match order {
        ByteOrder::Little => le_value(s),
        ByteOrder::Big => le_value(s.reverse()),
    }
}

/// The `width` bytes that represent `v` in byte order `order`.
pub open spec fn scalar_bytes(order: ByteOrder, v: nat, width: nat) -> Seq<u8> {
    match order {
        ByteOrder::Little => le_bytes(v, width),
        ByteOrder::Big => le_bytes(v, width).reverse(),
    }
}

/// The capacity of each scalar width, written out.
pub proof fn lemma_capacity_values()
    ensures
        capacity(0) == 1,
        capacity(1) == 0x100,
        capacity(2) == 0x1_0000,
        capacity(3) == 0x100_0000,
        capacity(4) == 0x1_0000_0000,
        capacity(5) == 0x100_0000_0000,
        capacity(6) == 0x1_0000_0000_0000,
        capacity(7) == 0x100_0000_0000_0000,
        capacity(8) == 0x1_0000_0000_0000_0000,
{
    reveal_with_fuel(capacity, 10);
}

/// More bytes hold at least as many values, and even no bytes hold one.
pub proof fn lemma_capacity_monotonic(a: nat, b: nat)
    requires
        a <= b,
    ensures
        1 <= capacity(a) <= capacity(b),
    decreases b,
{
    if b == 0 {
    } else if a == b {
        lemma_capacity_monotonic((a - 1) as nat, (b - 1) as nat);
    } else {
        lemma_capacity_monotonic(a, (b - 1) as nat);
    }
}

/// A value is represented in exactly the number of bytes asked for.
pub proof fn lemma_le_bytes_len(v: nat, width: nat)
    ensures
        le_bytes(v, width).len() == width,
    decreases width,
{
    if width > 0 {
        lemma_le_bytes_len(v / 256, (width - 1) as nat);
    }
}

/// The value of some bytes is below the capacity of that many bytes.
pub proof fn lemma_le_value_bound(s: Seq<u8>)
    ensures
        le_value(s) < capacity(s.len()),
    decreases s.len(),
{
    if s.len() > 0 {
        lemma_le_value_bound(s.skip(1));
    }
}

/// The digits of a value that fits denote that value.
pub proof fn lemma_le_round_trip(v: nat, width: nat)
    requires
        v < capacity(width),
    ensures
        le_value(le_bytes(v, width)) == v,
    decreases width,
{
    if width > 0 {
        let rest = le_bytes(v / 256, (width - 1) as nat);
        let s = le_bytes(v, width);
        lemma_le_round_trip(v / 256, (width - 1) as nat);
        assert(s.skip(1) =~= rest);
        assert(s[0] == (v % 256) as u8);
    }
}

/// Every value that fits in `width` bytes is read back from its own bytes
/// unchanged, in either byte order.
pub proof fn lemma_scalar_round_trip(order: ByteOrder, v: nat, width: nat)
    requires
        v < capacity(width),
    ensures
        scalar_bytes(order, v, width).len() == width,
        scalar_value(order, scalar_bytes(order, v, width)) == v,
{
    lemma_le_bytes_len(v, width);
    lemma_le_round_trip(v, width);
    let digits = le_bytes(v, width);
    assert(digits.reverse().reverse() =~= digits);
}

/// The value of any `width` bytes fits in `width` bytes.
pub proof fn lemma_scalar_value_bound(order: ByteOrder, s: Seq<u8>)
    ensures
        scalar_value(order, s) < capacity(s.len()),
{
    lemma_le_value_bound(s);
    lemma_le_value_bound(s.reverse());
}

/// `u16::to_ne_bytes`: the two bytes of `x` as the machine holds them in
/// memory. The standard library documents this as `to_le_bytes` on a
/// little-endian target and `to_be_bytes` on a big-endian one; which of the two
/// it is depends on the machine, so the contract allows both.
#[verifier::external_body]
fn native_bytes_of(x: u16) -> (bytes: [u8; 2])
    ensures
        bytes@ == le_bytes(x as nat, 2) || bytes@ == le_bytes(x as nat, 2).reverse(),
{
    x.to_ne_bytes()
}

impl ByteOrder {
    /// The byte order under which the number one, held in two bytes, reads as
    /// `probe`: little-endian when the first byte is the one that is set.
    pub fn from_probe(probe: [u8; 2]) -> (order: ByteOrder)
        ensures
            order == (if probe[0] == 1 {
                ByteOrder::Little
            } else {
                ByteOrder::Big
            }),
    {
        if probe[0] == 1 {
            ByteOrder::Little
        } else {
            ByteOrder::Big
        }
    }

    /// The byte order of the machine this runs on. Nothing is promised about
    /// which order comes back: every function that takes a `ByteOrder` is
    /// specified for both.
    pub fn native() -> ByteOrder {
        ByteOrder::from_probe(native_bytes_of(1))
    }
}

/// Whether `value` can be held in `width` bytes.
pub fn fits(value: u64, width: usize) -> (r: bool)
    ensures
        r == ((value as nat) < capacity(width as nat)),
{
    if width >= 8 {
        proof {
            lemma_capacity_values();
            lemma_capacity_monotonic(8, width as nat);
        }
        return true;
    }
    let mut limit: u64 = 1;
    let mut i: usize = 0;
    while i < width
        invariant
            i <= width < 8,
            limit == capacity(i as nat),
        decreases width - i,
    {
        proof {
            lemma_capacity_values();
            lemma_capacity_monotonic((i + 1) as nat, 7);
        }
        limit = limit * 256;
        i = i + 1;
    }
    value < limit
}

/// Reads the scalar of `width` bytes that starts at `start`.
pub fn read_scalar(order: ByteOrder, bytes: &[u8], start: usize, width: usize) -> (value: u64)
    requires
        start + width <= bytes@.len(),
        width <= MAX_SCALAR_WIDTH,
    ensures
        value as nat == scalar_value(order, bytes@.subrange(start as int, start + width)),
{
    let ghost s = bytes@.subrange(start as int, start + width);
    let mut acc: u64 = 0;
    match order {
        ByteOrder::Little => {
            let mut i: usize = width;
            assert(s.skip(width as int) =~= Seq::<u8>::empty());
            while i > 0
                invariant
                    i <= width <= 8,
                    start + width <= bytes.len(),
                    s == bytes@.subrange(start as int, start + width),
                    acc as nat == le_value(s.skip(i as int)),
                decreases i,
            {
                let j: usize = i - 1;
                let b: u8 = bytes[start + j];
                proof {
                    let t = s.skip(j as int);
                    assert(t[0] == b);
                    assert(t.skip(1) =~= s.skip(i as int));
                    lemma_le_value_bound(t);
                    lemma_capacity_monotonic(t.len(), 8);
                    lemma_capacity_values();
                }
                acc = acc * 256 + b as u64;
                i = j;
            }
            assert(s.skip(0) =~= s);
        },
        ByteOrder::Big => {
            let mut i: usize = 0;
            assert(s.take(0).reverse() =~= Seq::<u8>::empty());
            while i < width
                invariant
                    i <= width <= 8,
                    start + width <= bytes.len(),
                    s == bytes@.subrange(start as int, start + width),
                    acc as nat == le_value(s.take(i as int).reverse()),
                decreases width - i,
            {
                let b: u8 = bytes[start + i];
                proof {
                    let t = s.take(i + 1).reverse();
                    assert(t[0] == b);
                    assert(t.skip(1) =~= s.take(i as int).reverse());
                    lemma_le_value_bound(t);
                    lemma_capacity_monotonic(t.len(), 8);
                    lemma_capacity_values();
                }
                acc = acc * 256 + b as u64;
                i = i + 1;
            }
            assert(s.take(width as int) =~= s);
        },
    }
    acc
}

/// The `width` low-order base-256 digits of `value`, least significant first.
fn digits_of(value: u64, width: usize) -> (digits: Vec<u8>)
    ensures
        digits@ == le_bytes(value as nat, width as nat),
{
    let mut digits: Vec<u8> = Vec::new();
    let mut v: u64 = value;
    let mut i: usize = 0;
    while i < width
        invariant
            i <= width,
            digits@.len() == i,
            le_bytes(value as nat, width as nat) == digits@ + le_bytes(v as nat, (width - i) as nat),
        decreases width - i,
    {
        let ghost before = digits@;
        let d: u8 = (v % 256) as u8;
        digits.push(d);
        proof {
            let rest = le_bytes((v / 256) as nat, (width - i - 1) as nat);
            assert(le_bytes(v as nat, (width - i) as nat) == seq![d] + rest);
            assert(before + (seq![d] + rest) =~= digits@ + rest);
        }
        v = v / 256;
        i = i + 1;
    }
    assert(digits@ + Seq::<u8>::empty() =~= digits@);
    digits
}

/// Appends the `width` bytes of `value` to `out`.
pub fn append_scalar(order: ByteOrder, value: u64, width: usize, out: &mut Vec<u8>)
    ensures
        final(out)@ == old(out)@ + scalar_bytes(order, value as nat, width as nat),
{
    let digits = digits_of(value, width);
    proof {
        lemma_le_bytes_len(value as nat, width as nat);
    }
    let ghost before = out@;
    let mut i: usize = 0;
    while i < width
        invariant
            i <= width,
            digits@.len() == width,
            digits@ == le_bytes(value as nat, width as nat),
            out@ == before + scalar_bytes(order, value as nat, width as nat).take(i as int),
        decreases width - i,
    {
        let ghost prev = out@;
        let ghost target = scalar_bytes(order, value as nat, width as nat);
        let b: u8 = match order {
            ByteOrder::Little => digits[i],
            ByteOrder::Big => digits[width - 1 - i],
        };
        out.push(b);
        proof {
            assert(target[i as int] == b);
            assert(target.take(i + 1) =~= target.take(i as int).push(b));
            assert(out@ =~= before + target.take(i + 1));
        }
        i = i + 1;
    }
    proof {
        let target = scalar_bytes(order, value as nat, width as nat);
        assert(target.take(width as int) =~= target);
    }
}

} // verus!
