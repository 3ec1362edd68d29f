//! Bit buffers: `bitvec`'s bit-vector, seen from verified code as the sequence
//! of booleans it holds.
use bitvec::order::Msb0;
use bitvec::vec::BitVec;
use vstd::prelude::*;

verus! {

/// A buffer of cells, one bit each, held by `bitvec` as bytes with the most
/// significant bit first. Verified code sees it through `bits_of` alone.
#[verifier::external_body]
#[derive(Debug, PartialEq, Eq)]
pub struct BitSpace {
    bits: BitVec<u8, Msb0>,
}

/// The bits that a buffer holds, in order.
pub uninterp spec fn bits_of(b: BitSpace) -> Seq<bool>;

impl View for BitSpace {
    type V = Seq<bool>;

    open spec fn view(&self) -> Seq<bool> {
        bits_of(*self)
    }
}

impl BitSpace {
    /// The number of bits held.
    pub fn len(&self) -> (r: usize)
        ensures
            r == self@.len(),
    {
        space_len(self)
    }

    /// The bit at `index`.
    pub fn get(&self, index: usize) -> (r: bool)
        requires
            index < self@.len(),
        ensures
            r == self@[index as int],
    {
        space_get(self, index)
    }
}

/// The most bits that one buffer can hold.
pub open spec fn max_bits() -> nat {
    (usize::MAX as nat) / 8
}

/// The number of set bits in `s`.
pub open spec fn count_true(s: Seq<bool>) -> nat
    decreases s.len(),
{
    if s.len() == 0 {
        0
    } else {
        count_true(s.drop_last()) + if s.last() {
            1nat
        } else {
            0nat
        }
    }
}

/// Relies on `BitVec::repeat`: a buffer of `len` cleared bits.
#[verifier::external_body]
pub(crate) fn space_zeros(len: usize) -> (r: BitSpace)
    requires
        len <= max_bits(),
    ensures
        bits_of(r) == Seq::new(len as nat, |i: int| false),
{
    BitSpace { bits: BitVec::repeat(false, len) }
}

/// Relies on `BitVec::new`: an empty buffer.
#[verifier::external_body]
pub(crate) fn space_empty() -> (r: BitSpace)
    ensures
        bits_of(r) == Seq::<bool>::empty(),
{
    BitSpace { bits: BitVec::new() }
}

/// Relies on `BitVec::len`: the number of bits held.
#[verifier::external_body]
pub(crate) fn space_len(b: &BitSpace) -> (r: usize)
    ensures
        r as nat == bits_of(*b).len(),
{
    b.bits.len()
}

/// Relies on indexing a `BitSlice`: the bit at `index`.
#[verifier::external_body]
pub(crate) fn space_get(b: &BitSpace, index: usize) -> (r: bool)
    requires
        index < bits_of(*b).len(),
    ensures
        r == bits_of(*b)[index as int],
{
    b.bits[index]
}

/// Relies on `BitSlice::set`: overwrites the bit at `index`.
#[verifier::external_body]
pub(crate) fn space_set(b: &mut BitSpace, index: usize, value: bool)
    requires
        index < bits_of(*old(b)).len(),
    ensures
        bits_of(*final(b)) == bits_of(*old(b)).update(index as int, value),
{
    b.bits.set(index, value)
}

/// Relies on `BitVec::push`: appends one bit.
#[verifier::external_body]
pub(crate) fn space_push(b: &mut BitSpace, value: bool)
    requires
        bits_of(*old(b)).len() + 1 <= max_bits(),
    ensures
        bits_of(*final(b)) == bits_of(*old(b)).push(value),
{
    b.bits.push(value)
}

/// Relies on `BitVec::extend_from_bitslice`: appends the bits of `other`.
#[verifier::external_body]
pub(crate) fn space_append(b: &mut BitSpace, other: &BitSpace)
    requires
        bits_of(*old(b)).len() + bits_of(*other).len() <= max_bits(),
    ensures
        bits_of(*final(b)) == bits_of(*old(b)) + bits_of(*other),
{
    b.bits.extend_from_bitslice(other.bits.as_bitslice())
}

/// Relies on `BitVec::from_bitslice` over a range of `b`: a copy of the bits
/// from `start` up to `end`.
#[verifier::external_body]
pub(crate) fn space_copy_range(b: &BitSpace, start: usize, end: usize) -> (r: BitSpace)
    requires
        start <= end <= bits_of(*b).len(),
    ensures
        bits_of(r) == bits_of(*b).subrange(start as int, end as int),
{
    BitSpace { bits: BitVec::from_bitslice(&b.bits[start..end]) }
}

/// Relies on `BitSlice::count_ones`: the number of set bits.
#[verifier::external_body]
pub(crate) fn space_count_ones(b: &BitSpace) -> (r: usize)
    ensures
        r as nat == count_true(bits_of(*b)),
{
    b.bits.count_ones()
}

} // verus!
