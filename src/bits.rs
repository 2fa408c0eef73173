//! The bit region, held in a `bitvec` bit-vector, and the operations of
//! `bitvec` that the tree uses on it.
use bitvec::order::Lsb0;
use bitvec::vec::BitVec;
use vstd::prelude::*;

verus! {

/// The bit region: a `bitvec` bit-vector of `u8` storage, least significant
/// bit first. Verus sees it only through `bits_of`.
#[verifier::external_body]
pub struct Bits {
    v: BitVec<u8, Lsb0>,
}

/// The bits held by a bit-vector, in index order.
pub uninterp spec fn bits_of(v: Bits) -> Seq<bool>;

/// Relies on `BitVec::repeat`: a bit-vector of `len` copies of `bit`.
#[verifier::external_body]
pub(crate) fn repeat_bits(bit: bool, len: usize) -> (r: Bits)
    ensures
        bits_of(r) == Seq::new(len as nat, |k: int| bit),
{
    Bits { v: BitVec::repeat(bit, len) }
}

/// Relies on indexing a `BitSlice` by a `usize`: the bit at `index`.
#[verifier::external_body]
pub(crate) fn get_bit(v: &Bits, index: usize) -> (r: bool)
    requires
        index < bits_of(*v).len(),
    ensures
        r == bits_of(*v)[index as int],
{
    v.v[index]
}

/// Relies on `BitSlice::set`: writes one bit and leaves the others.
#[verifier::external_body]
pub(crate) fn set_bit(v: &mut Bits, index: usize, value: bool)
    requires
        index < bits_of(*old(v)).len(),
    ensures
        bits_of(*final(v)) == bits_of(*old(v)).update(index as int, value),
{
    v.v.set(index, value)
}

/// Relies on `BitSlice::fill` over the sub-slice `[lo, hi)`: writes `value`
/// into each bit of the range and leaves the others.
#[verifier::external_body]
pub(crate) fn fill_bits(v: &mut Bits, lo: usize, hi: usize, value: bool)
    requires
        lo <= hi <= bits_of(*old(v)).len(),
    ensures
        bits_of(*final(v)).len() == bits_of(*old(v)).len(),
        forall|k: int|
            0 <= k < bits_of(*old(v)).len() ==> #[trigger] bits_of(*final(v))[k] == if lo <= k
                < hi {
                value
            } else {
                bits_of(*old(v))[k]
            },
{
    v.v[lo..hi].fill(value)
}

/// Relies on `BitSlice::not_all` over the sub-slice `[lo, hi)`: whether
/// some bit of the range is clear.
#[verifier::external_body]
pub(crate) fn any_clear(v: &Bits, lo: usize, hi: usize) -> (r: bool)
    requires
        lo <= hi <= bits_of(*v).len(),
    ensures
        r == (exists|k: int| lo <= k < hi && !#[trigger] bits_of(*v)[k]),
{
    v.v[lo..hi].not_all()
}

/// Relies on `BitSlice::first_zero` over the sub-slice `[lo, hi)`: the
/// offset from `lo` of the first clear bit of the range, if any.
#[verifier::external_body]
pub(crate) fn first_clear(v: &Bits, lo: usize, hi: usize) -> (r: Option<usize>)
    requires
        lo <= hi <= bits_of(*v).len(),
    ensures
        match r {
            Some(j) => lo + j < hi && !bits_of(*v)[lo + j] && forall|k: int|
                lo <= k < lo + j ==> #[trigger] bits_of(*v)[k],
            None => forall|k: int| lo <= k < hi ==> #[trigger] bits_of(*v)[k],
        },
{
    v.v[lo..hi].first_zero()
}

} // verus!
