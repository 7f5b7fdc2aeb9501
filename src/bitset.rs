//! The packed bit set that holds the grid, and what this library relies on
//! of it.

use vstd::prelude::*;
use fixedbitset::FixedBitSet;

verus! {

/// The fixed-size bit set of the `fixedbitset` crate, held opaquely.
#[verifier::external_type_specification]
#[verifier::external_body]
pub struct ExFixedBitSet(FixedBitSet);

/// The bits that a `FixedBitSet` holds, in index order: bit `i` is entry `i`,
/// and the length is the set's length in bits.
pub uninterp spec fn bits_of(b: FixedBitSet) -> Seq<bool>;

/// Relies on `FixedBitSet::with_capacity`: `bits` bits, all clear.
pub assume_specification[ FixedBitSet::with_capacity ](bits: usize) -> (r: FixedBitSet)
    ensures
        bits_of(r) == Seq::new(bits as nat, |i: int| false),
;

/// Relies on `FixedBitSet::len`: the length in bits.
pub assume_specification[ FixedBitSet::len ](b: &FixedBitSet) -> (r: usize)
    ensures
        r == bits_of(*b).len(),
;

/// Relies on `FixedBitSet::contains`: whether a bit within the length is set.
pub assume_specification[ FixedBitSet::contains ](b: &FixedBitSet, bit: usize) -> (r: bool)
    ensures
        bit < bits_of(*b).len() ==> r == bits_of(*b)[bit as int],
;

/// Relies on `FixedBitSet::set`: writes one bit and leaves the others; it
/// panics past the end, which `requires` rules out.
pub assume_specification[ FixedBitSet::set ](b: &mut FixedBitSet, bit: usize, enabled: bool)
    requires
        bit < bits_of(*old(b)).len(),
    ensures
        bits_of(*final(b)) == bits_of(*old(b)).update(bit as int, enabled),
;

/// Relies on `FixedBitSet`'s `Clone`: a copy with the same bits.
pub assume_specification[ <FixedBitSet as Clone>::clone ](b: &FixedBitSet) -> (r: FixedBitSet)
    ensures
        bits_of(r) == bits_of(*b),
;

/// Relies on `FixedBitSet::as_slice`: the `u32` blocks that hold the bits,
/// as many as the length needs; bit `i` is bit `i % 32` (counted from the
/// lowest) of block `i / 32`.
pub assume_specification[ FixedBitSet::as_slice ](b: &FixedBitSet) -> (r: &[u32])
    ensures
        r@.len() == (bits_of(*b).len() + 31) / 32,
        forall|i: int|
            0 <= i < bits_of(*b).len() ==> #[trigger] bits_of(*b)[i] == ((r@[i / 32] >> ((i % 32) as u32)) & 1u32 == 1u32),
;

} // verus!
