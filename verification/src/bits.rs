use vstd::prelude::*;
use fixedbitset::FixedBitSet;
use roaring::RoaringBitmap;

verus! {

#[verifier::external_type_specification]
#[verifier::external_body]
pub struct ExFixedBitSet(FixedBitSet);

#[verifier::external_type_specification]
#[verifier::external_body]
pub struct ExRoaringBitmap(RoaringBitmap);

/// The bits of a fixed bit set, one entry per position up to its capacity.
pub uninterp spec fn bits_of(b: FixedBitSet) -> Seq<bool>;

/// The members of a roaring bitmap.
pub uninterp spec fn members_of(r: RoaringBitmap) -> Set<u32>;

/// `FixedBitSet::with_capacity`: a set of `n` bits, all clear.
#[verifier::external_body]
pub(crate) fn bitset_new(n: usize) -> (b: FixedBitSet)
    ensures
        bits_of(b) == Seq::new(n as nat, |i: int| false),
{
    FixedBitSet::with_capacity(n)
}

/// `FixedBitSet::contains`: the bit at `i`; positions past the capacity read as clear.
#[verifier::external_body]
pub(crate) fn bitset_contains(b: &FixedBitSet, i: usize) -> (r: bool)
    ensures
        r == (i < bits_of(*b).len() && bits_of(*b)[i as int]),
{
    b.contains(i)
}

/// `FixedBitSet::set`: writes one bit and leaves the others as they were.
#[verifier::external_body]
pub(crate) fn bitset_set(b: &mut FixedBitSet, i: usize, on: bool)
    requires
        i < bits_of(*old(b)).len(),
    ensures
        bits_of(*final(b)) == bits_of(*old(b)).update(i as int, on),
{
    b.set(i, on)
}

/// `FixedBitSet::clear`: clears every bit and keeps the capacity.
#[verifier::external_body]
pub(crate) fn bitset_clear(b: &mut FixedBitSet)
    ensures
        bits_of(*final(b)) == Seq::new(bits_of(*old(b)).len(), |i: int| false),
{
    b.clear()
}

/// `Clone::clone` of a `FixedBitSet`: a set of the same capacity with the same bits.
#[verifier::external_body]
pub(crate) fn bitset_clone(b: &FixedBitSet) -> (r: FixedBitSet)
    ensures
        bits_of(r) == bits_of(*b),
{
    b.clone()
}

/// `RoaringBitmap::new`: the empty set.
#[verifier::external_body]
pub(crate) fn rows_new() -> (r: RoaringBitmap)
    ensures
        members_of(r) == Set::<u32>::empty(),
{
    RoaringBitmap::new()
}

/// `RoaringBitmap::insert`: adds one value.
#[verifier::external_body]
pub(crate) fn rows_insert(r: &mut RoaringBitmap, x: u32)
    ensures
        members_of(*final(r)) == members_of(*old(r)).insert(x),
{
    r.insert(x);
}

/// `RoaringBitmap::is_disjoint`: whether the two sets share no value.
#[verifier::external_body]
pub(crate) fn rows_disjoint(a: &RoaringBitmap, b: &RoaringBitmap) -> (r: bool)
    ensures
        r == members_of(*a).disjoint(members_of(*b)),
{
    a.is_disjoint(b)
}

/// `BitOrAssign<RoaringBitmap>` for `RoaringBitmap`: in-place union.
#[verifier::external_body]
pub(crate) fn rows_union_with(a: &mut RoaringBitmap, b: RoaringBitmap)
    ensures
        members_of(*final(a)) == members_of(*old(a)).union(members_of(b)),
{
    *a |= b;
}

} // verus!
