//! Trusted interface to `fixedbitset::FixedBitSet`, the dense stop sets the
//! algorithm keeps (marked stops, origins, stops reached so far).

use fixedbitset::FixedBitSet;
use vstd::prelude::*;

verus! {

/// `fixedbitset::FixedBitSet`, carried opaquely.
#[verifier::external_type_specification]
#[verifier::external_body]
pub struct ExFixedBitSet(FixedBitSet);

/// The set bits of a bitset.
pub uninterp spec fn bits_of(b: FixedBitSet) -> Set<nat>;

/// The number of bits a bitset was made with (its `len()`).
pub uninterp spec fn bit_capacity(b: FixedBitSet) -> nat;

/// Every set bit lies below the capacity.
pub open spec fn bits_in_range(b: FixedBitSet) -> bool {
    forall|i: nat| #[trigger] bits_of(b).contains(i) ==> i < bit_capacity(b)
}

/// `FixedBitSet::with_capacity`: `bits` clear bits.
#[verifier::external_body]
pub fn bitset_with_capacity(bits: usize) -> (r: FixedBitSet)
    ensures
        bits_of(r) == Set::<nat>::empty(),
        bit_capacity(r) == bits,
{
    FixedBitSet::with_capacity(bits)
}

/// `FixedBitSet::insert`: sets `bit`, which must lie below the capacity
/// (the crate panics otherwise).
#[verifier::external_body]
pub fn bitset_insert(b: &mut FixedBitSet, bit: usize)
    requires
        bit < bit_capacity(*old(b)),
    ensures
        bits_of(*final(b)) == bits_of(*old(b)).insert(bit as nat),
        bit_capacity(*final(b)) == bit_capacity(*old(b)),
{
    b.insert(bit)
}

/// `FixedBitSet::contains`: whether `bit` is set (bits past the capacity
/// are never set).
#[verifier::external_body]
pub fn bitset_contains(b: &FixedBitSet, bit: usize) -> (r: bool)
    ensures
        r == bits_of(*b).contains(bit as nat),
{
    b.contains(bit)
}

/// `FixedBitSet::clear`: unsets every bit, keeping the capacity.
#[verifier::external_body]
pub fn bitset_clear(b: &mut FixedBitSet)
    ensures
        bits_of(*final(b)) == Set::<nat>::empty(),
        bit_capacity(*final(b)) == bit_capacity(*old(b)),
{
    b.clear()
}

/// `FixedBitSet::is_clear`: no stored bit is set. The crate scans whole
/// storage blocks, so a bitset built from raw blocks with bits past its
/// length reports `false` though none of its bits below the length is
/// set; only the `true` answer is stated.
#[verifier::external_body]
pub fn bitset_is_clear(b: &FixedBitSet) -> (r: bool)
    ensures
        r ==> bits_of(*b).is_empty(),
{
    b.is_clear()
}

/// `FixedBitSet::len`: the number of bits the bitset was made with; the
/// set bits all lie below it.
#[verifier::external_body]
pub fn bitset_len(b: &FixedBitSet) -> (r: usize)
    ensures
        r == bit_capacity(*b),
        forall|x: nat| #[trigger] bits_of(*b).contains(x) ==> x < r,
{
    b.len()
}

/// `FixedBitSet::ones`: the set stored bits, in increasing order. Every
/// set bit below the length is listed; as the crate scans whole storage
/// blocks, a bitset built from raw blocks may also list bits at or past
/// its length, so only the listed bits below the length are stated to be
/// set.
#[verifier::external_body]
fn bitset_ones(b: &FixedBitSet) -> (r: Vec<usize>)
    ensures
        forall|i: int, j: int| 0 <= i < j < r@.len() ==> r@[i] < r@[j],
        forall|i: int| 0 <= i < r@.len() && r@[i] < bit_capacity(*b) ==> bits_of(*b).contains(#[trigger] r@[i] as nat),
        forall|x: nat| #[trigger] bits_of(*b).contains(x) ==> exists|i: int|
            0 <= i < r@.len() && r@[i] == x,
{
    b.ones().collect()
}

/// The set bits of `b` below its length, in increasing order: the listed
/// bits up to the first one at or past the length.
pub fn set_bits(b: &FixedBitSet) -> (r: Vec<usize>)
    ensures
        forall|i: int, j: int| 0 <= i < j < r@.len() ==> r@[i] < r@[j],
        forall|i: int| 0 <= i < r@.len() ==> bits_of(*b).contains(#[trigger] r@[i] as nat),
        forall|x: nat| #[trigger] bits_of(*b).contains(x) ==> exists|i: int|
            0 <= i < r@.len() && r@[i] == x,
{
    let n = bitset_len(b);
    let all = bitset_ones(b);
    let mut r: Vec<usize> = Vec::new();
    let mut i: usize = 0;
    while i < all.len() && all[i] < n
        invariant
            n == bit_capacity(*b),
            i <= all@.len(),
            r@ == all@.subrange(0, i as int),
            forall|a: int| 0 <= a < i ==> #[trigger] all@[a] < n,
        decreases all@.len() - i,
    {
        r.push(all[i]);
        i = i + 1;
    }
    proof {
        assert forall|x: nat| #[trigger] bits_of(*b).contains(x) implies exists|a: int| 0 <= a < r@.len() && r@[a] == x by {
            let c = choose|c: int| 0 <= c < all@.len() && all@[c] == x;
            if c >= i {
                assert(all@[i as int] <= all@[c]);
            }
            assert(r@[c] == all@[c]);
        }
        assert forall|a: int| 0 <= a < r@.len() implies bits_of(*b).contains(#[trigger] r@[a] as nat) by {
            assert(r@[a] == all@[a]);
        }
    }
    r
}

} // verus!
