use vstd::prelude::*;
use bitvec::order::Lsb0;
use bitvec::vec::BitVec;

verus! {

/// A bitmap kept in a `bitvec::vec::BitVec`. Verus sees nothing inside it;
/// `bits` names what it holds.
#[verifier::external_body]
pub struct Bitmap {
    inner: BitVec<usize, Lsb0>,
}

/// The bits that a bitmap holds, in index order.
pub uninterp spec fn bits(v: Bitmap) -> Seq<bool>;

/// How many of the first `n` bits are set.
pub open spec fn count_set(bits: Seq<bool>, n: nat) -> nat
    decreases n,
{
    if n == 0 {
        0
    } else {
        count_set(bits, (n - 1) as nat) + if bits[n - 1] {
            1nat
        } else {
            0nat
        }
    }
}

/// `BitSlice::count_ones`: the number of bits that are set.
#[verifier::external_body]
pub(crate) fn bits_count_ones(v: &Bitmap) -> (n: usize)
    ensures
        n == count_set(bits(*v), bits(*v).len()),
{
    v.inner.count_ones()
}

/// The greatest number of bits that `BitVec` accepts.
pub open spec fn max_bits() -> nat {
    (usize::MAX / 8) as nat
}

/// `BitVec::repeat`: a bitmap of `len` bits, each equal to `bit`. The outside
/// function panics above `max_bits()` bits.
#[verifier::external_body]
pub(crate) fn bits_repeat(bit: bool, len: usize) -> (v: Bitmap)
    requires
        len <= max_bits(),
    ensures
        bits(v) == Seq::new(len as nat, |i: int| bit),
{
    Bitmap { inner: BitVec::repeat(bit, len) }
}

/// Indexing a `BitVec` by position: the bit at `index`. The outside operator
/// panics when `index` is out of range.
#[verifier::external_body]
pub(crate) fn bits_get(v: &Bitmap, index: usize) -> (b: bool)
    requires
        index < bits(*v).len(),
    ensures
        b == bits(*v)[index as int],
{
    v.inner[index]
}

/// `BitSlice::set`: writes `value` at `index` and leaves every other bit as it
/// was. The outside function panics when `index` is out of range.
#[verifier::external_body]
pub(crate) fn bits_set(v: &mut Bitmap, index: usize, value: bool)
    requires
        index < bits(*old(v)).len(),
    ensures
        bits(*final(v)) == bits(*old(v)).update(index as int, value),
{
    v.inner.set(index, value);
}

/// `BitSlice::first_one` on the bits from `from` on: the distance from `from`
/// to the first set bit at or after it, or `None` where none is set there.
/// Taking the part panics when `from` is after the end.
#[verifier::external_body]
pub(crate) fn bits_first_one(v: &Bitmap, from: usize) -> (found: Option<usize>)
    requires
        from <= bits(*v).len(),
    ensures
        match found {
            Some(k) => {
                &&& from + k < bits(*v).len()
                &&& bits(*v)[from + k]
                &&& forall|j: int| from <= j < from + k ==> !bits(*v)[j]
            },
            None => forall|j: int| from <= j < bits(*v).len() ==> !bits(*v)[j],
        },
{
    v.inner[from..].first_one()
}

/// `BitSlice::last_one` on the bits before `to`: the position of the last set
/// bit before `to`, or `None` where none is set there. Taking the part panics
/// when `to` is after the end.
#[verifier::external_body]
pub(crate) fn bits_last_one(v: &Bitmap, to: usize) -> (found: Option<usize>)
    requires
        to <= bits(*v).len(),
    ensures
        match found {
            Some(k) => {
                &&& k < to
                &&& bits(*v)[k as int]
                &&& forall|j: int| k < j < to ==> !bits(*v)[j]
            },
            None => forall|j: int| 0 <= j < to ==> !bits(*v)[j],
        },
{
    v.inner[..to].last_one()
}

} // verus!
