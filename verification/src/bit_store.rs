//! The bit array that backs a filter: `bitvec`'s `BitVec`, as far as the
//! filter uses it.

use bitvec::order::Lsb0;
use bitvec::vec::BitVec;
use vstd::prelude::*;

verus! {

/// A fixed-length array of bits, stored by `bitvec` in machine words, the
/// lowest bit of a word first.
///
/// The only way to make one is [`zeroed`], so an array always starts at the
/// lowest bit of its first word.
#[verifier::external_body]
pub struct BitArray {
    inner: BitVec<usize, Lsb0>,
}

/// The bits that an array holds, in index order.
pub uninterp spec fn bits_of(a: BitArray) -> Seq<bool>;

/// The longest array that `bitvec` can address on this machine.
pub open spec fn max_bits() -> nat {
    (usize::MAX / 8) as nat
}

/// The number of machine words that hold `len` bits.
pub open spec fn words_for(len: nat) -> nat {
    (len + usize::BITS - 1) as nat / (usize::BITS as nat)
}

/// Bit `j` of the word `w`, counted from the lowest.
pub open spec fn word_bit(w: usize, j: usize) -> bool {
    (w >> j) & 1 == 1
}

/// `BitVec::repeat(false, len)`: an array of `len` bits, all false. The call
/// panics beyond `BitSlice::MAX_BITS`, an eighth of the address space, so
/// longer arrays are left out.
#[verifier::external_body]
pub(crate) fn zeroed(len: usize) -> (a: BitArray)
    requires
        len <= max_bits(),
    ensures
        bits_of(a) == Seq::new(len as nat, |i: int| false),
{
    BitArray { inner: BitVec::<usize, Lsb0>::repeat(false, len) }
}

/// `BitSlice::set`: writes one bit and leaves the others as they were. The
/// call panics on an index past the end and on nothing else, so inside the
/// array it does not unwind.
#[verifier::external_body]
pub(crate) fn set_bit(a: &mut BitArray, index: usize, value: bool)
    requires
        index < bits_of(*old(a)).len(),
    ensures
        bits_of(*final(a)) == bits_of(*old(a)).update(index as int, value),
    no_unwind
{
    a.inner.set(index, value)
}

/// Indexing a `BitSlice` by `usize`: reads one bit. The call panics on an
/// index past the end.
#[verifier::external_body]
pub(crate) fn get_bit(a: &BitArray, index: usize) -> (bit: bool)
    requires
        index < bits_of(*a).len(),
    ensures
        bit == bits_of(*a)[index as int],
{
    a.inner[index]
}

/// `BitVec::as_raw_slice`: the words that store the bits. For an array that
/// starts at the lowest bit of its first word, as every `BitArray` does, there
/// are as many words as the bits need, and bit `i` of the array is bit
/// `i % usize::BITS` of word `i / usize::BITS`. Nothing is said of the bits of
/// the last word that lie past the array's end.
#[verifier::external_body]
pub(crate) fn raw_words(a: &BitArray) -> (words: &[usize])
    ensures
        words@.len() == words_for(bits_of(*a).len()),
        forall|i: int|
            0 <= i < bits_of(*a).len() ==> #[trigger] bits_of(*a)[i] == word_bit(
                words@[i / (usize::BITS as int)],
                (i % (usize::BITS as int)) as usize,
            ),
{
    a.inner.as_raw_slice()
}

} // verus!
