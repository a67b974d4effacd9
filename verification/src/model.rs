//! The mathematical model of a filter: a sequence of bits and a number of
//! hash functions, with insertion and membership stated over them.

use crate::digest::digest;
use vstd::prelude::*;

verus! {

/// The digests of `item`, one for each of `hash_functions` seeds, in seed
/// order. Seed `n` is the number `n` itself.
pub open spec fn digests(item: Seq<char>, hash_functions: nat) -> Seq<u64> {
    Seq::new(hash_functions, |seed: int| digest(seed as u64, item))
}

/// The bit that a digest addresses in an array of `size` bits: the digest
/// modulo the size.
pub open spec fn position(digest: u64, size: nat) -> int
    recommends
        size > 0,
{
    digest as int % size as int
}

/// What a filter is: its bits, and how many hash functions address them.
pub struct FilterView {
    pub bits: Seq<bool>,
    pub hash_functions: nat,
}

impl FilterView {
    /// The number of addressable bits.
    pub open spec fn size(self) -> nat {
        self.bits.len()
    }

    /// The filter of `size` bits in which no bit is set.
    pub open spec fn empty(size: nat, hash_functions: nat) -> FilterView {
        FilterView { bits: Seq::new(size, |j: int| false), hash_functions }
    }

    /// No bit is set.
    pub open spec fn is_empty(self) -> bool {
        forall|j: int| 0 <= j < self.bits.len() ==> !self.bits[j]
    }

    /// One of the digests addresses bit `j`.
    pub open spec fn addressed(self, digests: Seq<u64>, j: int) -> bool {
        exists|n: int| 0 <= n < digests.len() && position(#[trigger] digests[n], self.size()) == j
    }

    /// The filter after the bit of each digest is set: those bits are set,
    /// and every other bit is as before.
    pub open spec fn set_all(self, digests: Seq<u64>) -> FilterView {
        FilterView {
            bits: Seq::new(self.bits.len(), |j: int| self.bits[j] || self.addressed(digests, j)),
            hash_functions: self.hash_functions,
        }
    }

    /// The bit of each digest is set.
    pub open spec fn all_set(self, digests: Seq<u64>) -> bool {
        forall|n: int|
            0 <= n < digests.len() ==> self.bits[position(#[trigger] digests[n], self.size())]
    }

    /// The bits of `item` in this filter, in seed order.
    pub open spec fn positions(self, item: Seq<char>) -> Seq<int> {
        Seq::new(
            self.hash_functions,
            |seed: int| position(digests(item, self.hash_functions)[seed], self.size()),
        )
    }

    /// The filter after `item` is inserted: every bit of `item` is set, and
    /// every other bit is as before.
    pub open spec fn insert(self, item: Seq<char>) -> FilterView {
        self.set_all(digests(item, self.hash_functions))
    }

    /// Every bit of `item` is set: the filter reports `item` as present.
    pub open spec fn contains(self, item: Seq<char>) -> bool {
        self.all_set(digests(item, self.hash_functions))
    }

    /// The filter after the items are inserted one after the other.
    pub open spec fn insert_all(self, items: Seq<Seq<char>>) -> FilterView
        decreases items.len(),
    {
        if items.len() == 0 {
            self
        } else {
            self.insert_all(items.drop_last()).insert(items.last())
        }
    }
}

/// The lines of a source that are text, in order. A line that could not be
/// read as text is `None` and is left out.
pub open spec fn readable(lines: Seq<Option<String>>) -> Seq<Seq<char>>
    decreases lines.len(),
{
    if lines.len() == 0 {
        Seq::empty()
    } else {
        match lines.last() {
            Some(line) => readable(lines.drop_last()).push(line@),
            None => readable(lines.drop_last()),
        }
    }
}

/// What a filter says of one word.
#[derive(Debug, Clone, Copy, PartialEq, Eq, Structural)]
pub enum Verdict {
    /// Every bit of the word is set: it was inserted, or other words set its
    /// bits.
    ProbablyPresent,
    /// A bit of the word is not set: it was never inserted.
    PossiblyAbsent,
}

impl Verdict {
    /// The verdict on a word that the filter does or does not contain.
    pub open spec fn of(present: bool) -> Verdict {
        if present {
            Verdict::ProbablyPresent
        } else {
            Verdict::PossiblyAbsent
        }
    }
}

} // verus!
