//! The filter itself: construction, insertion, membership queries, and the
//! way to and from a file.

use crate::bit_store::bits_of;
use crate::bit_store::get_bit;
use crate::bit_store::max_bits;
use crate::bit_store::raw_words;
use crate::bit_store::set_bit;
use crate::bit_store::word_bit;
use crate::bit_store::words_for;
use crate::bit_store::zeroed;
use crate::bit_store::BitArray;
use crate::digest::seeded_digest;
use crate::format::byte_bit;
use crate::format::decode;
use crate::format::clear_above;
use crate::format::encoding;
use crate::format::header;
use crate::format::header_bytes;
use crate::format::lemma_last_word;
use crate::format::lemma_le_bytes_bits;
use crate::format::lemma_stored_byte_unique;
use crate::format::stored_bit;
use crate::format::parse_header;
use crate::format::payload_bit;
use crate::format::push_word;
use crate::format::LoadError;
use crate::laws::lemma_inserted_is_present;
use crate::laws::lemma_insert_keeps_present;
use crate::laws::lemma_readable_line;
use crate::laws::lemma_round_trip;
use crate::format::HEADER_LEN;
use crate::model::digests;
use crate::model::position;
use crate::model::readable;
use crate::model::FilterView;
use crate::model::Verdict;
use vstd::prelude::*;

verus! {

/// A bloom filter: a fixed array of bits, and the number of hash functions
/// that send an item to its bits.
pub struct BloomFilter {
    bit_array: BitArray,
    size: usize,
    hash_functions: usize,
}

impl View for BloomFilter {
    type V = FilterView;

    closed spec fn view(&self) -> FilterView {
        FilterView { bits: bits_of(self.bit_array), hash_functions: self.hash_functions as nat }
    }
}

impl BloomFilter {
    #[verifier::type_invariant]
    spec fn well_formed(self) -> bool {
        &&& bits_of(self.bit_array).len() == self.size
        &&& self.size <= max_bits()
    }

    /// A filter of `size` bits, none of them set, addressed by
    /// `hash_functions` hash functions.
    pub fn new(size: usize, hash_functions: usize) -> (filter: BloomFilter)
        requires
            size <= max_bits(),
        ensures
            filter@ == FilterView::empty(size as nat, hash_functions as nat),
    {
        BloomFilter { bit_array: zeroed(size), size, hash_functions }
    }

    /// The number of addressable bits.
    pub fn size(&self) -> (size: usize)
        ensures
            size == self@.size(),
            size <= max_bits(),
    {
        proof {
            use_type_invariant(self);
        }
        self.size
    }

    /// The number of hash functions.
    pub fn hash_functions(&self) -> (hash_functions: usize)
        ensures
            hash_functions == self@.hash_functions,
    {
        self.hash_functions
    }

    /// The digests of `item`, one for each hash function, in seed order.
    pub fn hash(&self, item: &str) -> (hashes: Vec<u64>)
        ensures
            hashes@ == digests(item@, self@.hash_functions),
    {
        let mut hashes: Vec<u64> = Vec::new();
        let mut seed: usize = 0;
        while seed < self.hash_functions
            invariant
                seed <= self.hash_functions,
                hashes@ == digests(item@, seed as nat),
            decreases self.hash_functions - seed,
        {
            hashes.push(seeded_digest(seed as u64, item));
            seed += 1;
        }
        hashes
    }

    /// Sets the bit that each of the digests addresses.
    pub fn insert_digests(&mut self, hashes: &[u64])
        requires
            old(self)@.size() > 0 || hashes@.len() == 0,
        ensures
            final(self)@ == old(self)@.set_all(hashes@),
    {
        proof {
            use_type_invariant(&*self);
        }
        let ghost before = self@;
        let mut n: usize = 0;
        while n < hashes.len()
            invariant
                n <= hashes.len(),
                self.hash_functions == before.hash_functions,
                self.size > 0 || hashes@.len() == 0,
                self.size == before.bits.len(),
                bits_of(self.bit_array).len() == self.size,
                self.size <= max_bits(),
                forall|j: int|
                    0 <= j < self.size ==> #[trigger] bits_of(self.bit_array)[j] == (before.bits[j]
                        || before.addressed(hashes@.take(n as int), j)),
            decreases hashes.len() - n,
        {
            let index = (hashes[n] % (self.size as u64)) as usize;
            let ghost now = hashes@.take(n + 1);
            set_bit(&mut self.bit_array, index, true);
            assert forall|j: int| 0 <= j < self.size implies #[trigger] bits_of(self.bit_array)[j]
                == (before.bits[j] || before.addressed(now, j)) by {
                assert(position(now[n as int], before.size()) == index);
            }
            n += 1;
        }
        assert(hashes@.take(n as int) =~= hashes@);
        assert(self@.bits =~= before.set_all(hashes@).bits);
    }

    /// Whether the bit that each of the digests addresses is set.
    pub fn query_digests(&self, hashes: &[u64]) -> (present: bool)
        requires
            self@.size() > 0 || hashes@.len() == 0,
        ensures
            present == self@.all_set(hashes@),
    {
        proof {
            use_type_invariant(self);
        }
        let mut n: usize = 0;
        while n < hashes.len()
            invariant
                n <= hashes.len(),
                self.size > 0 || hashes@.len() == 0,
                bits_of(self.bit_array).len() == self.size,
                forall|m: int|
                    0 <= m < n ==> self@.bits[position(#[trigger] hashes@[m], self@.size())],
            decreases hashes.len() - n,
        {
            let index = (hashes[n] % (self.size as u64)) as usize;
            if !get_bit(&self.bit_array, index) {
                return false;
            }
            n += 1;
        }
        true
    }

    /// Sets every bit of `item` and clears none. Afterwards the filter reports
    /// the item, and every item it reported before, as present.
    pub fn insert(&mut self, item: &str)
        requires
            old(self)@.size() > 0 || old(self)@.hash_functions == 0,
        ensures
            final(self)@ == old(self)@.insert(item@),
            final(self)@.size() == old(self)@.size(),
            final(self)@.hash_functions == old(self)@.hash_functions,
            forall|j: int|
                0 <= j < old(self)@.size() && old(self)@.bits[j]
                    ==> #[trigger] final(self)@.bits[j],
            final(self)@.contains(item@),
            forall|other: Seq<char>|
                old(self)@.contains(other) ==> #[trigger] final(self)@.contains(other),
    {
        let hashes = self.hash(item);
        self.insert_digests(hashes.as_slice());
        proof {
            lemma_inserted_is_present(old(self)@, item@);
            assert forall|other: Seq<char>|
                old(self)@.contains(other) implies #[trigger] self@.contains(other) by {
                lemma_insert_keeps_present(old(self)@, other, item@);
            }
        }
    }

    /// Whether every bit of `item` is set. An item that was inserted is always
    /// reported as present; one that was not may be reported as present too.
    pub fn query(&self, item: &str) -> (present: bool)
        requires
            self@.size() > 0 || self@.hash_functions == 0,
        ensures
            present == self@.contains(item@),
    {
        let hashes = self.hash(item);
        self.query_digests(hashes.as_slice())
    }

    /// The file of this filter: the header, then the words that store the
    /// bits, each written lowest byte first, with every bit past the last bit
    /// of the filter cleared. The file decodes to this filter again, provided
    /// the filter's two numbers fit the fields of the header, which are 32
    /// and 16 bits wide.
    pub fn save_to_file(&self) -> (file: Vec<u8>)
        ensures
            file@ == encoding(self@),
            self@.size() <= u32::MAX && self@.hash_functions <= u16::MAX ==> decode(file@) == Ok::<
                FilterView,
                LoadError,
            >(self@),
    {
        proof {
            use_type_invariant(self);
        }
        let mut file = header_bytes(self.hash_functions, self.size);
        let words = raw_words(&self.bit_array);
        let live = self.size % (usize::BITS as usize);
        let ghost bits = bits_of(self.bit_array);
        let ghost head = header(self.hash_functions as nat, self.size as nat);
        let ghost width = usize::BITS as int / 8;
        let mut n: usize = 0;
        while n < words.len()
            invariant
                n <= words.len(),
                width == usize::BITS as int / 8,
                width == 4 || width == 8,
                bits == bits_of(self.bit_array),
                bits.len() == self.size,
                live == self.size % (usize::BITS as usize),
                words@.len() == words_for(bits.len()),
                forall|i: int|
                    0 <= i < bits.len() ==> #[trigger] bits[i] == word_bit(
                        words@[i / (usize::BITS as int)],
                        (i % (usize::BITS as int)) as usize,
                    ),
                file@.len() == HEADER_LEN + n * width,
                file@.subrange(0, HEADER_LEN as int) == head,
                forall|j: int, b: u8|
                    HEADER_LEN <= j < file@.len() && b < 8 ==> #[trigger] byte_bit(file@[j], b)
                        == stored_bit(bits, 8 * (j - HEADER_LEN) + b),
            decreases words.len() - n,
        {
            let ghost before = file@;
            let last = live != 0 && n + 1 == words.len();
            let word = if last {
                clear_above(words[n], live)
            } else {
                words[n]
            };
            push_word(&mut file, word);
            proof {
                assert(file@.subrange(0, HEADER_LEN as int) =~= before.subrange(
                    0,
                    HEADER_LEN as int,
                ));
                assert forall|j: int, b: u8|
                    HEADER_LEN <= j < file@.len() && b < 8 implies #[trigger] byte_bit(file@[j], b)
                    == stored_bit(bits, 8 * (j - HEADER_LEN) + b) by {
                    if j >= before.len() {
                        let k = j - before.len();
                        let t = (8 * k + b) as usize;
                        let i = 8 * (j - HEADER_LEN) + b;
                        lemma_le_bytes_bits(word, k, b);
                        lemma_last_word(bits.len(), n as int);
                        assert(i == n * (usize::BITS as int) + t);
                        assert(i / (usize::BITS as int) == n && i % (usize::BITS as int) == t);
                        if last {
                            assert(bits.len() == n * (usize::BITS as int) + live);
                            assert(word_bit(word, t) == (t < live && word_bit(
                                words@[n as int],
                                t,
                            )));
                        } else {
                            assert(i < bits.len());
                        }
                        if i < bits.len() {
                            assert(bits[i] == word_bit(words@[n as int], t));
                        }
                    }
                }
            }
            n += 1;
        }
        proof {
            let whole = encoding(self@);
            assert(file@.len() == whole.len());
            assert forall|j: int| 0 <= j < file@.len() implies file@[j] == whole[j] by {
                if j < HEADER_LEN {
                    assert(file@[j] == file@.subrange(0, HEADER_LEN as int)[j]);
                } else {
                    lemma_stored_byte_unique(bits, j - HEADER_LEN, file@[j]);
                }
            }
            assert(file@ =~= whole);
            if self@.size() <= u32::MAX && self@.hash_functions <= u16::MAX {
                lemma_round_trip(self@);
            }
        }
        file
    }

    /// The filter that a file holds. The header is checked first, tag before
    /// version; then the length of the file is held against the number of
    /// bits it declares, and that number against what this machine can
    /// address.
    pub fn load_from_file(file: &[u8]) -> (loaded: Result<BloomFilter, LoadError>)
        ensures
            loaded matches Ok(filter) ==> decode(file@) == Ok::<FilterView, LoadError>(filter@),
            loaded matches Err(e) ==> decode(file@) == Err::<FilterView, LoadError>(e),
    {
        let parsed = match parse_header(file) {
            Ok(parsed) => parsed,
            Err(e) => {
                return Err(e);
            },
        };
        let size = parsed.size as usize;
        let byte_size = if size % 8 != 0 {
            size / 8 + 1
        } else {
            size / 8
        };
        if file.len() - HEADER_LEN < byte_size {
            return Err(LoadError::Truncated);
        }
        if size > usize::MAX / 8 {
            return Err(LoadError::TooLarge);
        }
        let mut bit_array = zeroed(size);
        let mut index: usize = 0;
        while index < byte_size
            invariant
                index <= byte_size,
                byte_size == (size + 7) / 8,
                size <= usize::MAX / 8,
                HEADER_LEN + byte_size <= file@.len(),
                bits_of(bit_array).len() == size,
                forall|i: int|
                    0 <= i < size && i < index * 8 ==> #[trigger] bits_of(bit_array)[i]
                        == payload_bit(file@, i),
            decreases byte_size - index,
        {
            let byte = file[HEADER_LEN + index];
            let mut bit_index: u8 = 0;
            while bit_index < 8
                invariant
                    bit_index <= 8,
                    index < byte_size,
                    byte_size == (size + 7) / 8,
                    size <= usize::MAX / 8,
                    HEADER_LEN + byte_size <= file@.len(),
                    byte == file@[HEADER_LEN + index],
                    bits_of(bit_array).len() == size,
                    forall|i: int|
                        0 <= i < size && i < index * 8 + bit_index ==> #[trigger] bits_of(
                            bit_array,
                        )[i] == payload_bit(file@, i),
                decreases 8 - bit_index,
            {
                let position = index * 8 + bit_index as usize;
                if position < size {
                    let bit = byte & (1u8 << bit_index) != 0;
                    set_bit(&mut bit_array, position, bit);
                }
                bit_index += 1;
            }
            index += 1;
        }
        let hash_functions = parsed.hash_functions as usize;
        let filter = BloomFilter { bit_array, size, hash_functions };
        assert(filter@.bits =~= Seq::new(size as nat, |i: int| payload_bit(file@, i)));
        Ok(filter)
    }

    /// Inserts every line of a source that is text, skips every line that is
    /// not, and returns the file of the filter that results.
    pub fn build_from_file(&mut self, lines: &[Option<String>]) -> (file: Vec<u8>)
        requires
            old(self)@.size() > 0 || old(self)@.hash_functions == 0 || readable(lines@).len() == 0,
        ensures
            final(self)@ == old(self)@.insert_all(readable(lines@)),
            file@ == encoding(final(self)@),
            final(self)@.size() <= u32::MAX && final(self)@.hash_functions <= u16::MAX ==> decode(
                file@,
            ) == Ok::<FilterView, LoadError>(final(self)@),
    {
        let mut n: usize = 0;
        while n < lines.len()
            invariant
                n <= lines.len(),
                self@.size() > 0 || self@.hash_functions == 0 || readable(lines@).len() == 0,
                self@ == old(self)@.insert_all(readable(lines@.take(n as int))),
            decreases lines.len() - n,
        {
            proof {
                let earlier = readable(lines@.take(n as int));
                assert(lines@.take(n + 1).drop_last() =~= lines@.take(n as int));
                if let Some(line) = lines@[n as int] {
                    assert(earlier.push(line@).drop_last() =~= earlier);
                    lemma_readable_line(lines@, n as int);
                }
            }
            if let Some(word) = &lines[n] {
                self.insert(word.as_str());
            }
            n += 1;
        }
        proof {
            assert(lines@.take(n as int) =~= lines@);
        }
        self.save_to_file()
    }

    /// The verdict on each word, in the order of the words.
    pub fn check_words(&self, words: &[&str]) -> (verdicts: Vec<Verdict>)
        requires
            self@.size() > 0 || self@.hash_functions == 0 || words@.len() == 0,
        ensures
            verdicts@.len() == words@.len(),
            forall|n: int|
                0 <= n < words@.len() ==> #[trigger] verdicts@[n] == Verdict::of(
                    self@.contains(words@[n]@),
                ),
    {
        let mut verdicts: Vec<Verdict> = Vec::new();
        let mut n: usize = 0;
        while n < words.len()
            invariant
                n <= words.len(),
                self@.size() > 0 || self@.hash_functions == 0 || words@.len() == 0,
                verdicts@.len() == n,
                forall|m: int|
                    0 <= m < n ==> #[trigger] verdicts@[m] == Verdict::of(
                        self@.contains(words@[m]@),
                    ),
            decreases words.len() - n,
        {
            if self.query(words[n]) {
                verdicts.push(Verdict::ProbablyPresent);
            } else {
                verdicts.push(Verdict::PossiblyAbsent);
            }
            n += 1;
        }
        verdicts
    }
}

} // verus!
