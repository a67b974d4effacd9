//! What holds of every filter and of every file, proved over the model that
//! the contracts of the filter's operations are stated in.

use crate::bit_store::max_bits;
use crate::bit_store::words_for;
use crate::digest::digest;
use crate::format::be16;
use crate::format::be32;
use crate::format::be_value;
use crate::format::decode;
use crate::format::encoding;
use crate::format::header;
use crate::format::lemma_be_round_trip;
use crate::format::magic;
use crate::format::pack;
use crate::format::packed_len;
use crate::format::parse;
use crate::format::lemma_stored_byte_bits;
use crate::format::payload;
use crate::format::payload_bit;
use crate::format::stored_bit;
use crate::format::stored_byte;
use crate::format::stored_len;
use crate::format::Header;
use crate::format::LoadError;
use crate::format::HEADER_LEN;
use crate::format::VERSION;
use crate::model::digests;
use crate::model::position;
use crate::model::readable;
use crate::model::FilterView;
use vstd::prelude::*;

verus! {

/// A digest addresses a bit inside the array, provided the array has one.
pub proof fn lemma_position_in_range(digest: u64, size: nat)
    requires
        size > 0,
    ensures
        0 <= position(digest, size) < size,
{
}

/// Determinism: the digests of an item depend on the item and on the number
/// of hash functions, and its positions on those and on the number of bits,
/// and on nothing else. Two filters that agree on the two numbers send every
/// item to the same bits, whatever either of them holds.
pub proof fn lemma_positions_deterministic(a: FilterView, b: FilterView, item: Seq<char>)
    requires
        a.size() == b.size(),
        a.hash_functions == b.hash_functions,
    ensures
        a.positions(item) == b.positions(item),
        a.positions(item).len() == a.hash_functions,
        forall|seed: int|
            0 <= seed < a.hash_functions ==> #[trigger] a.positions(item)[seed] == position(
                digest(seed as u64, item),
                a.size(),
            ),
        a.contains(item) <==> forall|seed: int|
            0 <= seed < a.hash_functions ==> a.bits[#[trigger] a.positions(item)[seed]],
        a.bits == b.bits ==> a.insert(item) == b.insert(item) && a.contains(item) == b.contains(
            item,
        ),
{
    let d = digests(item, a.hash_functions);
    if a.contains(item) {
        assert forall|seed: int| 0 <= seed < a.hash_functions implies a.bits[#[trigger] a.positions(
            item,
        )[seed]] by {
            assert(a.bits[position(d[seed], a.size())]);
        }
    }
    if forall|seed: int|
        0 <= seed < a.hash_functions ==> a.bits[#[trigger] a.positions(item)[seed]] {
        assert forall|n: int| 0 <= n < d.len() implies a.bits[position(
            #[trigger] d[n],
            a.size(),
        )] by {
            assert(a.bits[a.positions(item)[n]]);
        }
    }
}

/// Setting bits changes neither the number of bits nor the number of hash
/// functions, and clears no bit.
pub proof fn lemma_set_all_monotonic(filter: FilterView, digests: Seq<u64>)
    ensures
        filter.set_all(digests).size() == filter.size(),
        filter.set_all(digests).hash_functions == filter.hash_functions,
        forall|j: int|
            0 <= j < filter.size() && filter.bits[j] ==> #[trigger] filter.set_all(digests).bits[j],
{
}

/// After the bits of some digests are set, they are all set.
pub proof fn lemma_set_all_then_all_set(filter: FilterView, digests: Seq<u64>)
    requires
        filter.size() > 0 || digests.len() == 0,
    ensures
        filter.set_all(digests).all_set(digests),
{
    let after = filter.set_all(digests);
    assert forall|n: int| 0 <= n < digests.len() implies after.bits[position(
        #[trigger] digests[n],
        after.size(),
    )] by {
        assert(filter.addressed(digests, position(digests[n], filter.size())));
    }
}

/// Setting the bits of one group of digests leaves the bits of another set,
/// if they were.
pub proof fn lemma_set_all_keeps_all_set(filter: FilterView, held: Seq<u64>, digests: Seq<u64>)
    requires
        filter.size() > 0 || held.len() == 0,
        filter.all_set(held),
    ensures
        filter.set_all(digests).all_set(held),
{
    let after = filter.set_all(digests);
    assert forall|n: int| 0 <= n < held.len() implies after.bits[position(
        #[trigger] held[n],
        after.size(),
    )] by {
        assert(filter.bits[position(held[n], filter.size())]);
    }
}

/// Setting bits that are all set changes nothing.
pub proof fn lemma_set_all_of_set_is_noop(filter: FilterView, digests: Seq<u64>)
    requires
        filter.all_set(digests),
    ensures
        filter.set_all(digests) == filter,
{
    let after = filter.set_all(digests);
    assert forall|j: int| 0 <= j < filter.size() implies after.bits[j] == filter.bits[j] by {
        if filter.addressed(digests, j) {
            let n = choose|n: int|
                0 <= n < digests.len() && position(#[trigger] digests[n], filter.size()) == j;
            assert(filter.bits[position(digests[n], filter.size())]);
        }
    }
    assert(after.bits =~= filter.bits);
}

/// Insertion changes neither the number of bits nor the number of hash
/// functions.
pub proof fn lemma_insert_keeps_shape(filter: FilterView, item: Seq<char>)
    ensures
        filter.insert(item).size() == filter.size(),
        filter.insert(item).hash_functions == filter.hash_functions,
{
}

/// Monotonic bits: a bit that is set stays set when an item is inserted.
pub proof fn lemma_insert_monotonic(filter: FilterView, item: Seq<char>, j: int)
    requires
        0 <= j < filter.size(),
        filter.bits[j],
    ensures
        filter.insert(item).bits[j],
{
}

/// Any sequence of insertions leaves the shape of the filter as it was.
pub proof fn lemma_insert_all_keeps_shape(filter: FilterView, items: Seq<Seq<char>>)
    ensures
        filter.insert_all(items).size() == filter.size(),
        filter.insert_all(items).hash_functions == filter.hash_functions,
    decreases items.len(),
{
    if items.len() > 0 {
        lemma_insert_all_keeps_shape(filter, items.drop_last());
    }
}

/// Monotonic bits: a bit that is set stays set through any sequence of
/// insertions.
pub proof fn lemma_insert_all_monotonic(filter: FilterView, items: Seq<Seq<char>>, j: int)
    requires
        0 <= j < filter.size(),
        filter.bits[j],
    ensures
        filter.insert_all(items).bits[j],
    decreases items.len(),
{
    if items.len() > 0 {
        lemma_insert_all_monotonic(filter, items.drop_last(), j);
        lemma_insert_all_keeps_shape(filter, items.drop_last());
    }
}

/// An item that was just inserted is present.
pub proof fn lemma_inserted_is_present(filter: FilterView, item: Seq<char>)
    requires
        filter.size() > 0 || filter.hash_functions == 0,
    ensures
        filter.insert(item).contains(item),
{
    lemma_set_all_then_all_set(filter, digests(item, filter.hash_functions));
}

/// An item that is present stays present when another is inserted.
pub proof fn lemma_insert_keeps_present(filter: FilterView, present: Seq<char>, item: Seq<char>)
    requires
        filter.size() > 0 || filter.hash_functions == 0,
        filter.contains(present),
    ensures
        filter.insert(item).contains(present),
{
    lemma_set_all_keeps_all_set(
        filter,
        digests(present, filter.hash_functions),
        digests(item, filter.hash_functions),
    );
}

/// No false negatives: after any sequence of insertions into a filter that
/// has a bit, each of the items inserted is present.
pub proof fn lemma_no_false_negatives(filter: FilterView, items: Seq<Seq<char>>, n: int)
    requires
        filter.size() > 0 || filter.hash_functions == 0,
        0 <= n < items.len(),
    ensures
        filter.insert_all(items).contains(items[n]),
    decreases items.len(),
{
    let earlier = filter.insert_all(items.drop_last());
    lemma_insert_all_keeps_shape(filter, items.drop_last());
    if n == items.len() - 1 {
        lemma_inserted_is_present(earlier, items.last());
    } else {
        lemma_no_false_negatives(filter, items.drop_last(), n);
        lemma_insert_keeps_present(earlier, items[n], items.last());
    }
}

/// An item that is present before a sequence of insertions is present after
/// it.
pub proof fn lemma_insert_all_keeps_present(
    filter: FilterView,
    present: Seq<char>,
    items: Seq<Seq<char>>,
)
    requires
        filter.size() > 0 || filter.hash_functions == 0,
        filter.contains(present),
    ensures
        filter.insert_all(items).contains(present),
    decreases items.len(),
{
    if items.len() > 0 {
        lemma_insert_all_keeps_present(filter, present, items.drop_last());
        lemma_insert_all_keeps_shape(filter, items.drop_last());
        lemma_insert_keeps_present(filter.insert_all(items.drop_last()), present, items.last());
    }
}

/// Inserting an item whose bits are all set changes nothing.
pub proof fn lemma_insert_present_is_noop(filter: FilterView, item: Seq<char>)
    requires
        filter.contains(item),
    ensures
        filter.insert(item) == filter,
{
    lemma_set_all_of_set_is_noop(filter, digests(item, filter.hash_functions));
}

/// Inserting an item a second time changes nothing.
pub proof fn lemma_insert_idempotent(filter: FilterView, item: Seq<char>)
    requires
        filter.size() > 0 || filter.hash_functions == 0,
    ensures
        filter.insert(item).insert(item) == filter.insert(item),
{
    lemma_inserted_is_present(filter, item);
    lemma_insert_present_is_noop(filter.insert(item), item);
}

/// Inserting an item that was inserted at any earlier time changes nothing.
pub proof fn lemma_reinsert_is_noop(filter: FilterView, items: Seq<Seq<char>>, n: int)
    requires
        filter.size() > 0 || filter.hash_functions == 0,
        0 <= n < items.len(),
    ensures
        filter.insert_all(items).insert(items[n]) == filter.insert_all(items),
{
    lemma_no_false_negatives(filter, items, n);
    lemma_insert_present_is_noop(filter.insert_all(items), items[n]);
}

/// A filter with a bit and a hash function is no longer empty once an item
/// is inserted.
pub proof fn lemma_insert_populates(filter: FilterView, item: Seq<char>)
    requires
        filter.size() > 0,
        filter.hash_functions > 0,
    ensures
        !filter.insert(item).is_empty(),
{
    let d = digests(item, filter.hash_functions);
    let j = position(d[0], filter.size());
    assert(filter.addressed(d, j));
    assert(filter.insert(item).bits[j]);
}

/// A new filter is empty, and reports no item as present when it has a bit
/// and a hash function.
pub proof fn lemma_empty_contains_nothing(size: nat, hash_functions: nat, item: Seq<char>)
    requires
        size > 0,
        hash_functions > 0,
    ensures
        FilterView::empty(size, hash_functions).is_empty(),
        !FilterView::empty(size, hash_functions).contains(item),
{
    let filter = FilterView::empty(size, hash_functions);
    let d = digests(item, hash_functions);
    assert(!filter.bits[position(d[0], filter.size())]);
}

/// A line that is text is among the readable lines.
pub proof fn lemma_readable_line(lines: Seq<Option<String>>, n: int)
    requires
        0 <= n < lines.len(),
        lines[n] is Some,
    ensures
        readable(lines).contains(lines[n].unwrap()@),
    decreases lines.len(),
{
    let earlier = readable(lines.drop_last());
    if n == lines.len() - 1 {
        assert(earlier.push(lines[n].unwrap()@).last() == lines[n].unwrap()@);
    } else {
        lemma_readable_line(lines.drop_last(), n);
        let at = choose|at: int| 0 <= at < earlier.len() && earlier[at] == lines[n].unwrap()@;
        if let Some(line) = lines.last() {
            assert(earlier.push(line@)[at] == lines[n].unwrap()@);
        }
    }
}

/// Whole words hold at least as many bytes as the bits need.
pub proof fn lemma_packed_fits_stored(size: nat)
    ensures
        packed_len(size) <= stored_len(size),
{
    if usize::BITS == 32 {
        assert(stored_len(size) == words_for(size) * 4);
    } else {
        assert(stored_len(size) == words_for(size) * 8);
    }
}

/// Bit `i` of the bits in the file of a filter is the filter's bit `i`, and
/// false from the filter's last bit to the end of the file.
pub proof fn lemma_encoding_bits(filter: FilterView, i: int)
    requires
        0 <= i < 8 * stored_len(filter.size()),
    ensures
        payload_bit(encoding(filter), i) == stored_bit(filter.bits, i),
{
    let file = encoding(filter);
    let head = header(filter.hash_functions, filter.size());
    assert(head.len() == HEADER_LEN);
    assert(file[HEADER_LEN + i / 8] == payload(filter.bits)[i / 8]);
    lemma_stored_byte_bits(filter.bits, i / 8, (i % 8) as u8);
}

/// The file of a filter is its header, then whole words: at least as many
/// bytes as its bits need.
pub proof fn lemma_encoding_shape(filter: FilterView)
    ensures
        encoding(filter).len() == HEADER_LEN + stored_len(filter.size()),
        encoding(filter).subrange(0, HEADER_LEN as int) == header(
            filter.hash_functions,
            filter.size(),
        ),
        encoding(filter).len() >= HEADER_LEN + packed_len(filter.size()),
{
    let head = header(filter.hash_functions, filter.size());
    assert(head.len() == HEADER_LEN);
    assert(encoding(filter).subrange(0, HEADER_LEN as int) =~= head);
    lemma_packed_fits_stored(filter.size());
}

/// In the file of a filter with no bit set, every byte after the header is
/// zero.
pub proof fn lemma_empty_filter_file(filter: FilterView, j: int)
    requires
        filter.is_empty(),
        HEADER_LEN <= j < encoding(filter).len(),
    ensures
        encoding(filter)[j] == 0,
{
    let head = header(filter.hash_functions, filter.size());
    assert(head.len() == HEADER_LEN);
    assert(encoding(filter)[j] == stored_byte(filter.bits, j - HEADER_LEN));
    assert(pack(false, false, false, false, false, false, false, false) == 0) by (bit_vector);
}

/// Round trip: the file of a filter decodes to that filter, bit for bit and
/// number for number, so the two answer every query alike. The filter's two
/// numbers must fit the header's fields, and its bits one array.
pub proof fn lemma_round_trip(filter: FilterView)
    requires
        filter.size() <= max_bits(),
        filter.size() <= u32::MAX,
        filter.hash_functions <= u16::MAX,
    ensures
        decode(encoding(filter)) == Ok::<FilterView, LoadError>(filter),
        forall|item: Seq<char>|
            decode(encoding(filter)).unwrap().contains(item) == #[trigger] filter.contains(item),
{
    let file = encoding(filter);
    let k = filter.hash_functions as u16;
    let size = filter.size() as u32;
    let head = header(filter.hash_functions, filter.size());
    let front = file.subrange(0, HEADER_LEN as int);
    lemma_encoding_shape(filter);
    assert(front == head);
    assert(file.subrange(0, 4) =~= front.subrange(0, 4));
    assert(file.subrange(4, 6) =~= front.subrange(4, 6));
    assert(file.subrange(6, 8) =~= front.subrange(6, 8));
    assert(file.subrange(8, 12) =~= front.subrange(8, 12));
    assert(head.subrange(0, 4) =~= magic());
    assert(head.subrange(4, 6) =~= be16(VERSION));
    assert(head.subrange(6, 8) =~= be16(k));
    assert(head.subrange(8, 12) =~= be32(size));
    lemma_be_round_trip(VERSION, size);
    lemma_be_round_trip(k, size);
    assert(parse(file) == Ok::<Header, LoadError>(Header { hash_functions: k, size }));
    assert forall|i: int| 0 <= i < filter.size() implies payload_bit(file, i) == filter.bits[i] by {
        lemma_encoding_bits(filter, i);
    }
    assert(decode(file).unwrap().bits =~= filter.bits);
}

/// What `decode` refuses, and with which error: a file too short for a
/// header is truncated; a file with a whole header is refused for its tag
/// first, then for its version, then for ending before the bits it declares
/// do, and last, when it is whole, for declaring more bits than one array can
/// hold.
pub proof fn lemma_format_rejection(file: Seq<u8>)
    ensures
        file.len() < HEADER_LEN ==> decode(file) == Err::<FilterView, _>(LoadError::Truncated),
        file.len() >= HEADER_LEN && file.subrange(0, 4) != magic() ==> decode(file) == Err::<
            FilterView,
            _,
        >(LoadError::InvalidHeader),
        file.len() >= HEADER_LEN && file.subrange(0, 4) == magic() && be_value(
            file.subrange(4, 6),
        ) != 1 ==> decode(file) == Err::<FilterView, _>(LoadError::UnsupportedVersion),
        parse(file) matches Ok(h) && file.len() < HEADER_LEN + packed_len(h.size as nat)
            ==> decode(file) == Err::<FilterView, _>(LoadError::Truncated),
        parse(file) matches Ok(h) && file.len() >= HEADER_LEN + packed_len(h.size as nat) && h.size
            > max_bits() ==> decode(file) == Err::<FilterView, _>(LoadError::TooLarge),
        parse(file) matches Ok(h) && file.len() >= HEADER_LEN + packed_len(h.size as nat) && h.size
            <= max_bits() ==> decode(file) is Ok,
{
}

/// A proper prefix of the file of a filter is truncated: it ends before the
/// header does, or before the bits that the header declares.
pub proof fn lemma_prefix_is_truncated(file: Seq<u8>, len: int)
    requires
        parse(file) matches Ok(h) && 0 <= len < HEADER_LEN + packed_len(h.size as nat) && len
            <= file.len(),
    ensures
        decode(file.take(len)) == Err::<FilterView, _>(LoadError::Truncated),
{
    let prefix = file.take(len);
    if len >= HEADER_LEN {
        assert(prefix.subrange(0, 4) =~= file.subrange(0, 4));
        assert(prefix.subrange(4, 6) =~= file.subrange(4, 6));
        assert(prefix.subrange(6, 8) =~= file.subrange(6, 8));
        assert(prefix.subrange(8, 12) =~= file.subrange(8, 12));
        assert(parse(prefix) == parse(file));
    }
}

} // verus!
