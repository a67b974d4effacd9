//! The file format: a twelve-byte header, then the bits, eight to a byte.
//!
//! | offset | bytes | field                                  |
//! |--------|-------|----------------------------------------|
//! | 0      | 4     | the tag `CCBF`                         |
//! | 4      | 2     | version, big-endian, always 1          |
//! | 6      | 2     | number of hash functions, big-endian   |
//! | 8      | 4     | number of bits, big-endian             |
//! | 12     |       | the bits: bit `b` of byte `k` is bit `8k + b` of the filter |
//!
//! The bits are written as whole machine words, lowest byte first, so a file
//! may end in padding: bits past the last bit of the filter, which are
//! written as zero and which a reader ignores.

use crate::bit_store::max_bits;
use crate::bit_store::word_bit;
use crate::bit_store::words_for;
use crate::model::FilterView;
use vstd::prelude::*;

verus! {

/// The length of the header, in bytes.
pub const HEADER_LEN: usize = 12;

/// The one version of the format that exists.
pub const VERSION: u16 = 1;

/// Why a file is not a filter.
#[derive(Debug, Clone, Copy, PartialEq, Eq, Structural)]
pub enum LoadError {
    /// The file ends before its header or before the last of its bits.
    Truncated,
    /// The file does not begin with the tag.
    InvalidHeader,
    /// The file is of a version other than 1.
    UnsupportedVersion,
    /// The file declares more bits than one array can address on this machine.
    TooLarge,
}

impl LoadError {
    /// The text that names the error.
    pub open spec fn text(self) -> Seq<char> {
        match self {
            LoadError::Truncated => "failed to fill whole buffer"@,
            LoadError::InvalidHeader => "Invalid Header"@,
            LoadError::UnsupportedVersion => "Unsupported Version"@,
            LoadError::TooLarge => "bit-vector capacity exceeded"@,
        }
    }

    /// The text that names the error.
    pub fn message(&self) -> (message: &'static str)
        ensures
            message@ == self.text(),
    {
        match self {
            LoadError::Truncated => "failed to fill whole buffer",
            LoadError::InvalidHeader => "Invalid Header",
            LoadError::UnsupportedVersion => "Unsupported Version",
            LoadError::TooLarge => "bit-vector capacity exceeded",
        }
    }
}

/// The fields of a header that passed its checks.
#[derive(Debug, Clone, Copy, PartialEq, Eq, Structural)]
pub struct Header {
    pub hash_functions: u16,
    pub size: u32,
}

/// The tag that opens every file: `CCBF` in ASCII.
pub open spec fn magic() -> Seq<u8> {
    seq![0x43u8, 0x43u8, 0x42u8, 0x46u8]
}

/// The two bytes of `value`, highest first.
pub open spec fn be16(value: u16) -> Seq<u8> {
    seq![(value / 0x100) as u8, (value % 0x100) as u8]
}

/// The four bytes of `value`, highest first.
pub open spec fn be32(value: u32) -> Seq<u8> {
    seq![
        (value / 0x100_0000) as u8,
        (value / 0x1_0000 % 0x100) as u8,
        (value / 0x100 % 0x100) as u8,
        (value % 0x100) as u8,
    ]
}

/// The number that big-endian bytes stand for.
pub open spec fn be_value(bytes: Seq<u8>) -> nat
    decreases bytes.len(),
{
    if bytes.len() == 0 {
        0
    } else {
        be_value(bytes.drop_last()) * 0x100 + bytes.last() as nat
    }
}

/// The header of a filter of `size` bits and `hash_functions` hash functions.
/// A number too wide for its field loses its upper part.
pub open spec fn header(hash_functions: nat, size: nat) -> Seq<u8> {
    magic() + be16(VERSION) + be16((hash_functions % 0x1_0000) as u16) + be32(
        (size % 0x1_0000_0000) as u32,
    )
}

/// Bit `b` of a byte, counted from the lowest.
pub open spec fn byte_bit(byte: u8, b: u8) -> bool {
    byte & (1u8 << b) != 0
}

/// Bit `i` of the bits that follow the header of `file`.
pub open spec fn payload_bit(file: Seq<u8>, i: int) -> bool {
    byte_bit(file[HEADER_LEN as int + i / 8], (i % 8) as u8)
}

/// The number of bytes that hold `size` bits, eight to a byte.
pub open spec fn packed_len(size: nat) -> nat {
    (size + 7) / 8
}

/// The number of bytes that hold `size` bits when they are written as whole
/// machine words.
pub open spec fn stored_len(size: nat) -> nat {
    words_for(size) * (usize::BITS as nat / 8)
}

/// Bit `i` of the words that store `bits`: the bit itself, and false past
/// the last of them.
pub open spec fn stored_bit(bits: Seq<bool>, i: int) -> bool {
    0 <= i < bits.len() && bits[i]
}

/// The byte whose bits are the eight given, the lowest first.
pub open spec fn pack(
    b0: bool,
    b1: bool,
    b2: bool,
    b3: bool,
    b4: bool,
    b5: bool,
    b6: bool,
    b7: bool,
) -> u8 {
    (if b0 { 0x01u8 } else { 0u8 })
        | (if b1 { 0x02u8 } else { 0u8 })
        | (if b2 { 0x04u8 } else { 0u8 })
        | (if b3 { 0x08u8 } else { 0u8 })
        | (if b4 { 0x10u8 } else { 0u8 })
        | (if b5 { 0x20u8 } else { 0u8 })
        | (if b6 { 0x40u8 } else { 0u8 })
        | (if b7 { 0x80u8 } else { 0u8 })
}

/// Byte `k` of the words that store `bits`: its bit `b` is stored bit
/// `8k + b`.
pub open spec fn stored_byte(bits: Seq<bool>, k: int) -> u8 {
    pack(
        stored_bit(bits, 8 * k),
        stored_bit(bits, 8 * k + 1),
        stored_bit(bits, 8 * k + 2),
        stored_bit(bits, 8 * k + 3),
        stored_bit(bits, 8 * k + 4),
        stored_bit(bits, 8 * k + 5),
        stored_bit(bits, 8 * k + 6),
        stored_bit(bits, 8 * k + 7),
    )
}

/// The bytes of the words that store `bits`.
pub open spec fn payload(bits: Seq<bool>) -> Seq<u8> {
    Seq::new(stored_len(bits.len()), |k: int| stored_byte(bits, k))
}

/// The file of a filter: its header, then its bits in whole words, with
/// zero for every bit past the last.
pub open spec fn encoding(filter: FilterView) -> Seq<u8> {
    header(filter.hash_functions, filter.size()) + payload(filter.bits)
}

/// What the first twelve bytes of `file` say, or why they are no header.
pub open spec fn parse(file: Seq<u8>) -> Result<Header, LoadError> {
    if file.len() < HEADER_LEN {
        Err(LoadError::Truncated)
    } else if file.subrange(0, 4) != magic() {
        Err(LoadError::InvalidHeader)
    } else if be_value(file.subrange(4, 6)) != VERSION {
        Err(LoadError::UnsupportedVersion)
    } else {
        Ok(
            Header {
                hash_functions: be_value(file.subrange(6, 8)) as u16,
                size: be_value(file.subrange(8, 12)) as u32,
            },
        )
    }
}

/// The filter that `file` holds, or why it holds none. A file that ends
/// before the last of the bits it declares is truncated, however many it
/// declares; a whole file is too large if this machine cannot address its
/// bits. Bytes that follow the last of the bits are ignored.
pub open spec fn decode(file: Seq<u8>) -> Result<FilterView, LoadError> {
    match parse(file) {
        Err(e) => Err(e),
        Ok(h) => if file.len() < HEADER_LEN + packed_len(h.size as nat) {
            Err(LoadError::Truncated)
        } else if h.size > max_bits() {
            Err(LoadError::TooLarge)
        } else {
            Ok(
                FilterView {
                    bits: Seq::new(h.size as nat, |i: int| payload_bit(file, i)),
                    hash_functions: h.hash_functions as nat,
                },
            )
        },
    }
}

/// The value of two and of four big-endian bytes, digit by digit.
pub proof fn lemma_be_value(bytes: Seq<u8>)
    ensures
        bytes.len() == 2 ==> be_value(bytes) == bytes[0] * 0x100 + bytes[1],
        bytes.len() == 4 ==> be_value(bytes) == bytes[0] * 0x100_0000 + bytes[1] * 0x1_0000
            + bytes[2] * 0x100 + bytes[3],
{
    reveal_with_fuel(be_value, 5);
}

/// Big-endian bytes stand for the number they were made from.
pub proof fn lemma_be_round_trip(short: u16, long: u32)
    ensures
        be_value(be16(short)) == short,
        be_value(be32(long)) == long,
{
    lemma_be_value(be16(short));
    lemma_be_value(be32(long));
    assert((short / 0x100) * 0x100 + short % 0x100 == short) by (bit_vector);
    assert((long / 0x100_0000) * 0x100_0000 + (long / 0x1_0000 % 0x100) * 0x1_0000 + (long / 0x100
        % 0x100) * 0x100 + long % 0x100 == long) by (bit_vector);
}

/// Writes the header of a filter of `size` bits and `hash_functions` hash
/// functions.
pub fn header_bytes(hash_functions: usize, size: usize) -> (out: Vec<u8>)
    ensures
        out@ == header(hash_functions as nat, size as nat),
{
    let k: u16 = (hash_functions % 0x1_0000) as u16;
    let s: u32 = (size as u64 % 0x1_0000_0000) as u32;
    let mut out: Vec<u8> = Vec::new();
    out.push(0x43);
    out.push(0x43);
    out.push(0x42);
    out.push(0x46);
    out.push((VERSION / 0x100) as u8);
    out.push((VERSION % 0x100) as u8);
    out.push((k / 0x100) as u8);
    out.push((k % 0x100) as u8);
    out.push((s / 0x100_0000) as u8);
    out.push((s / 0x1_0000 % 0x100) as u8);
    out.push((s / 0x100 % 0x100) as u8);
    out.push((s % 0x100) as u8);
    out
}

/// Reads the header of `file` and checks its tag and its version.
pub fn parse_header(file: &[u8]) -> (parsed: Result<Header, LoadError>)
    ensures
        parsed == parse(file@),
{
    if file.len() < HEADER_LEN {
        return Err(LoadError::Truncated);
    }
    if file[0] != 0x43 || file[1] != 0x43 || file[2] != 0x42 || file[3] != 0x46 {
        assert(file@.subrange(0, 4) != magic());
        return Err(LoadError::InvalidHeader);
    }
    assert(file@.subrange(0, 4) =~= magic());
    proof {
        lemma_be_value(file@.subrange(4, 6));
        lemma_be_value(file@.subrange(6, 8));
        lemma_be_value(file@.subrange(8, 12));
    }
    let version: u16 = file[4] as u16 * 0x100 + file[5] as u16;
    if version != VERSION {
        return Err(LoadError::UnsupportedVersion);
    }
    let hash_functions: u16 = file[6] as u16 * 0x100 + file[7] as u16;
    let size: u32 = file[8] as u32 * 0x100_0000 + file[9] as u32 * 0x1_0000 + file[10] as u32
        * 0x100 + file[11] as u32;
    Ok(Header { hash_functions, size })
}

/// A byte is the eight bits it holds.
pub proof fn lemma_byte_is_its_bits(byte: u8)
    ensures
        byte == pack(
            byte_bit(byte, 0),
            byte_bit(byte, 1),
            byte_bit(byte, 2),
            byte_bit(byte, 3),
            byte_bit(byte, 4),
            byte_bit(byte, 5),
            byte_bit(byte, 6),
            byte_bit(byte, 7),
        ),
{
    assert(byte == pack(
        byte_bit(byte, 0),
        byte_bit(byte, 1),
        byte_bit(byte, 2),
        byte_bit(byte, 3),
        byte_bit(byte, 4),
        byte_bit(byte, 5),
        byte_bit(byte, 6),
        byte_bit(byte, 7),
    )) by (bit_vector);
}

/// The eight bits of a packed byte are the eight it was packed from.
pub proof fn lemma_pack_bits(
    b0: bool,
    b1: bool,
    b2: bool,
    b3: bool,
    b4: bool,
    b5: bool,
    b6: bool,
    b7: bool,
)
    ensures
        byte_bit(pack(b0, b1, b2, b3, b4, b5, b6, b7), 0) == b0,
        byte_bit(pack(b0, b1, b2, b3, b4, b5, b6, b7), 1) == b1,
        byte_bit(pack(b0, b1, b2, b3, b4, b5, b6, b7), 2) == b2,
        byte_bit(pack(b0, b1, b2, b3, b4, b5, b6, b7), 3) == b3,
        byte_bit(pack(b0, b1, b2, b3, b4, b5, b6, b7), 4) == b4,
        byte_bit(pack(b0, b1, b2, b3, b4, b5, b6, b7), 5) == b5,
        byte_bit(pack(b0, b1, b2, b3, b4, b5, b6, b7), 6) == b6,
        byte_bit(pack(b0, b1, b2, b3, b4, b5, b6, b7), 7) == b7,
{
    let byte = pack(b0, b1, b2, b3, b4, b5, b6, b7);
    assert(byte_bit(byte, 0) == b0 && byte_bit(byte, 1) == b1 && byte_bit(byte, 2) == b2
        && byte_bit(byte, 3) == b3 && byte_bit(byte, 4) == b4 && byte_bit(byte, 5) == b5
        && byte_bit(byte, 6) == b6 && byte_bit(byte, 7) == b7) by (bit_vector)
        requires
            byte == pack(b0, b1, b2, b3, b4, b5, b6, b7),
    ;
}

/// Bit `b` of stored byte `k` is stored bit `8k + b`.
pub proof fn lemma_stored_byte_bits(bits: Seq<bool>, k: int, b: u8)
    requires
        b < 8,
    ensures
        byte_bit(stored_byte(bits, k), b) == stored_bit(bits, 8 * k + b),
{
    lemma_pack_bits(
        stored_bit(bits, 8 * k),
        stored_bit(bits, 8 * k + 1),
        stored_bit(bits, 8 * k + 2),
        stored_bit(bits, 8 * k + 3),
        stored_bit(bits, 8 * k + 4),
        stored_bit(bits, 8 * k + 5),
        stored_bit(bits, 8 * k + 6),
        stored_bit(bits, 8 * k + 7),
    );
}

/// A byte whose bit `b` is stored bit `8k + b`, for each of its bits, is
/// stored byte `k`.
pub proof fn lemma_stored_byte_unique(bits: Seq<bool>, k: int, byte: u8)
    requires
        forall|b: u8| b < 8 ==> #[trigger] byte_bit(byte, b) == stored_bit(bits, 8 * k + b),
    ensures
        byte == stored_byte(bits, k),
{
    lemma_byte_is_its_bits(byte);
}

/// Where the bits end among the words that store them: every word but the
/// last is full, and the last holds `size % usize::BITS` bits, or is full
/// too where that is zero.
pub proof fn lemma_last_word(size: nat, n: int)
    requires
        0 <= n < words_for(size),
    ensures
        n + 1 < words_for(size) || size % (usize::BITS as nat) == 0 ==> (n + 1) * usize::BITS
            <= size,
        n + 1 == words_for(size) && size % (usize::BITS as nat) != 0 ==> size == n * usize::BITS
            + size % (usize::BITS as nat),
{
    if usize::BITS == 32 {
        assert(words_for(size) == (size + 31) / 32);
    } else {
        assert(words_for(size) == (size + 63) / 64);
    }
}

/// The word `w` with every bit from bit `live` on cleared.
pub fn clear_above(w: usize, live: usize) -> (kept: usize)
    requires
        0 < live < usize::BITS,
    ensures
        forall|t: usize|
            t < usize::BITS ==> #[trigger] word_bit(kept, t) == (t < live && word_bit(w, t)),
{
    let low: usize = 1usize << live;
    assert(low >= 1) by (bit_vector)
        requires
            low == 1usize << live,
            0 < live < usize::BITS,
    ;
    let mask: usize = low - 1;
    let kept = w & mask;
    assert forall|t: usize| t < usize::BITS implies #[trigger] word_bit(kept, t) == (t < live
        && word_bit(w, t)) by {
        assert(((kept >> t) & 1 == 1) == (t < live && ((w >> t) & 1 == 1))) by (bit_vector)
            requires
                kept == w & mask,
                mask == low - 1,
                low == 1usize << live,
                0 < live < usize::BITS,
                t < usize::BITS,
        ;
    }
    kept
}

/// The bytes of a word, lowest first.
pub open spec fn le_bytes(w: usize) -> Seq<u8> {
    Seq::new((usize::BITS / 8) as nat, |k: int| ((w >> (8 * k) as usize) & 0xff) as u8)
}

/// Bit `b` of byte `k` of a word is bit `8k + b` of the word, when the bytes
/// are counted from the lowest.
pub proof fn lemma_le_bytes_bits(w: usize, k: int, b: u8)
    requires
        0 <= k < usize::BITS / 8,
        b < 8,
    ensures
        byte_bit(le_bytes(w)[k], b) == word_bit(w, (8 * k + b) as usize),
{
    let shift = (8 * k) as usize;
    let at = (8 * k + b) as usize;
    assert(shift < 64 && b < 8 && at == shift + b ==> ((((w >> shift) & 0xff) as u8) & (1u8 << b)
        != 0) == ((w >> at) & 1 == 1)) by (bit_vector);
}

/// Appends the bytes of a word to `out`, lowest first.
pub fn push_word(out: &mut Vec<u8>, w: usize)
    ensures
        final(out)@ == old(out)@ + le_bytes(w),
{
    let mut k: usize = 0;
    while k < (usize::BITS / 8) as usize
        invariant
            k <= usize::BITS / 8,
            out@ == old(out)@ + le_bytes(w).take(k as int),
        decreases usize::BITS / 8 - k,
    {
        out.push(((w >> (8 * k)) & 0xff) as u8);
        k += 1;
    }
}

} // verus!
