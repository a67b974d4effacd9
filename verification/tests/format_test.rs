use ccspellcheck::bloom_filter::BloomFilter;
use ccspellcheck::format::clear_above;
use ccspellcheck::format::header_bytes;
use ccspellcheck::format::parse_header;
use ccspellcheck::format::push_word;
use ccspellcheck::format::Header;
use ccspellcheck::format::LoadError;
use ccspellcheck::format::HEADER_LEN;
use ccspellcheck::format::VERSION;

const WORD: usize = std::mem::size_of::<usize>();

fn sample() -> BloomFilter {
    let mut bf = BloomFilter::new(100, 3);
    bf.insert("hello");
    bf.insert("world");
    bf
}

#[test]
fn saved_header_holds_tag_version_and_both_numbers() {
    let file = sample().save_to_file();
    assert_eq!(&file[0..4], b"CCBF");
    assert_eq!(file[4..6], 1u16.to_be_bytes());
    assert_eq!(file[6..8], 3u16.to_be_bytes());
    assert_eq!(file[8..12], 100u32.to_be_bytes());

    let file = BloomFilter::new(0x0102_0304, 0x0506).save_to_file();
    assert_eq!(file[..12], [0x43, 0x43, 0x42, 0x46, 0, 1, 5, 6, 1, 2, 3, 4]);
}

#[test]
fn saved_file_is_exact() {
    let file = sample().save_to_file();
    let mut expected = vec![67, 67, 66, 70, 0, 1, 0, 3, 0, 0, 0, 100];
    let mut payload = vec![0, 0, 4, 4, 0, 17, 128, 0, 2, 0, 0, 0, 0];
    payload.resize(100usize.div_ceil(8 * WORD) * WORD, 0);
    expected.extend(payload);
    assert_eq!(file, expected);

    let mut small = BloomFilter::new(16, 2);
    small.insert("a");
    let file = small.save_to_file();
    assert_eq!(file[..14], [67, 67, 66, 70, 0, 1, 0, 2, 0, 0, 0, 16, 1, 1]);
    assert_eq!(file.len(), 12 + WORD);
}

#[test]
fn saved_bits_are_stored_in_whole_words() {
    let cases = [
        (0, 0),
        (1, 1),
        (8 * WORD - 1, 1),
        (8 * WORD, 1),
        (8 * WORD + 1, 2),
        (1000, 1000usize.div_ceil(8 * WORD)),
    ];
    for (size, words) in cases {
        let file = BloomFilter::new(size, 2).save_to_file();
        assert_eq!(file.len(), HEADER_LEN + words * WORD);
    }
}

#[test]
fn header_numbers_lose_what_does_not_fit() {
    let file = BloomFilter::new(100, 0x1_0003).save_to_file();
    assert_eq!(file[6..8], [0, 3]);
    assert_eq!(header_bytes(0x1_0000, 100)[6..8], [0, 0]);
    assert_eq!(header_bytes(0xffff, 100)[6..8], [0xff, 0xff]);
    assert_eq!(header_bytes(3, 0xffff_ffff)[8..12], [0xff, 0xff, 0xff, 0xff]);
    assert_eq!(header_bytes(3, 0x1_0000_0000)[8..12], [0, 0, 0, 0]);
    assert_eq!(header_bytes(3, 0x12_3456_789a)[8..12], [0x34, 0x56, 0x78, 0x9a]);
}

#[test]
fn header_bytes_are_exact() {
    assert_eq!(header_bytes(3, 100), vec![67, 67, 66, 70, 0, 1, 0, 3, 0, 0, 0, 100]);
    assert_eq!(
        header_bytes(0xabcd, 0x1234_5678),
        vec![0x43, 0x43, 0x42, 0x46, 0, 1, 0xab, 0xcd, 0x12, 0x34, 0x56, 0x78]
    );
    assert_eq!(header_bytes(0, 0).len(), HEADER_LEN);
    assert_eq!(VERSION, 1);
}

#[test]
fn parse_header_reads_what_header_bytes_wrote() {
    assert_eq!(
        parse_header(&header_bytes(0xabcd, 0x1234_5678)),
        Ok(Header { hash_functions: 0xabcd, size: 0x1234_5678 })
    );
    assert_eq!(parse_header(&header_bytes(0, 0)), Ok(Header { hash_functions: 0, size: 0 }));
    assert_eq!(
        parse_header(&[67, 67, 66, 70, 0, 1, 1, 2, 3, 4, 5, 6, 99, 99]),
        Ok(Header { hash_functions: 0x0102, size: 0x0304_0506 })
    );
}

#[test]
fn push_word_appends_the_lowest_byte_first() {
    let mut out = vec![9, 9];
    push_word(&mut out, 0x0403_0201);
    let mut expected = vec![9, 9, 1, 2, 3, 4];
    expected.resize(2 + WORD, 0);
    assert_eq!(out, expected);

    let mut out = Vec::new();
    push_word(&mut out, usize::MAX);
    assert_eq!(out, vec![0xff; WORD]);
    push_word(&mut out, 0);
    assert_eq!(out.len(), 2 * WORD);
    assert!(out[WORD..].iter().all(|byte| *byte == 0));
}

#[test]
fn load_gives_back_the_saved_filter() {
    let shapes = [(1, 1), (7, 2), (8, 3), (9, 1), (63, 4), (64, 4), (65, 4), (100, 3), (1000, 7)];
    for (size, hash_functions) in shapes {
        let mut bf = BloomFilter::new(size, hash_functions);
        for word in ["hello", "world", "foo"] {
            bf.insert(word);
        }
        let file = bf.save_to_file();
        let loaded = BloomFilter::load_from_file(&file).unwrap();
        assert_eq!(loaded.size(), size);
        assert_eq!(loaded.hash_functions(), hash_functions);
        assert_eq!(loaded.save_to_file(), file);
        for word in ["hello", "world", "foo", "bar", "baz", "qux", ""] {
            assert_eq!(loaded.query(word), bf.query(word));
        }
    }
}

#[test]
fn load_reads_an_empty_filter() {
    let loaded = BloomFilter::load_from_file(&BloomFilter::new(100, 3).save_to_file()).unwrap();
    assert!(!loaded.query("hello"));
    let loaded = BloomFilter::load_from_file(&header_bytes(0, 0)).unwrap();
    assert_eq!(loaded.size(), 0);
    assert_eq!(loaded.hash_functions(), 0);
}

#[test]
fn load_reads_bit_b_of_byte_k_as_bit_8k_plus_b() {
    let mut file = header_bytes(1, 24);
    file.extend([0b0000_0001, 0b1000_0000, 0b0001_0100]);
    let loaded = BloomFilter::load_from_file(&file).unwrap();
    let saved = loaded.save_to_file();
    assert_eq!(saved[12..15], [0b0000_0001, 0b1000_0000, 0b0001_0100]);

    // "hello" lands on bit 26 of a hundred under the first hash function.
    let mut file = header_bytes(1, 100);
    let mut payload = vec![0u8; 13];
    payload[3] = 1 << 2;
    file.extend(payload);
    let loaded = BloomFilter::load_from_file(&file).unwrap();
    assert!(loaded.query("hello"));
    assert!(!loaded.query("world"));
}

#[test]
fn load_ignores_bits_past_the_size_and_bytes_past_the_bits() {
    let mut file = header_bytes(3, 4);
    file.push(0b1111_0101);
    file.extend([0xaa, 0xbb, 0xcc]);
    let loaded = BloomFilter::load_from_file(&file).unwrap();
    assert_eq!(loaded.size(), 4);
    let saved = loaded.save_to_file();
    assert_eq!(saved[12], 0b0000_0101);
    assert!(saved[13..].iter().all(|byte| *byte == 0));
}

#[test]
fn load_needs_no_padding() {
    let bf = sample();
    let file = bf.save_to_file();
    let packed = &file[..12 + 13];
    let loaded = BloomFilter::load_from_file(packed).unwrap();
    assert_eq!(loaded.save_to_file(), file);
    assert_eq!(
        BloomFilter::load_from_file(&file[..12 + 12]).err(),
        Some(LoadError::Truncated)
    );
}

#[test]
fn load_refuses_a_wrong_tag() {
    let mut file = sample().save_to_file();
    file[0] = b'X';
    assert_eq!(BloomFilter::load_from_file(&file).err(), Some(LoadError::InvalidHeader));
    for at in 0..4 {
        let mut file = sample().save_to_file();
        file[at] ^= 0x20;
        assert_eq!(BloomFilter::load_from_file(&file).err(), Some(LoadError::InvalidHeader));
        assert_eq!(parse_header(&file), Err(LoadError::InvalidHeader));
    }
    assert_eq!(
        BloomFilter::load_from_file(b"NOPE\x00\x01\x00\x03\x00\x00\x00\x00").err(),
        Some(LoadError::InvalidHeader)
    );
}

#[test]
fn load_refuses_another_version() {
    for version in [0u16, 2, 0x0100, 0x0101, 0xffff] {
        let mut file = sample().save_to_file();
        file[4..6].copy_from_slice(&version.to_be_bytes());
        assert_eq!(
            BloomFilter::load_from_file(&file).err(),
            Some(LoadError::UnsupportedVersion)
        );
        assert_eq!(parse_header(&file), Err(LoadError::UnsupportedVersion));
    }
}

#[test]
fn load_refuses_a_truncated_file() {
    let file = sample().save_to_file();
    for len in 0..12 {
        assert_eq!(
            BloomFilter::load_from_file(&file[..len]).err(),
            Some(LoadError::Truncated)
        );
        assert_eq!(parse_header(&file[..len]), Err(LoadError::Truncated));
    }
    for len in 12..12 + 13 {
        assert_eq!(
            BloomFilter::load_from_file(&file[..len]).err(),
            Some(LoadError::Truncated)
        );
    }
    assert!(BloomFilter::load_from_file(&file[..12 + 13]).is_ok());
}

#[test]
fn load_checks_the_tag_before_the_version_and_the_length_first() {
    let mut file = sample().save_to_file();
    file[0] = b'X';
    file[5] = 2;
    assert_eq!(BloomFilter::load_from_file(&file).err(), Some(LoadError::InvalidHeader));
    assert_eq!(
        BloomFilter::load_from_file(&file[..11]).err(),
        Some(LoadError::Truncated)
    );
    assert_eq!(BloomFilter::load_from_file(b"XXXX").err(), Some(LoadError::Truncated));

    let mut file = header_bytes(3, 100);
    file[5] = 2;
    assert_eq!(
        BloomFilter::load_from_file(&file).err(),
        Some(LoadError::UnsupportedVersion)
    );
}

#[test]
fn load_holds_the_length_of_the_file_against_the_largest_size() {
    let mut file = header_bytes(3, 0xffff_ffff);
    assert_eq!(BloomFilter::load_from_file(&file).err(), Some(LoadError::Truncated));
    file.extend([0xff; 1000]);
    assert_eq!(BloomFilter::load_from_file(&file).err(), Some(LoadError::Truncated));

    let mut file = header_bytes(3, 0x2000_0000);
    file.extend([0u8; 64]);
    assert_eq!(BloomFilter::load_from_file(&file).err(), Some(LoadError::Truncated));
}

#[test]
fn saved_padding_is_zero() {
    for size in [1usize, 5, 13, 63, 65, 100] {
        let mut bf = BloomFilter::new(size, 1);
        let all: Vec<u64> = (0..size as u64).collect();
        bf.insert_digests(&all);
        let file = bf.save_to_file();
        assert_eq!(file.len(), HEADER_LEN + size.div_ceil(8 * WORD) * WORD);
        for (k, byte) in file[HEADER_LEN..].iter().enumerate() {
            let expected = match size.saturating_sub(8 * k) {
                0 => 0,
                left if left >= 8 => 0xff,
                left => (1u8 << left) - 1,
            };
            assert_eq!(*byte, expected);
        }
    }
    let mut bf = BloomFilter::new(13, 1);
    bf.insert_digests(&(0..13).collect::<Vec<u64>>());
    assert_eq!(bf.save_to_file()[12..15], [0xff, 0x1f, 0]);
}

#[test]
fn a_new_filter_saves_as_header_and_zeros() {
    let file = BloomFilter::new(100, 3).save_to_file();
    assert_eq!(
        file[..12],
        [0x43, 0x43, 0x42, 0x46, 0x00, 0x01, 0x00, 0x03, 0x00, 0x00, 0x00, 0x64]
    );
    assert!(file.len() >= 25);
    assert!(file[12..].iter().all(|byte| *byte == 0x00));
}

#[test]
fn each_error_has_its_message() {
    assert_eq!(LoadError::Truncated.message(), "failed to fill whole buffer");
    assert_eq!(LoadError::InvalidHeader.message(), "Invalid Header");
    assert_eq!(LoadError::UnsupportedVersion.message(), "Unsupported Version");
    assert_eq!(LoadError::TooLarge.message(), "bit-vector capacity exceeded");
}

#[test]
fn round_trip_loses_a_number_that_does_not_fit_its_field() {
    let file = BloomFilter::new(100, 0x1_0003).save_to_file();
    let loaded = BloomFilter::load_from_file(&file).unwrap();
    assert_eq!(loaded.hash_functions(), 3);
    assert_eq!(loaded.size(), 100);

    let file = BloomFilter::new(100, 0xffff).save_to_file();
    let loaded = BloomFilter::load_from_file(&file).unwrap();
    assert_eq!(loaded.hash_functions(), 0xffff);
}

#[test]
fn clear_above_keeps_the_low_bits() {
    assert_eq!(clear_above(usize::MAX, 1), 1);
    assert_eq!(clear_above(usize::MAX, 3), 0b111);
    assert_eq!(clear_above(0b1010_1010, 4), 0b1010);
    assert_eq!(clear_above(0b1010_1010, 8), 0b1010_1010);
    assert_eq!(clear_above(0, 5), 0);
    assert_eq!(clear_above(usize::MAX, 8 * WORD - 1), usize::MAX >> 1);
}
