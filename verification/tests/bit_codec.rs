use tiny_trie::base64::char_to_int;
use tiny_trie::base64::int_to_char;
use tiny_trie::codec::decode_body_to_bits;
use tiny_trie::codec::read_field_base64;
use tiny_trie::codec::read_field_bits;
use tiny_trie::codec::TrieError;

// Test basic accuracy of bit window extraction
#[test]
fn test_get_base64_field() {
    let test_str = String::from("foo+");
    // For reference, "foo+" encodes the binary:
    // 0111 1110 1000 1010 0011 1110
    assert_eq!(read_field_base64(&test_str, 0, 4).unwrap(), 7);
    assert_eq!(read_field_base64(&test_str, 2, 4).unwrap(), 15);
    assert_eq!(read_field_base64(&test_str, 8, 8).unwrap(), 138);
    assert_eq!(read_field_base64(&test_str, 10, 13).unwrap(), 1311);
}

// Test error when window size exceeds bounds
#[test]
fn test_get_base64_field_bounds_error() {
    let test_str = String::from("foo+");
    assert!(matches!(
        read_field_base64(&test_str, 17, 8),
        Err(TrieError::Truncated)
    ));
}

// Test error when the window starts out of bounds
#[test]
fn test_get_base64_field_oob_start_error() {
    let test_str = String::from("foo+");
    assert!(matches!(
        read_field_base64(&test_str, 25, 1),
        Err(TrieError::Truncated)
    ));
}

// A zero-length window reads as zero.
#[test]
fn test_get_base64_field_zero_length() {
    let test_str = String::from("foo+");
    assert_eq!(read_field_base64(&test_str, 5, 0).unwrap(), 0);
    assert_eq!(read_field_base64(&test_str, 0, 0).unwrap(), 0);
}

// A window over a non-base64 character is refused.
#[test]
fn test_get_base64_field_bad_char() {
    assert!(matches!(
        read_field_base64("fo!o", 10, 6),
        Err(TrieError::UnsupportedFormat)
    ));
    // A window that stops before the bad character still reads.
    assert_eq!(read_field_base64("fo!o", 0, 8).unwrap(), 0x7E);
}

#[test]
fn test_get_bitvec_field() {
    let test_str = String::from("foo+");
    // For reference, "foo+" encodes the binary:
    // 0111 1110 1000 1010 0011 1110
    let bv = decode_body_to_bits(&test_str).unwrap();
    assert_eq!(read_field_bits(&bv, 0, 4).unwrap(), 7);
    assert_eq!(read_field_bits(&bv, 2, 4).unwrap(), 15);
    assert_eq!(read_field_bits(&bv, 8, 8).unwrap(), 138);
    assert_eq!(read_field_bits(&bv, 10, 13).unwrap(), 1311);
}

// Reads past the end of the bit buffer are refused.
#[test]
fn test_get_bitvec_field_bounds_error() {
    let bv = decode_body_to_bits("foo+").unwrap();
    assert!(matches!(
        read_field_bits(&bv, 17, 8),
        Err(TrieError::Truncated)
    ));
    assert!(matches!(
        read_field_bits(&bv, 25, 1),
        Err(TrieError::Truncated)
    ));
}

// bit_vec_from_base64 (process binary)
#[test]
fn test_bit_vec_from_base64() {
    // For reference, "fo" encodes the binary:
    // 0111 1110 1000
    let test_str = String::from("fo");

    assert!(decode_body_to_bits(&test_str).unwrap().eq_vec(&[
        false, true, true, true, true, true, true, false, true, false, false, false
    ]));
}

// Decoding refuses a non-base64 character anywhere in the body.
#[test]
fn test_bit_vec_from_base64_bad_char() {
    assert!(matches!(
        decode_body_to_bits("fo="),
        Err(TrieError::UnsupportedFormat)
    ));
}

// Every in-range window reads the same from the base-64 text and from the
// decoded bit buffer.
#[test]
fn test_base64_and_bitvec_reads_agree() {
    let s = "KTbjds1FDB";
    let bv = decode_body_to_bits(s).unwrap();
    let total = 6 * s.len();
    for start in 0..total {
        for length in 0..=(total - start).min(32) {
            assert_eq!(
                read_field_base64(s, start, length).unwrap(),
                read_field_bits(&bv, start, length).unwrap()
            );
        }
    }
}

// The base-64 alphabet mapping, in both directions.
#[test]
fn test_base64_char_values() {
    assert_eq!(char_to_int(&'A'), 0);
    assert_eq!(char_to_int(&'Z'), 25);
    assert_eq!(char_to_int(&'a'), 26);
    assert_eq!(char_to_int(&'z'), 51);
    assert_eq!(char_to_int(&'0'), 52);
    assert_eq!(char_to_int(&'9'), 61);
    assert_eq!(char_to_int(&'+'), 62);
    assert_eq!(char_to_int(&'/'), 63);
    for i in 0..64u32 {
        assert_eq!(char_to_int(&int_to_char(&i)), i);
    }
}
