use tiny_trie::codec::decode_body_to_bits;
use tiny_trie::codec::TrieError;
use tiny_trie::packed::PackedTrie;
use tiny_trie::word_bank::WordBank;
use tiny_trie::word_bank::WordBankIndex;

const TRIE: &str = "BAAAAABAwIfboarzKTbjds1FDB";

// Instantiation. Tests that format was parsed correctly.
#[test]
fn test_init_packed_trie() {
    let pt = PackedTrie::from(TRIE).unwrap();

    assert_eq!(pt.offset, 1);
    assert_eq!(pt.alphabet, vec!['f', 'b', 'o', 'a', 'r', 'z']);
    assert_eq!(pt.word_width, 6);
    assert_eq!(pt.pointer_mask, 0b11);
    assert_eq!(pt.char_mask, 0b111);
    assert_eq!(pt.char_shift, 3);
    assert!(pt.data == decode_body_to_bits("KTbjds1FDB").unwrap());
}

// Instantiation. Check version.
#[test]
fn test_init_packed_trie_version_mismatch() {
    let res = PackedTrie::from("BD/wAABAwIfboarzKTbjds1FDB");
    assert!(matches!(res, Err(TrieError::UnsupportedVersion)));
}

// Instantiation. A stream shorter than its own header width field.
#[test]
fn test_init_packed_trie_truncated() {
    let res = PackedTrie::from("B");
    assert!(matches!(res, Err(TrieError::Truncated)));
}

// Instantiation. A stream with non-base64 characters in the header.
#[test]
fn test_init_packed_trie_bad_chars() {
    let res = PackedTrie::from("!!!!!!!!!!!!");
    assert!(matches!(res, Err(TrieError::UnsupportedFormat)));
}

// Test simple membership
#[test]
fn test_packed_trie_test() {
    let pt = PackedTrie::from(TRIE).unwrap();

    assert_eq!(pt.test("foo").unwrap(), true);
    assert_eq!(pt.test("bar").unwrap(), true);
    assert_eq!(pt.test("baz").unwrap(), true);
    assert_eq!(pt.test("boop").unwrap(), false);
    assert_eq!(pt.test("bump").unwrap(), false);
    assert_eq!(pt.test("bop").unwrap(), false);
    assert_eq!(pt.test("foz").unwrap(), false);
}

// Test simple search
#[test]
fn test_packed_trie_search() {
    let pt = PackedTrie::from(TRIE).unwrap();
    let mut exp: Vec<String> = Vec::new();
    exp.push(String::from("foo"));
    assert_eq!(pt.search("foo").unwrap(), exp);

    exp.clear();
    exp.push(String::from("baz"));
    assert_eq!(pt.search("baz").unwrap(), exp);

    exp.clear();
    assert_eq!(pt.search("bao").unwrap(), exp);
    assert_eq!(pt.search("bunk").unwrap(), exp);
}

// Test wildcard search
#[test]
fn test_packed_trie_search_wc() {
    let pt = PackedTrie::from(TRIE).unwrap();
    let mut exp: Vec<String> = Vec::new();
    exp.push(String::from("baz"));
    exp.push(String::from("bar"));
    assert_eq!(pt.search("ba*").unwrap(), exp);

    exp.clear();
    exp.push(String::from("baz"));
    exp.push(String::from("bar"));
    exp.push(String::from("foo"));
    assert_eq!(pt.search("***").unwrap(), exp);

    exp.clear();
    assert_eq!(pt.search("*").unwrap(), exp);
    assert_eq!(pt.search("z**").unwrap(), exp);
    assert_eq!(pt.search("*x*").unwrap(), exp);
    assert_eq!(pt.search("****").unwrap(), exp);
}

// Test membership and enumeration by prefix
#[test]
fn test_packed_trie_prefix() {
    let pt = PackedTrie::from(TRIE).unwrap();

    assert_eq!(pt.test_pfx("f").unwrap(), true);
    assert_eq!(pt.test_pfx("ba").unwrap(), true);
    assert_eq!(pt.test_pfx("foo").unwrap(), true);
    assert_eq!(pt.test_pfx("fooz").unwrap(), false);
    assert_eq!(pt.test_pfx("z").unwrap(), false);

    assert_eq!(pt.search_pfx("f").unwrap(), vec![String::from("foo")]);
    assert_eq!(
        pt.search_pfx("ba").unwrap(),
        vec![String::from("baz"), String::from("bar")]
    );
    assert_eq!(
        pt.search_pfx("").unwrap(),
        vec![
            String::from("baz"),
            String::from("bar"),
            String::from("foo")
        ]
    );
}

// test(p) is exactly "search(p) is non-empty", on hits and misses alike.
#[test]
fn test_membership_matches_search() {
    let pt = PackedTrie::from(TRIE).unwrap();
    for needle in ["foo", "bar", "baz", "bao", "bunk", "ba*", "***", "*", "z**"] {
        assert_eq!(
            pt.test(needle).unwrap(),
            !pt.search(needle).unwrap().is_empty()
        );
        assert_eq!(
            pt.test_pfx(needle).unwrap(),
            !pt.search_pfx(needle).unwrap().is_empty()
        );
    }
}

// A body whose first word points past the end of the stream is reported as
// corrupt at query time.
#[test]
fn test_packed_trie_corrupt_body() {
    let pt = PackedTrie::from("BAAAAABAwIfboarzK").unwrap();
    assert!(matches!(pt.test("foo"), Err(TrieError::CorruptData)));
    assert!(matches!(pt.search("f*o"), Err(TrieError::CorruptData)));
}

// The word-bank index caches the full listing of its trie.
#[test]
fn test_word_bank_index() {
    let idx = WordBankIndex::new(3, TRIE).unwrap();
    assert_eq!(idx.valence, 3);
    assert_eq!(idx.all_wild_pattern, "***");
    assert_eq!(
        idx.all_words,
        vec![
            String::from("baz"),
            String::from("bar"),
            String::from("foo")
        ]
    );
}

// The word bank stores an index at the position of its valence.
#[test]
fn test_word_bank_set_index() {
    let mut bank = WordBank::new();
    bank.set_index(3, TRIE).unwrap();
    assert_eq!(bank.indexes.len(), 4);
    assert!(bank.indexes[0].is_none());
    assert!(bank.indexes[1].is_none());
    assert!(bank.indexes[2].is_none());
    let idx = bank.indexes[3].as_ref().unwrap();
    assert_eq!(idx.valence, 3);
    assert_eq!(idx.all_words.len(), 3);
}

// Installing an index for a broken stream leaves the bank unchanged.
#[test]
fn test_word_bank_set_index_error() {
    let mut bank = WordBank::new();
    let res = bank.set_index(2, "BD/wAABAwIfboarzKTbjds1FDB");
    assert!(matches!(res, Err(TrieError::UnsupportedVersion)));
    assert_eq!(bank.indexes.len(), 0);
}
