use driftdb::storage::{KeyAndSeq, KeyError};
use driftdb::types::{Key, SequenceNumber};

fn storage_key(key: &str, seq: u64) -> String {
    KeyAndSeq::new(Key::from(key), SequenceNumber(seq)).to_string()
}

#[test]
fn storage_key_pads_the_sequence_number() {
    assert_eq!(storage_key("a", 7), "a/00000000000000000007");
    assert_eq!(storage_key("", 0), "/00000000000000000000");
    assert_eq!(storage_key("room", u64::MAX), "room/18446744073709551615");
}

#[test]
fn storage_key_escapes_separator_and_escape() {
    assert_eq!(storage_key("a/b", 1), "a%2Fb/00000000000000000001");
    assert_eq!(storage_key("100%", 1), "100%25/00000000000000000001");
    assert_eq!(storage_key("%2F", 1), "%252F/00000000000000000001");
    assert_eq!(storage_key("é/ü", 12), "é%2Fü/00000000000000000012");
}

#[test]
fn prefix_is_the_escaped_key_and_the_separator() {
    assert_eq!(KeyAndSeq::prefix_str(&Key::from("a")), "a/");
    assert_eq!(KeyAndSeq::prefix_str(&Key::from("a/b")), "a%2Fb/");
    assert_eq!(KeyAndSeq::prefix_str(&Key::from("")), "/");
}

#[test]
fn storage_keys_read_back() {
    for key in ["a", "", "a/b", "100%", "%2F", "%25/", "é/ü", "a b"] {
        for seq in [0, 1, 9, 10, 12345, u64::MAX - 1, u64::MAX] {
            let text = storage_key(key, seq);
            assert_eq!(
                KeyAndSeq::from_str(&text),
                Ok(KeyAndSeq::new(Key::from(key), SequenceNumber(seq)))
            );
        }
    }
}

#[test]
fn text_without_sequence_is_no_storage_key() {
    assert_eq!(KeyAndSeq::from_str(""), Err(KeyError::MissingSequence));
    assert_eq!(KeyAndSeq::from_str("abc"), Err(KeyError::MissingSequence));
    assert_eq!(KeyAndSeq::from_str("00000000000000000007"), Err(KeyError::MissingSequence));
    assert_eq!(KeyAndSeq::from_str("a-00000000000000000007"), Err(KeyError::MissingSequence));
    assert_eq!(KeyAndSeq::from_str("a/0000000000000000007"), Err(KeyError::MissingSequence));
}

#[test]
fn text_with_bad_sequence_is_no_storage_key() {
    assert_eq!(KeyAndSeq::from_str("a/0000000000000000000x"), Err(KeyError::InvalidSequence));
    assert_eq!(KeyAndSeq::from_str("a/+0000000000000000007"), Err(KeyError::InvalidSequence));
    assert_eq!(KeyAndSeq::from_str("a/18446744073709551616"), Err(KeyError::InvalidSequence));
    assert_eq!(KeyAndSeq::from_str("a/99999999999999999999"), Err(KeyError::InvalidSequence));
}

#[test]
fn text_with_bad_escape_is_no_storage_key() {
    assert_eq!(KeyAndSeq::from_str("a/b/00000000000000000007"), Err(KeyError::InvalidEscape));
    assert_eq!(KeyAndSeq::from_str("a%/00000000000000000007"), Err(KeyError::InvalidEscape));
    assert_eq!(KeyAndSeq::from_str("a%2/00000000000000000007"), Err(KeyError::InvalidEscape));
    assert_eq!(KeyAndSeq::from_str("a%2f/00000000000000000007"), Err(KeyError::InvalidEscape));
    assert_eq!(KeyAndSeq::from_str("a%41/00000000000000000007"), Err(KeyError::InvalidEscape));
}

#[test]
fn storage_keys_of_a_subject_sort_by_sequence_number() {
    let numbers = [0u64, 1, 2, 9, 10, 11, 99, 100, 1 << 32, u64::MAX - 1, u64::MAX];
    for a in numbers {
        for b in numbers {
            assert_eq!(storage_key("a/b", a) < storage_key("a/b", b), a < b);
        }
    }
}

#[test]
fn prefix_finds_the_keys_of_one_subject_only() {
    let prefix = KeyAndSeq::prefix_str(&Key::from("a"));
    assert!(storage_key("a", 5).starts_with(&prefix));
    assert!(!storage_key("a/b", 5).starts_with(&prefix));
    assert!(!storage_key("ab", 5).starts_with(&prefix));
    assert!(!storage_key("", 5).starts_with(&prefix));
    let prefix = KeyAndSeq::prefix_str(&Key::from("a/"));
    assert!(storage_key("a/", 5).starts_with(&prefix));
    assert!(!storage_key("a", 5).starts_with(&prefix));
}
