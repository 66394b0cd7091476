//! Tests of code validity and storage-key encoding.

use invite_ledger::codes::{encode_key, decode_key, is_valid_code, is_alnum};
use invite_ledger::bytes::{lex_less, bytes_eq, copy_bytes};

#[test]
fn encode_key_prefixes_the_code() {
    assert_eq!(encode_key(b"AB12cd34"), b"INVITE:AB12cd34".to_vec());
    assert_eq!(encode_key(b""), b"INVITE:".to_vec());
}

#[test]
fn decode_key_round_trip() {
    let key = encode_key(b"AB12cd34");
    assert_eq!(decode_key(&key), Some(b"AB12cd34".to_vec()));
}

#[test]
fn decode_key_rejects_malformed_keys() {
    assert_eq!(decode_key(b"INVITE:AB12cd3"), None);
    assert_eq!(decode_key(b"INVITE:AB12cd345"), None);
    assert_eq!(decode_key(b"INVITe:AB12cd34"), None);
    assert_eq!(decode_key(b"INVITE:AB12cd3!"), None);
    assert_eq!(decode_key(b""), None);
}

#[test]
fn valid_code_is_eight_alphanumerics() {
    assert!(is_valid_code(b"AB12cd34"));
    assert!(is_valid_code(b"00000000"));
    assert!(is_valid_code(b"zzzzzzzz"));
    assert!(!is_valid_code(b"AB12cd3"));
    assert!(!is_valid_code(b"AB12cd345"));
    assert!(!is_valid_code(b"AB12cd3!"));
    assert!(!is_valid_code(b""));
}

#[test]
fn alnum_classifies_bytes() {
    assert!(is_alnum(b'0'));
    assert!(is_alnum(b'9'));
    assert!(is_alnum(b'A'));
    assert!(is_alnum(b'Z'));
    assert!(is_alnum(b'a'));
    assert!(is_alnum(b'z'));
    assert!(!is_alnum(b'/'));
    assert!(!is_alnum(b':'));
    assert!(!is_alnum(b'@'));
    assert!(!is_alnum(b'['));
    assert!(!is_alnum(b'`'));
    assert!(!is_alnum(b'{'));
}

#[test]
fn lexicographic_order_on_bytes() {
    assert!(lex_less(b"", b"a"));
    assert!(lex_less(b"a", b"ab"));
    assert!(lex_less(b"ab", b"b"));
    assert!(lex_less(b"0A", b"0a"));
    assert!(!lex_less(b"a", b"a"));
    assert!(!lex_less(b"b", b"ab"));
    assert!(!lex_less(b"a", b""));
}

#[test]
fn byte_equality_and_copy() {
    assert!(bytes_eq(b"abc", b"abc"));
    assert!(!bytes_eq(b"abc", b"abd"));
    assert!(!bytes_eq(b"abc", b"ab"));
    assert!(bytes_eq(b"", b""));
    assert_eq!(copy_bytes(b"xyz"), b"xyz".to_vec());
}
