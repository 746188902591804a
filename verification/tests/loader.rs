//! Frequency-table line parsing.

use word_segmenters::loader::{find_byte, parse_bigram_line, parse_u64, parse_unigram_line};

#[test]
fn test_parse_u64() {
    assert_eq!(parse_u64(b"0"), Some(0));
    assert_eq!(parse_u64(b"23135851162"), Some(23135851162));
    assert_eq!(parse_u64(b"18446744073709551615"), Some(u64::MAX));
    assert_eq!(parse_u64(b"18446744073709551616"), None);
    assert_eq!(parse_u64(b""), None);
    assert_eq!(parse_u64(b"12a"), None);
    assert_eq!(parse_u64(b"-3"), None);
}

#[test]
fn test_parse_unigram_line() {
    assert_eq!(
        parse_unigram_line(b"word\t123"),
        Some((b"word".to_vec(), 123))
    );
    assert_eq!(parse_unigram_line(b"\t7"), Some((Vec::new(), 7)));
    assert_eq!(parse_unigram_line(b"word 123"), None);
    assert_eq!(parse_unigram_line(b"word\t"), None);
    assert_eq!(parse_unigram_line(b"word\tx2"), None);
}

#[test]
fn test_parse_bigram_line() {
    assert_eq!(
        parse_bigram_line(b"the cat\t42"),
        Some((b"the".to_vec(), b"cat".to_vec(), 42))
    );
    assert_eq!(parse_bigram_line(b"thecat\t42"), None);
    assert_eq!(parse_bigram_line(b"the cat 42"), None);
    assert_eq!(parse_bigram_line(b"the cat\tx"), None);
}

#[test]
fn test_find_byte() {
    assert_eq!(find_byte(b"abcb", b'b'), Some(1));
    assert_eq!(find_byte(b"abc", b'z'), None);
}
