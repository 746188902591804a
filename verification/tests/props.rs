//! Behavioural properties on small hand-built models: round trips, error
//! cases, session reuse, penalties, limits and exact fixed-point values.

use word_segmenters::fixlog::log10_q20;
use word_segmenters::{InvalidCharacter, Search, Segmenter};

fn uni(pairs: &[(&str, u64)]) -> Vec<(Vec<u8>, u64)> {
    pairs
        .iter()
        .map(|(w, c)| (w.as_bytes().to_vec(), *c))
        .collect()
}

fn bi(pairs: &[((&str, &str), u64)]) -> Vec<((Vec<u8>, Vec<u8>), u64)> {
    pairs
        .iter()
        .map(|((p, w), c)| ((p.as_bytes().to_vec(), w.as_bytes().to_vec()), *c))
        .collect()
}

fn words(list: &[&str]) -> Vec<Vec<u8>> {
    list.iter().map(|w| w.as_bytes().to_vec()).collect()
}

fn segmented(segmenter: &Segmenter, search: &mut Search, input: &str) -> Vec<String> {
    segmenter.segment(input, search).unwrap();
    search
        .split()
        .iter()
        .map(|w| String::from_utf8(w.clone()).unwrap())
        .collect::<Vec<_>>()
}

/// The model of the round-trip case: a bigram pulls "choose spain" ahead of
/// the unigram-favoured "chooses pain".
fn spain_model() -> Segmenter {
    Segmenter::new(
        uni(&[
            ("choose", 80000),
            ("chooses", 7000),
            ("spain", 20000),
            ("pain", 90000),
        ]),
        bi(&[(("choose", "spain"), 7), (("chooses", "pain"), 0)]),
    )
}

#[test]
fn test_round_trip_bigram_model() {
    let segmenter = spain_model();
    let mut search = Search::default();
    assert_eq!(
        segmented(&segmenter, &mut search, "choosespain"),
        ["choose", "spain"]
    );
}

#[test]
fn test_empty_input() {
    let segmenter = spain_model();
    let mut search = Search::default();
    assert!(segmenter.segment("", &mut search).is_ok());
    assert_eq!(search.split().len(), 0);
}

#[test]
fn test_invalid_character() {
    let segmenter = spain_model();
    let mut search = Search::default();
    assert_eq!(
        segmenter.segment("Choose", &mut search),
        Err(InvalidCharacter)
    );
    assert_eq!(search.split().len(), 0);
    assert_eq!(
        segmenter.segment("choose spain", &mut search),
        Err(InvalidCharacter)
    );
}

#[test]
fn test_digits_permitted() {
    // this model variant permits digits, so a digit is no error
    let segmenter = spain_model();
    let mut search = Search::default();
    assert!(segmenter.segment("choose1", &mut search).is_ok());
}

#[test]
fn test_session_reuse() {
    let segmenter = spain_model();
    let mut search = Search::default();
    let first = segmented(&segmenter, &mut search, "choosespain");
    let second = segmented(&segmenter, &mut search, "choosespain");
    assert_eq!(first, second);
    // and reuse with different inputs does not leak state either
    let other = segmented(&segmenter, &mut search, "pain");
    assert_eq!(other, ["pain"]);
    let third = segmented(&segmenter, &mut search, "choosespain");
    assert_eq!(first, third);
}

#[test]
fn test_oov_penalty_monotone() {
    // neither string is a word nor decomposes into words: the shorter one
    // must never score worse
    let segmenter = spain_model();
    let shorter = segmenter.score_sentence(&words(&["zzq"])).unwrap();
    let longer = segmenter.score_sentence(&words(&["zzqx"])).unwrap();
    assert!(shorter >= longer);
    assert_eq!(shorter, -4589282);
    assert_eq!(longer, -6957904);
}

#[test]
fn test_score_sentence_values() {
    let segmenter = spain_model();
    // the bigram estimate cancels the unigram cost of "choose" exactly
    assert_eq!(
        segmenter.score_sentence(&words(&["choose", "spain"])),
        Some(0)
    );
    assert_eq!(
        segmenter.score_sentence(&words(&["chooses", "pain"])),
        Some(-1876523)
    );
    assert_eq!(segmenter.score_sentence(&words(&["choose"])), Some(-410387));
}

#[test]
fn test_score_sentence_empty() {
    let segmenter = spain_model();
    assert_eq!(segmenter.score_sentence(&Vec::new()), None);
}

#[test]
fn test_fixlog_values() {
    assert_eq!(log10_q20(1), 0);
    assert_eq!(log10_q20(10), 1048576);
    assert_eq!(log10_q20(100), 2097153);
    assert_eq!(log10_q20(1000000), 6291459);
    assert_eq!(log10_q20(7), 886149);
}

#[test]
fn test_duplicate_keys_override() {
    // a later pair overrides an earlier one; the total still sums both
    let segmenter = Segmenter::new(uni(&[("a", 5), ("a", 7)]), Vec::new());
    assert_eq!(
        segmenter.score_sentence(&words(&["a"])),
        Some(886149 - 1131603)
    );
}

#[test]
fn test_zero_weight_dropped() {
    // a zero-weight word is no vocabulary entry: it pays the length penalty
    let segmenter = Segmenter::new(uni(&[("b", 5), ("a", 0)]), Vec::new());
    assert_eq!(segmenter.score_sentence(&words(&["a"])), Some(-146584));
}

#[test]
fn test_limit_bounds_word_length() {
    let mut segmenter = Segmenter::new(uni(&[("a", 100), ("b", 100), ("ab", 1000)]), Vec::new());
    let mut search = Search::default();
    assert_eq!(segmented(&segmenter, &mut search, "ab"), ["ab"]);
    segmenter.set_limit(1);
    assert_eq!(segmented(&segmenter, &mut search, "ab"), ["a", "b"]);
}

#[test]
fn test_limit_zero_commits_nothing() {
    let mut segmenter = Segmenter::new(uni(&[("a", 100)]), Vec::new());
    segmenter.set_limit(0);
    let mut search = Search::default();
    assert!(segmenter.segment("a", &mut search).is_ok());
    assert_eq!(search.split().len(), 0);
}

#[test]
fn test_search_get() {
    let segmenter = spain_model();
    let mut search = Search::default();
    segmenter.segment("choosespain", &mut search).unwrap();
    assert_eq!(search.get(0), Some(&b"choose".to_vec()));
    assert_eq!(search.get(1), Some(&b"spain".to_vec()));
    assert_eq!(search.get(2), None);
}
