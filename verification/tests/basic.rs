//! The segmenter run against the regression corpus: each case joins a known
//! word sequence and expects `segment` to recover it against a model of
//! realistic English word frequencies.

use word_segmenters::{Search, Segmenter};

/// Unigram counts in the spirit of large English web corpora, covering every
/// word of the test cases.
const COUNTS: &[(&str, u64)] = &[
    ("the", 23135851162),
    ("of", 13151942776),
    ("and", 12997637966),
    ("to", 12136980858),
    ("a", 9081174698),
    ("in", 8469404971),
    ("for", 5933321709),
    ("is", 4705743816),
    ("on", 3750423199),
    ("that", 3400031103),
    ("this", 3228469771),
    ("with", 3183110675),
    ("it", 2813163874),
    ("not", 2633487141),
    ("or", 2590739907),
    ("as", 2247431740),
    ("all", 2022459848),
    ("was", 1483428678),
    ("we", 1390661912),
    ("from", 2275595356),
    ("an", 1518266684),
    ("he", 1043444153),
    ("his", 894968076),
    ("but", 999899654),
    ("one", 993536631),
    ("out", 771742700),
    ("time", 908705570),
    ("now", 516000000),
    ("who", 824949266),
    ("there", 701170205),
    ("when", 607737002),
    ("down", 378825262),
    ("yet", 169871445),
    ("so", 1203646432),
    ("good", 564723929),
    ("best", 453319831),
    ("end", 458162024),
    ("small", 327377270),
    ("far", 186288482),
    ("day", 375872000),
    ("were", 669590000),
    ("are", 2393614870),
    ("be", 2398724162),
    ("into", 1111436590),
    ("human", 207880000),
    ("found", 354800000),
    ("means", 160500000),
    ("art", 300000000),
    ("sun", 70000000),
    ("test", 584800000),
    ("course", 263000000),
    ("events", 205500000),
    ("becomes", 70360000),
    ("necessary", 145000000),
    ("truth", 87605000),
    ("universally", 5900000),
    ("acknowledged", 12440000),
    ("bright", 44345000),
    ("cold", 77235000),
    ("april", 235000000),
    ("clocks", 8456000),
    ("striking", 12587000),
    ("thirteen", 7800000),
    ("times", 300000000),
    ("worst", 64885000),
    ("age", 240000000),
    ("wisdom", 24400000),
    ("foolishness", 1400000),
    ("choose", 120000000),
    ("spain", 110000000),
    ("represents", 60000000),
    ("experts", 80000000),
    ("exchange", 180000000),
    ("speed", 165000000),
    ("gregor", 2500000),
    ("samsa", 500000),
    ("awoke", 2800000),
    ("morning", 135000000),
    ("uneasy", 4000000),
    ("dreams", 37000000),
    ("himself", 100000000),
    ("transformed", 14500000),
    ("bed", 100000000),
    ("gigantic", 6500000),
    ("insect", 11000000),
    ("hole", 45000000),
    ("ground", 130000000),
    ("lived", 50000000),
    ("hobbit", 2000000),
    ("nasty", 10000000),
    ("dirty", 25000000),
    ("wet", 40000000),
    ("filled", 60000000),
    ("ends", 45000000),
    ("worms", 6000000),
    ("oozy", 100000),
    ("smell", 28000000),
    ("nor", 130000000),
    ("dry", 60000000),
    ("bare", 18000000),
    ("sandy", 30000000),
    ("nothing", 140000000),
    ("sit", 60000000),
    ("eat", 70000000),
    ("comfort", 40000000),
    ("uncharted", 1500000),
    ("backwaters", 300000),
    ("unfashionable", 350000),
    ("western", 130000000),
    ("spiral", 12000000),
    ("arm", 60000000),
    ("galaxy", 25000000),
    ("lies", 50000000),
    ("un", 20000000),
    ("regarded", 20000000),
    ("yellow", 75000000),
];

fn model() -> Segmenter {
    let unigrams: Vec<(Vec<u8>, u64)> = COUNTS
        .iter()
        .map(|(w, c)| (w.as_bytes().to_vec(), *c))
        .collect();
    Segmenter::new(unigrams, Vec::new())
}

fn segmented(segmenter: &Segmenter, search: &mut Search, input: &str) -> Vec<String> {
    segmenter.segment(input, search).unwrap();
    search
        .split()
        .iter()
        .map(|w| String::from_utf8(w.clone()).unwrap())
        .collect::<Vec<_>>()
}

fn assert_segmented(words: &[&str]) {
    let segmenter = model();
    let mut search = Search::default();
    let joined = words.join("");
    let got = segmented(&segmenter, &mut search, &joined);
    assert_eq!(got, words);
}

#[test]
fn test_segment_0() {
    assert_segmented(&[
        "choose", "spain",
    ]);
}
#[test]
fn test_segment_1() {
    assert_segmented(&[
        "this", "is", "a", "test",
    ]);
}
#[test]
fn test_segment_2() {
    assert_segmented(&[
        "when", "in", "the", "course", "of", "human", "events", "it", "becomes", "necessary",
    ]);
}
#[test]
fn test_segment_3() {
    assert_segmented(&[
        "who", "represents",
    ]);
}
#[test]
fn test_segment_4() {
    assert_segmented(&[
        "experts", "exchange",
    ]);
}
#[test]
fn test_segment_5() {
    assert_segmented(&[
        "speed", "of", "art",
    ]);
}
#[test]
fn test_segment_6() {
    assert_segmented(&[
        "now", "is", "the", "time", "for", "all", "good",
    ]);
}
#[test]
fn test_segment_7() {
    assert_segmented(&[
        "it", "is", "a", "truth", "universally", "acknowledged",
    ]);
}
#[test]
fn test_segment_8() {
    assert_segmented(&[
        "it", "was", "a", "bright", "cold", "day", "in", "april", "and", "the", "clocks",
        "were", "striking", "thirteen",
    ]);
}
#[test]
fn test_segment_9() {
    assert_segmented(&[
        "it", "was", "the", "best", "of", "times", "it", "was", "the", "worst", "of", "times",
        "it", "was", "the", "age", "of", "wisdom", "it", "was", "the", "age", "of",
        "foolishness",
    ]);
}
#[test]
fn test_segment_10() {
    assert_segmented(&[
        "as", "gregor", "samsa", "awoke", "one", "morning", "from", "uneasy", "dreams", "he",
        "found", "himself", "transformed", "in", "his", "bed", "into", "a", "gigantic",
        "insect",
    ]);
}
#[test]
fn test_segment_11() {
    assert_segmented(&[
        "in", "a", "hole", "in", "the", "ground", "there", "lived", "a", "hobbit", "not", "a",
        "nasty", "dirty", "wet", "hole", "filled", "with", "the", "ends", "of", "worms", "and",
        "an", "oozy", "smell", "nor", "yet", "a", "dry", "bare", "sandy", "hole", "with",
        "nothing", "in", "it", "to", "sit", "down", "on", "or", "to", "eat", "it", "was", "a",
        "hobbit", "hole", "and", "that", "means", "comfort",
    ]);
}
#[test]
fn test_segment_12() {
    assert_segmented(&[
        "far", "out", "in", "the", "uncharted", "backwaters", "of", "the", "unfashionable",
        "end", "of", "the", "western", "spiral", "arm", "of", "the", "galaxy", "lies", "a",
        "small", "un", "regarded", "yellow", "sun",
    ]);
}

#[test]
fn test_multi_window_stability() {
    // six copies of a fourteen-word sentence span more than one window; the
    // driver must stitch the windows back into the plain repetition
    let words: Vec<&str> = [
        "it", "was", "a", "bright", "cold", "day", "in", "april", "and", "the", "clocks",
        "were", "striking", "thirteen",
    ]
        .iter()
        .copied()
        .cycle()
        .take(14 * 6)
        .collect();
    assert_segmented(&words);
}

#[test]
fn test_check_segments() {
    let segmenter = model();
    let mut search = Search::default();
    let good: Vec<Vec<u8>> = ["choose", "spain"]
        .iter()
        .map(|w| w.as_bytes().to_vec())
        .collect();
    assert!(word_segmenters::check_segments(&good, &mut search, &segmenter));
    let bad: Vec<Vec<u8>> = ["Choose", "Spain"]
        .iter()
        .map(|w| w.as_bytes().to_vec())
        .collect();
    assert!(!word_segmenters::check_segments(&bad, &mut search, &segmenter));
}
