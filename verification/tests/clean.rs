//! Input validation: only lowercase ASCII letters and digits pass.

use word_segmenters::Ascii;

#[test]
fn test_clean() {
    Ascii::new("Can't buy me love!").unwrap_err();
    let text = Ascii::new("cantbuymelove").unwrap();
    assert_eq!(text.word(0, text.len()), b"cantbuymelove".to_vec());
    let text_with_numbers = Ascii::new("c4ntbuym3l0v3").unwrap();
    assert_eq!(
        text_with_numbers.word(0, text_with_numbers.len()),
        b"c4ntbuym3l0v3".to_vec()
    );
}

#[test]
fn lib_test_clean() {
    Ascii::new("Can't buy me love!").unwrap_err();
    let text = Ascii::new("cantbuymelove").unwrap();
    assert_eq!(text.word(0, text.len()), b"cantbuymelove".to_vec());
}
