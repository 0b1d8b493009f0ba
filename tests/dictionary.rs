use cryptopals::Dictionary;

#[test]
fn hits_count_whole_words() {
    let d = Dictionary::new("the\r\ncat\nsat\n");
    assert_eq!(d.hits("the cat sat on the mat"), 4);
    assert_eq!(d.hits("  the   cats  "), 1);
    assert_eq!(d.hits(""), 0);
    assert_eq!(d.hits("The Cat"), 0);
}

#[test]
fn hits_split_on_any_whitespace() {
    let d = Dictionary::new("a\nb");
    assert_eq!(d.hits("a\tb\na"), 3);
}

#[test]
fn hits_never_exceed_tokens() {
    let d = Dictionary::new("x\ny\nz");
    let text = "x y z w x";
    assert!(d.hits(text) <= text.split_whitespace().count() as u32);
    assert_eq!(d.hits(text), 4);
}

#[test]
fn letter_score_sums_corpus_counts() {
    let d = Dictionary::new("abc\naab\n");
    // a: 3, b: 2, c: 1
    assert_eq!(d.letter_score("a"), 3);
    assert_eq!(d.letter_score("cab"), 6);
    assert_eq!(d.letter_score("zz z"), 0);
    assert_eq!(d.letter_score(""), 0);
}

#[test]
fn empty_lines_are_never_hits() {
    let d = Dictionary::new("\n\nword\n");
    assert_eq!(d.hits(" \n "), 0);
    assert_eq!(d.hits("word"), 1);
}

#[test]
fn hits_split_on_unicode_whitespace() {
    let d = Dictionary::new("a\nb");
    let text = "a\u{a0}b\u{0b}a\u{3000}b";
    assert_eq!(d.hits(text), 4);
    assert_eq!(d.hits(text), text.split_whitespace().count() as u32);
}
