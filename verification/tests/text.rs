use placard::text::text_words;

fn expect(items: &[(&str, bool)], after: bool) -> (Vec<(String, bool)>, bool) {
    (
        items.iter().map(|(w, s)| (w.to_string(), *s)).collect(),
        after,
    )
}

#[test]
fn words_carry_the_space_before_them() {
    assert_eq!(
        text_words("  hello world ", false),
        expect(&[("hello", true), ("world", true)], true)
    );
    assert_eq!(
        text_words("hello \t\n world", false),
        expect(&[("hello", false), ("world", true)], false)
    );
    assert_eq!(text_words("x", true), expect(&[("x", true)], false));
}

#[test]
fn text_without_words_passes_the_pending_space_on() {
    assert_eq!(text_words("", false), expect(&[], false));
    assert_eq!(text_words("", true), expect(&[], true));
    assert_eq!(text_words("   ", false), expect(&[], true));
}

#[test]
fn unicode_whitespace_separates_words() {
    assert_eq!(
        text_words("a\u{00A0}b\u{3000}c", false),
        expect(&[("a", false), ("b", true), ("c", true)], false)
    );
}
