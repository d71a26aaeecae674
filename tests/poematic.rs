use poematic::{hide_words, is_valid_guess, EqUnicodeInsensitive, SplitHuman};

const TEST_TEXT: &str = "Lorem-ipsum? It's __dolor, [sit] amet!";

#[test]
fn test_eq_unicode_insensitive() {
    assert!("lorem ipsum".eq_unicode_insensitive("LOREM IPSUM"));
    assert!("Lorem ipsum".eq_unicode_insensitive("Łóręm ipśum"));
    assert!("\u{0065}".eq_unicode_insensitive("\u{0435}"));
}

#[test]
fn test_split_human() {
    let words = TEST_TEXT.split_human();
    assert_eq!(&words, &["Lorem-ipsum", "It's", "dolor", "sit", "amet"]);
}

#[test]
fn test_hide_words() {
    let n = 3;
    let (sentence, words) = hide_words(TEST_TEXT, n);
    assert_eq!(words.len(), n);
    assert_eq!(
        TEST_TEXT.split_whitespace().count(),
        sentence.split_whitespace().count()
    );

    let n = 2;
    assert_eq!(hide_words("foo, [baz] bar!", n).0.matches("___").count(), n);

    let n = 100;
    assert_eq!(hide_words("hello world", n).1.len(), 2)
}

#[test]
fn test_is_valid_guess() {
    assert!(is_valid_guess("foo", &["foo"]));
    assert!(!is_valid_guess("foo", &["bar"]));
    assert!(is_valid_guess("hello world", &["hello", "world"]));
    assert!(!is_valid_guess("hello", &["hello", "world"]));
    assert!(!is_valid_guess("hello world foo", &["hello", "world"]));
}
