use poematic::compare::folded_words_match;
use poematic::{hide_picked, hide_words, is_valid_guess, split_human, words_equal};

fn blank_runs(s: &str) -> usize {
    let mut runs = 0;
    let mut inside = false;
    for c in s.chars() {
        if c == '_' && !inside {
            runs += 1;
        }
        inside = c == '_';
    }
    runs
}

#[test]
fn words_equal_ignores_diacritics_and_case() {
    assert!(words_equal("Zęby", "żeby"));
    assert!(words_equal("lorem ipsum", "LOREM IPSUM"));
    assert!(!words_equal("foo", "bar"));
}

#[test]
fn words_equal_needs_transliteration() {
    assert!(words_equal("é", "e"));
    assert!(!words_equal("é", "f"));
}

#[test]
fn guess_order_and_length_matter() {
    assert!(is_valid_guess("hello world", &["hello", "world"]));
    assert!(!is_valid_guess("world hello", &["hello", "world"]));
    assert!(!is_valid_guess("hello", &["hello", "world"]));
    assert!(is_valid_guess("  HELLO,   World! ", &["hello", "world"]));
    assert!(is_valid_guess("", &[]));
    assert!(!is_valid_guess("--", &[]));
}

#[test]
fn tokenizer_trims_edges_only() {
    let words = split_human("Lorem-ipsum? It's dolor, sit amet!");
    assert_eq!(words, vec!["Lorem-ipsum", "It's", "dolor", "sit", "amet"]);
}

#[test]
fn tokenizer_keeps_empty_cores() {
    let words = split_human("\tfoo 123  -- żeby\n");
    assert_eq!(words, vec!["foo", "", "", "żeby"]);
    assert!(split_human("   ").is_empty());
    assert!(split_human("").is_empty());
}

#[test]
fn hide_two_of_three_words() {
    let (display, hidden) = hide_words("foo, [baz] bar!", 2);
    assert_eq!(blank_runs(&display), 2);
    assert_eq!(hidden.len(), 2);
    let all = ["foo", "baz", "bar"];
    let first = all.iter().position(|w| *w == hidden[0]).unwrap();
    let second = all.iter().position(|w| *w == hidden[1]).unwrap();
    assert!(first < second);
}

#[test]
fn hide_more_than_available_blanks_everything() {
    let (display, hidden) = hide_words("hello world", 100);
    assert_eq!(hidden, vec!["hello", "world"]);
    assert_eq!(display, "_____ _____");
}

#[test]
fn hide_zero_is_identity() {
    let (display, hidden) = hide_words("foo, [baz] bar!", 0);
    assert_eq!(display, "foo, [baz] bar!");
    assert!(hidden.is_empty());
}

#[test]
fn hide_skips_ineligible_tokens() {
    let (display, hidden) = hide_words("123 -- foo!", 5);
    assert_eq!(display, "123 -- ___!");
    assert_eq!(hidden, vec!["foo"]);
    let (display, hidden) = hide_words("?! 42", 3);
    assert_eq!(display, "?! 42");
    assert!(hidden.is_empty());
}

#[test]
fn blank_counts_characters_not_bytes() {
    let (display, hidden) = hide_words("Zęby café", 2);
    assert_eq!(display, "____ ____");
    assert_eq!(hidden, vec!["Zęby", "café"]);
}

#[test]
fn hide_picked_is_exact() {
    let (display, hidden) = hide_picked("Lorem-ipsum? It's __dolor, [sit] amet!", &vec![3, 1, 9]);
    assert_eq!(display, "Lorem-ipsum? ____ __dolor, [___] amet!");
    assert_eq!(hidden, vec!["It's", "sit"]);
}

#[test]
fn hide_picked_counts_eligible_words_only() {
    let (display, hidden) = hide_picked("a 12 żeby", &vec![1, 1]);
    assert_eq!(display, "a 12 ____");
    assert_eq!(hidden, vec!["żeby"]);
    let (display, hidden) = hide_picked("a 12 żeby", &vec![]);
    assert_eq!(display, "a 12 żeby");
    assert!(hidden.is_empty());
}

#[test]
fn hidden_words_stay_in_reading_order() {
    for _ in 0..20 {
        let (display, hidden) = hide_words("one two three four five", 3);
        assert_eq!(hidden.len(), 3);
        assert_eq!(blank_runs(&display), 3);
        let all = ["one", "two", "three", "four", "five"];
        let places: Vec<usize> = hidden
            .iter()
            .map(|h| all.iter().position(|w| w == h).unwrap())
            .collect();
        assert!(places.windows(2).all(|p| p[0] < p[1]));
    }
}

#[test]
fn folded_words_match_is_positional() {
    let a = vec!["hello".to_string(), "world".to_string()];
    let b = vec!["world".to_string(), "hello".to_string()];
    assert!(folded_words_match(&a, &a.clone()));
    assert!(!folded_words_match(&a, &b));
    assert!(!folded_words_match(&a, &a[..1].to_vec()));
}

#[test]
fn hide_words_clamps_the_largest_count() {
    let (display, hidden) = hide_words("hello world", usize::MAX);
    assert_eq!(hidden, vec!["hello", "world"]);
    assert_eq!(display, "_____ _____");
    let (display, hidden) = hide_words("", usize::MAX);
    assert_eq!(display, "");
    assert!(hidden.is_empty());
    let (display, hidden) = hide_words("123 -- ?!", usize::MAX);
    assert_eq!(display, "123 -- ?!");
    assert!(hidden.is_empty());
}

#[test]
fn hiding_everything_leaves_no_letter() {
    let (display, hidden) = hide_words("It's 12 ab-cd! --", 5);
    assert_eq!(display, "____ 12 _____! --");
    assert_eq!(hidden, vec!["It's", "ab-cd"]);
    assert!(!display.chars().any(char::is_alphabetic));
}
