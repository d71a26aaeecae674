use crate::text::{human_words, split_human};
use vstd::prelude::*;

verus! {

/// The text in lower case, by full Unicode case mapping.
pub uninterp spec fn lower_of(s: Seq<char>) -> Seq<char>;

/// The text transliterated to ASCII.
pub uninterp spec fn ascii_of(s: Seq<char>) -> Seq<char>;

/// Relies on `str::to_lowercase`: the lowercase form of the text, which
/// depends on its characters alone.
#[verifier::external_body]
fn lowercase(s: &str) -> (r: String)
    ensures
        r@ == lower_of(s@),
{
    s.to_lowercase()
}

/// Relies on `deunicode::deunicode`: each character replaced by its nearest
/// ASCII approximation from a fixed table, which depends on the text alone;
/// text made of characters below `0x7f` comes back as it is.
#[verifier::external_body]
fn transliterate(s: &str) -> (r: String)
    ensures
        r@ == ascii_of(s@),
        (forall|i: int| 0 <= i < s@.len() ==> (s@[i] as u32) < 0x7f) ==> r@ == s@,
{
    deunicode::deunicode(s)
}

/// The form in which two words are compared: lower case, then ASCII.
pub open spec fn folded(s: Seq<char>) -> Seq<char> {
    ascii_of(lower_of(s))
}

/// Two texts are equal up to case and diacritics when their folded forms agree.
pub open spec fn same_word(a: Seq<char>, b: Seq<char>) -> bool {
    folded(a) == folded(b)
}

/// A guess is right when its words, in order, are the hidden words up to case
/// and diacritics, and it has exactly as many words.
pub open spec fn guess_is_right(guess: Seq<char>, hidden: Seq<Seq<char>>) -> bool {
    &&& human_words(guess).len() == hidden.len()
    &&& forall|i: int| 0 <= i < hidden.len() ==> same_word(hidden[i], human_words(guess)[i])
}

/// The folded form of a text: lower case, then transliterated to ASCII.
fn fold(s: &str) -> (r: String)
    ensures
        r@ == folded(s@),
{
    let lower = lowercase(s);
    transliterate(lower.as_str())
}

/// Compares two texts ignoring letter case and allowing ASCII equivalents for
/// other characters.
pub fn words_equal(a: &str, b: &str) -> (r: bool)
    ensures
        r == same_word(a@, b@),
{
    fold(a) == fold(b)
}

/// Compares already folded words: true when both lists have the same length
/// and agree place by place.
pub fn folded_words_match(guess: &Vec<String>, hidden: &Vec<String>) -> (r: bool)
    ensures
        r == (guess@.len() == hidden@.len() && forall|i: int|
            0 <= i < hidden@.len() ==> (#[trigger] hidden@[i])@ == guess@[i]@),
{
    if guess.len() != hidden.len() {
        return false;
    }
    let mut i: usize = 0;
    while i < hidden.len()
        invariant
            i <= hidden@.len(),
            guess@.len() == hidden@.len(),
            forall|j: int| 0 <= j < i ==> (#[trigger] hidden@[j])@ == guess@[j]@,
        decreases hidden@.len() - i,
    {
        if hidden[i] != guess[i] {
            return false;
        }
        i = i + 1;
    }
    true
}

/// Checks a free-text guess against the hidden words of a line: the guess
/// must have exactly as many words, each equal to the hidden word at the same
/// place up to case and diacritics.
pub fn is_valid_guess(guess: &str, hidden_words: &[&str]) -> (r: bool)
    ensures
        r == guess_is_right(guess@, hidden_words@.map_values(|w: &str| w@)),
{
    let words = split_human(guess);
    let ghost hidden = hidden_words@.map_values(|w: &str| w@);
    let mut guess_folded: Vec<String> = Vec::new();
    let mut hidden_folded: Vec<String> = Vec::new();
    let mut i: usize = 0;
    while i < words.len()
        invariant
            i <= words@.len(),
            words@.len() == human_words(guess@).len(),
            forall|j: int| 0 <= j < words@.len() ==> (#[trigger] words@[j])@ == human_words(guess@)[j],
            guess_folded@.len() == i,
            forall|j: int| 0 <= j < i ==> (#[trigger] guess_folded@[j])@ == folded(human_words(guess@)[j]),
        decreases words@.len() - i,
    {
        guess_folded.push(fold(words[i]));
        i = i + 1;
    }
    let mut k: usize = 0;
    while k < hidden_words.len()
        invariant
            k <= hidden_words@.len(),
            hidden == hidden_words@.map_values(|w: &str| w@),
            hidden_folded@.len() == k,
            forall|j: int| 0 <= j < k ==> (#[trigger] hidden_folded@[j])@ == folded(hidden[j]),
        decreases hidden_words@.len() - k,
    {
        hidden_folded.push(fold(hidden_words[k]));
        k = k + 1;
    }
    let r = folded_words_match(&guess_folded, &hidden_folded);
    proof {
        if r != guess_is_right(guess@, hidden) {
            if guess_folded@.len() == hidden_folded@.len() {
                if r {
                    assert forall|j: int| 0 <= j < hidden.len() implies same_word(
                        hidden[j],
                        human_words(guess@)[j],
                    ) by {
                        assert(hidden_folded@[j]@ == guess_folded@[j]@);
                    }
                } else {
                    let j = choose|j: int|
                        0 <= j < hidden_folded@.len() && (#[trigger] hidden_folded@[j])@
                            != guess_folded@[j]@;
                    assert(!same_word(hidden[j], human_words(guess@)[j]));
                }
            }
        }
    }
    r
}

/// Comparison of texts up to letter case and diacritics.
pub trait EqUnicodeInsensitive {
    fn eq_unicode_insensitive(&self, rhs: &str) -> bool;
}

impl EqUnicodeInsensitive for str {
    fn eq_unicode_insensitive(&self, rhs: &str) -> (r: bool)
        ensures
            r == same_word(self@, rhs@),
    {
        words_equal(self, rhs)
    }
}

} // verus!
