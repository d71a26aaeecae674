use vstd::prelude::*;

verus! {

/// The Unicode `White_Space` characters, which `char::is_whitespace` accepts.
pub open spec fn is_space(c: char) -> bool {
    let u = c as u32;
    (0x09 <= u <= 0x0d) || u == 0x20 || u == 0x85 || u == 0xa0 || u == 0x1680 || (0x2000 <= u
        <= 0x200a) || u == 0x2028 || u == 0x2029 || u == 0x202f || u == 0x205f || u == 0x3000
}

/// Whether a character has the Unicode `Alphabetic` property.
pub uninterp spec fn alphabetic(c: char) -> bool;

/// Relies on `char::is_alphabetic`: true exactly on the characters of the
/// Unicode `Alphabetic` property, a function of the character alone; among
/// ASCII characters, on the letters `a..=z` and `A..=Z` only.
#[verifier::external_body]
fn char_is_alphabetic(c: char) -> (r: bool)
    ensures
        r == alphabetic(c),
        (c as u32) < 0x80 ==> (r <==> ('a' <= c <= 'z' || 'A' <= c <= 'Z')),
{
    c.is_alphabetic()
}

/// Whether `c` is whitespace, as `char::is_whitespace` decides it.
pub fn char_is_space(c: char) -> (r: bool)
    ensures
        r == is_space(c),
{
    let u = c as u32;
    (0x09 <= u && u <= 0x0d) || u == 0x20 || u == 0x85 || u == 0xa0 || u == 0x1680 || (0x2000 <= u
        && u <= 0x200a) || u == 0x2028 || u == 0x2029 || u == 0x202f || u == 0x205f || u == 0x3000
}

/// Does a whitespace-delimited token start at position `i`?
pub open spec fn starts_token(s: Seq<char>, i: int) -> bool {
    0 <= i < s.len() && !is_space(s[i]) && (i == 0 || is_space(s[i - 1]))
}

/// The start positions of the tokens that begin before position `n`, in order.
pub open spec fn token_starts_upto(s: Seq<char>, n: int) -> Seq<int>
    decreases n,
{
    if n <= 0 {
        seq![]
    } else if starts_token(s, n - 1) {
        token_starts_upto(s, n - 1).push(n - 1)
    } else {
        token_starts_upto(s, n - 1)
    }
}

/// The start positions of all tokens of `s`, left to right.
pub open spec fn token_starts(s: Seq<char>) -> Seq<int> {
    token_starts_upto(s, s.len() as int)
}

/// The first position at or after `i` that holds whitespace, or the end.
pub open spec fn token_end(s: Seq<char>, i: int) -> int
    decreases s.len() - i,
{
    if i < 0 || i >= s.len() {
        s.len() as int
    } else if is_space(s[i]) {
        i
    } else {
        token_end(s, i + 1)
    }
}

/// The first alphabetic position in `[i, b)`, or `b`.
pub open spec fn core_start(s: Seq<char>, i: int, b: int) -> int
    decreases b - i,
{
    if i >= b {
        b
    } else if alphabetic(s[i]) {
        i
    } else {
        core_start(s, i + 1, b)
    }
}

/// The smallest `k` in `[a, j]` such that `[k, j)` holds nothing alphabetic.
pub open spec fn core_end(s: Seq<char>, a: int, j: int) -> int
    decreases j - a,
{
    if j <= a {
        a
    } else if alphabetic(s[j - 1]) {
        j
    } else {
        core_end(s, a, j - 1)
    }
}

/// The span of the core of the token starting at `a`: the token with its
/// non-alphabetic characters trimmed off both ends.
pub open spec fn core_span(s: Seq<char>, a: int) -> (int, int) {
    let c = core_start(s, a, token_end(s, a));
    (c, core_end(s, c, token_end(s, a)))
}

/// The text of the core of the token starting at `a`.
pub open spec fn core_text(s: Seq<char>, a: int) -> Seq<char> {
    s.subrange(core_span(s, a).0, core_span(s, a).1)
}

/// The cores of all tokens of `s`, left to right, empty ones included.
pub open spec fn human_words(s: Seq<char>) -> Seq<Seq<char>> {
    token_starts(s).map_values(|a: int| core_text(s, a))
}

pub proof fn lemma_token_end_bounds(s: Seq<char>, i: int)
    requires
        0 <= i <= s.len(),
    ensures
        i <= token_end(s, i) <= s.len(),
        forall|k: int| i <= k < token_end(s, i) ==> !is_space(s[k]),
    decreases s.len() - i,
{
    if i < s.len() && !is_space(s[i]) {
        lemma_token_end_bounds(s, i + 1);
    }
}

pub proof fn lemma_core_start_bounds(s: Seq<char>, i: int, b: int)
    requires
        i <= b,
    ensures
        i <= core_start(s, i, b) <= b,
    decreases b - i,
{
    if i < b && !alphabetic(s[i]) {
        lemma_core_start_bounds(s, i + 1, b);
    }
}

pub proof fn lemma_core_end_bounds(s: Seq<char>, a: int, j: int)
    requires
        a <= j,
    ensures
        a <= core_end(s, a, j) <= j,
    decreases j - a,
{
    if a < j && !alphabetic(s[j - 1]) {
        lemma_core_end_bounds(s, a, j - 1);
    }
}

pub proof fn lemma_core_span_bounds(s: Seq<char>, a: int)
    requires
        0 <= a <= s.len(),
    ensures
        a <= core_span(s, a).0 <= core_span(s, a).1 <= token_end(s, a) <= s.len(),
{
    lemma_token_end_bounds(s, a);
    lemma_core_start_bounds(s, a, token_end(s, a));
    lemma_core_end_bounds(s, core_start(s, a, token_end(s, a)), token_end(s, a));
}

proof fn lemma_token_starts_bounds(s: Seq<char>, n: int)
    requires
        n <= s.len(),
    ensures
        forall|j: int|
            0 <= j < token_starts_upto(s, n).len() ==> starts_token(s, #[trigger] token_starts_upto(
                s,
                n,
            )[j]) && token_starts_upto(s, n)[j] < n,
    decreases n,
{
    if n > 0 {
        lemma_token_starts_bounds(s, n - 1);
        let p = token_starts_upto(s, n - 1);
        if starts_token(s, n - 1) {
            assert forall|j: int| 0 <= j < p.len() + 1 implies starts_token(
                s,
                #[trigger] p.push(n - 1)[j],
            ) && p.push(n - 1)[j] < n by {
                if j < p.len() {
                    assert(p.push(n - 1)[j] == p[j]);
                }
            }
        }
    }
}

/// The characters of the string, in order.
pub(crate) fn chars_of(s: &str) -> (r: Vec<char>)
    ensures
        r@ == s@,
{
    broadcast use vstd::string::axiom_spec_iter;

    let mut r: Vec<char> = Vec::new();
    for c in it: s.chars()
        invariant
            it.seq() == s@,
            r@ == it.seq().take(it.index() as int),
    {
        assert(it.seq().take(it.index() + 1) == it.seq().take(it.index() as int).push(c));
        r.push(c);
    }
    assert(s@.take(s@.len() as int) == s@);
    r
}

/// Relies on `String::push`: appends one character.
pub assume_specification[ String::push ](s: &mut String, ch: char)
    ensures
        final(s)@ == old(s)@.push(ch),
;

/// The string made of `v[a..b]`.
pub fn string_of_range(v: &Vec<char>, a: usize, b: usize) -> (r: String)
    requires
        a <= b <= v.len(),
    ensures
        r@ == v@.subrange(a as int, b as int),
{
    let mut r = String::new();
    let mut i: usize = a;
    while i < b
        invariant
            a <= i <= b <= v.len(),
            r@ == v@.subrange(a as int, i as int),
        decreases b - i,
    {
        r.push(v[i]);
        assert(v@.subrange(a as int, i + 1) == v@.subrange(a as int, i as int).push(v@[i as int]));
        i = i + 1;
    }
    r
}

/// The end of the token that starts at `a`.
fn find_token_end(v: &Vec<char>, a: usize) -> (r: usize)
    requires
        a <= v.len(),
    ensures
        r == token_end(v@, a as int),
{
    let mut i: usize = a;
    while i < v.len() && !char_is_space(v[i])
        invariant
            a <= i <= v.len(),
            token_end(v@, a as int) == token_end(v@, i as int),
        decreases v.len() - i,
    {
        i = i + 1;
    }
    i
}

/// The span of the core of the token that starts at `a`.
pub fn find_core(v: &Vec<char>, a: usize) -> (r: (usize, usize))
    requires
        a <= v.len(),
    ensures
        r.0 == core_span(v@, a as int).0,
        r.1 == core_span(v@, a as int).1,
{
    let b = find_token_end(v, a);
    proof {
        lemma_token_end_bounds(v@, a as int);
    }
    let mut c: usize = a;
    while c < b && !char_is_alphabetic(v[c])
        invariant
            a <= c <= b <= v.len(),
            core_start(v@, a as int, b as int) == core_start(v@, c as int, b as int),
        decreases b - c,
    {
        c = c + 1;
    }
    let mut d: usize = b;
    while d > c && !char_is_alphabetic(v[d - 1])
        invariant
            c <= d <= b <= v.len(),
            core_end(v@, c as int, b as int) == core_end(v@, c as int, d as int),
        decreases d,
    {
        d = d - 1;
    }
    (c, d)
}

/// The start positions of the tokens of `v`, left to right.
pub fn find_token_starts(v: &Vec<char>) -> (r: Vec<usize>)
    ensures
        r@.len() == token_starts(v@).len(),
        forall|j: int| 0 <= j < r@.len() ==> r@[j] as int == #[trigger] token_starts(v@)[j],
{
    let mut r: Vec<usize> = Vec::new();
    let mut i: usize = 0;
    while i < v.len()
        invariant
            i <= v.len(),
            r@.len() == token_starts_upto(v@, i as int).len(),
            forall|j: int|
                0 <= j < r@.len() ==> r@[j] as int == #[trigger] token_starts_upto(v@, i as int)[j],
        decreases v.len() - i,
    {
        let starts = !char_is_space(v[i]) && (i == 0 || char_is_space(v[i - 1]));
        if starts {
            r.push(i);
        }
        i = i + 1;
    }
    r
}

/// Splits a line on whitespace and trims the non-alphabetic characters off
/// both ends of each token. Tokens left empty are kept, so that positions stay
/// aligned with the tokens of the line.
pub fn split_human<'a>(s: &'a str) -> (r: Vec<&'a str>)
    ensures
        r@.len() == human_words(s@).len(),
        forall|j: int| 0 <= j < r@.len() ==> (#[trigger] r@[j])@ == human_words(s@)[j],
{
    let v = chars_of(s);
    let starts = find_token_starts(&v);
    proof {
        lemma_token_starts_bounds(v@, v@.len() as int);
    }
    let mut r: Vec<&'a str> = Vec::new();
    let mut k: usize = 0;
    while k < starts.len()
        invariant
            k <= starts.len(),
            v@ == s@,
            starts@.len() == token_starts(v@).len(),
            forall|j: int| 0 <= j < starts@.len() ==> starts@[j] as int == #[trigger] token_starts(v@)[j],
            forall|j: int| 0 <= j < starts@.len() ==> starts_token(v@, #[trigger] token_starts(v@)[j]),
            r@.len() == k,
            forall|j: int| 0 <= j < k ==> (#[trigger] r@[j])@ == human_words(s@)[j],
        decreases starts.len() - k,
    {
        assert(starts_token(v@, token_starts(v@)[k as int]));
        let (c, d) = find_core(&v, starts[k]);
        proof {
            lemma_core_span_bounds(v@, starts[k as int] as int);
        }
        let w = s.substring_char(c, d);
        r.push(w);
        k = k + 1;
    }
    r
}

} // verus!

verus! {

/// Splitting a line into human words.
pub trait SplitHuman {
    fn split_human(&self) -> Vec<&str>;
}

impl SplitHuman for str {
    fn split_human(&self) -> (r: Vec<&str>)
        ensures
            r@.len() == human_words(self@).len(),
            forall|j: int| 0 <= j < r@.len() ==> (#[trigger] r@[j])@ == human_words(self@)[j],
    {
        split_human(self)
    }
}

} // verus!
