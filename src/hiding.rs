use crate::text::{
    alphabetic, char_is_space, chars_of, core_end, core_span, core_start, core_text, find_core,
    is_space, lemma_core_span_bounds, lemma_token_end_bounds, starts_token, string_of_range,
    token_end,
};
use rand::seq::IteratorRandom;
use vstd::prelude::*;

verus! {

/// A token is eligible for hiding when its core is not empty.
pub open spec fn has_core(s: Seq<char>, a: int) -> bool {
    core_span(s, a).0 < core_span(s, a).1
}

/// The start positions of the eligible tokens that begin before `n`, in order.
pub open spec fn eligible_upto(s: Seq<char>, n: int) -> Seq<int>
    decreases n,
{
    if n <= 0 {
        seq![]
    } else if starts_token(s, n - 1) && has_core(s, n - 1) {
        eligible_upto(s, n - 1).push(n - 1)
    } else {
        eligible_upto(s, n - 1)
    }
}

/// The start positions of the eligible tokens of `s`, left to right.
pub open spec fn eligible_starts(s: Seq<char>) -> Seq<int> {
    eligible_upto(s, s.len() as int)
}

pub open spec fn eligible_word_count(s: Seq<char>) -> nat {
    eligible_starts(s).len()
}

/// The cores of the eligible tokens of `s`, left to right.
pub open spec fn eligible_words(s: Seq<char>) -> Seq<Seq<char>> {
    eligible_starts(s).map_values(|a: int| core_text(s, a))
}

/// Indices into a sequence of `n` items, strictly ascending.
pub open spec fn is_selection(sel: Seq<usize>, n: int) -> bool {
    &&& forall|i: int, j: int| 0 <= i < j < sel.len() ==> sel[i] < sel[j]
    &&& forall|i: int| 0 <= i < sel.len() ==> sel[i] < n
}

/// The indices below `m` that occur in `picks`, ascending.
pub open spec fn picked_upto(picks: Seq<usize>, m: int) -> Seq<usize>
    decreases m,
{
    if m <= 0 {
        seq![]
    } else if picks.contains((m - 1) as usize) {
        picked_upto(picks, m - 1).push((m - 1) as usize)
    } else {
        picked_upto(picks, m - 1)
    }
}

/// The eligible words of `s` that `picks` names by index, as a selection.
pub open spec fn picked(s: Seq<char>, picks: Seq<usize>) -> Seq<usize> {
    picked_upto(picks, eligible_word_count(s) as int)
}

/// Is position `p` of `s` inside the core of one of the first `m` selected words?
pub open spec fn blanked_by(s: Seq<char>, sel: Seq<usize>, m: int, p: int) -> bool {
    exists|j: int|
        0 <= j < m && core_span(s, eligible_starts(s)[sel[j] as int]).0 <= p < core_span(
            s,
            #[trigger] eligible_starts(s)[sel[j] as int],
        ).1
}

/// `s` with the core of each selected word replaced by one `_` per character.
pub open spec fn blank_out(s: Seq<char>, sel: Seq<usize>) -> Seq<char> {
    Seq::new(s.len(), |p: int| if blanked_by(s, sel, sel.len() as int, p) { '_' } else { s[p] })
}

/// The cores of the selected words, in the order of the selection.
pub open spec fn hidden_of(s: Seq<char>, sel: Seq<usize>) -> Seq<Seq<char>> {
    sel.map_values(|k: usize| core_text(s, eligible_starts(s)[k as int]))
}

/// What hiding the selected words of `s` yields: the display line and the
/// hidden words.
pub open spec fn hides(s: Seq<char>, sel: Seq<usize>, r: (String, Vec<&str>)) -> bool {
    &&& r.0@ == blank_out(s, sel)
    &&& r.1@.len() == sel.len()
    &&& forall|j: int| 0 <= j < sel.len() ==> (#[trigger] r.1@[j])@ == hidden_of(s, sel)[j]
}

proof fn lemma_eligible_bounds(s: Seq<char>, n: int)
    requires
        n <= s.len(),
    ensures
        forall|j: int|
            0 <= j < eligible_upto(s, n).len() ==> {
                let a = #[trigger] eligible_upto(s, n)[j];
                starts_token(s, a) && has_core(s, a) && a < n
            },
        forall|i: int, j: int|
            0 <= i < j < eligible_upto(s, n).len() ==> eligible_upto(s, n)[i] < eligible_upto(
                s,
                n,
            )[j],
    decreases n,
{
    if n > 0 {
        lemma_eligible_bounds(s, n - 1);
        let p = eligible_upto(s, n - 1);
        if starts_token(s, n - 1) && has_core(s, n - 1) {
            assert forall|j: int| 0 <= j < p.len() implies #[trigger] p.push(n - 1)[j] == p[j] by {}
        }
    }
}

/// The start positions of the eligible tokens of `v`, left to right.
fn find_eligible(v: &Vec<char>) -> (r: Vec<usize>)
    ensures
        r@.len() == eligible_starts(v@).len(),
        forall|j: int| 0 <= j < r@.len() ==> r@[j] as int == #[trigger] eligible_starts(v@)[j],
{
    let mut r: Vec<usize> = Vec::new();
    let mut i: usize = 0;
    while i < v.len()
        invariant
            i <= v.len(),
            r@.len() == eligible_upto(v@, i as int).len(),
            forall|j: int|
                0 <= j < r@.len() ==> r@[j] as int == #[trigger] eligible_upto(v@, i as int)[j],
        decreases v.len() - i,
    {
        if !char_is_space(v[i]) && (i == 0 || char_is_space(v[i - 1])) {
            let (c, d) = find_core(v, i);
            if c < d {
                r.push(i);
            }
        }
        i = i + 1;
    }
    r
}

/// Replaces the cores of the selected eligible words of `v` by blanks.
fn hide_selection<'a>(line: &'a str, v: &Vec<char>, eligible: &Vec<usize>, sel: &Vec<usize>) -> (r: (
    String,
    Vec<&'a str>,
))
    requires
        v@ == line@,
        eligible@.len() == eligible_starts(v@).len(),
        forall|j: int|
            0 <= j < eligible@.len() ==> eligible@[j] as int == #[trigger] eligible_starts(v@)[j],
        is_selection(sel@, eligible@.len() as int),
    ensures
        hides(v@, sel@, r),
{
    proof {
        lemma_eligible_bounds(v@, v@.len() as int);
    }
    let ghost s = v@;
    let mut out: Vec<char> = v.clone();
    let mut hidden: Vec<&'a str> = Vec::new();
    let mut j: usize = 0;
    while j < sel.len()
        invariant
            s == v@,
            s == line@,
            j <= sel.len(),
            eligible@.len() == eligible_starts(s).len(),
            forall|i: int|
                0 <= i < eligible@.len() ==> eligible@[i] as int == #[trigger] eligible_starts(
                    s,
                )[i],
            forall|i: int|
                0 <= i < eligible_starts(s).len() ==> 0 <= #[trigger] eligible_starts(s)[i]
                    < s.len(),
            is_selection(sel@, eligible@.len() as int),
            out@.len() == s.len(),
            forall|p: int|
                0 <= p < s.len() ==> #[trigger] out@[p] == if blanked_by(s, sel@, j as int, p) {
                    '_'
                } else {
                    s[p]
                },
            hidden@.len() == j,
            forall|i: int| 0 <= i < j ==> (#[trigger] hidden@[i])@ == hidden_of(s, sel@)[i],
        decreases sel.len() - j,
    {
        let a = eligible[sel[j]];
        let ghost ea = eligible_starts(s)[sel@[j as int] as int];
        assert(a as int == ea);
        let (c, d) = find_core(v, a);
        proof {
            lemma_core_span_bounds(s, a as int);
        }
        hidden.push(line.substring_char(c, d));
        let mut q: usize = c;
        while q < d
            invariant
                s == v@,
                c <= q <= d <= s.len(),
                out@.len() == s.len(),
                forall|p: int|
                    0 <= p < s.len() ==> #[trigger] out@[p] == if blanked_by(s, sel@, j as int, p)
                        || (c <= p < q) {
                        '_'
                    } else {
                        s[p]
                    },
            decreases d - q,
        {
            out.set(q, '_');
            q = q + 1;
        }
        assert forall|p: int| 0 <= p < s.len() implies blanked_by(s, sel@, j + 1, p) == (
        blanked_by(s, sel@, j as int, p) || (c <= p < d)) by {
            if c <= p < d {
                assert(core_span(s, eligible_starts(s)[sel@[j as int] as int]).0 <= p);
            }
            if blanked_by(s, sel@, j + 1, p) && !(c <= p < d) {
                let w = choose|w: int|
                    0 <= w < j + 1 && core_span(s, eligible_starts(s)[sel@[w] as int]).0 <= p
                        < core_span(s, #[trigger] eligible_starts(s)[sel@[w] as int]).1;
                assert(w != j);
            }
        }
        j = j + 1;
    }
    let display = string_of_range(&out, 0, out.len());
    assert(display@ =~= blank_out(s, sel@));
    (display, hidden)
}

proof fn lemma_picked(picks: Seq<usize>, m: int)
    requires
        0 <= m <= usize::MAX + 1,
    ensures
        is_selection(picked_upto(picks, m), m),
    decreases m,
{
    if m > 0 {
        lemma_picked(picks, m - 1);
        let p = picked_upto(picks, m - 1);
        if picks.contains((m - 1) as usize) {
            assert forall|j: int| 0 <= j < p.len() implies #[trigger] p.push((m - 1) as usize)[j] == p[j] by {}
            assert(p.push((m - 1) as usize)[p.len() as int] == (m - 1) as usize);
        }
    }
}

proof fn lemma_picked_push(p: Seq<usize>, x: usize, m: int)
    requires
        !p.contains(x),
        0 <= m <= usize::MAX + 1,
    ensures
        picked_upto(p.push(x), m).len() == picked_upto(p, m).len() + if (x as int) < m {
            1int
        } else {
            0int
        },
    decreases m,
{
    if m > 0 {
        lemma_picked_push(p, x, m - 1);
        let k = (m - 1) as usize;
        if p.contains(k) {
            let i = choose|i: int| 0 <= i < p.len() && p[i] == k;
            assert(p.push(x)[i] == k);
        }
        if k == x {
            assert(p.push(x)[p.len() as int] == x);
        }
        if p.push(x).contains(k) && k != x {
            let i = choose|i: int| 0 <= i < p.len() + 1 && p.push(x)[i] == k;
            assert(p[i] == k);
        }
    }
}

proof fn lemma_picked_len(p: Seq<usize>, m: int)
    requires
        0 <= m <= usize::MAX + 1,
        p.no_duplicates(),
        forall|i: int| 0 <= i < p.len() ==> p[i] < m,
    ensures
        picked_upto(p, m).len() == p.len(),
    decreases p.len(),
{
    if p.len() > 0 {
        let q = p.drop_last();
        let x = p.last();
        assert(p == q.push(x));
        assert(!q.contains(x)) by {
            if q.contains(x) {
                let i = choose|i: int| 0 <= i < q.len() && q[i] == x;
                assert(p[i] == p[p.len() - 1]);
            }
        }
        lemma_picked_len(q, m);
        lemma_picked_push(q, x, m);
    } else {
        lemma_picked_none(p, m);
    }
}

proof fn lemma_picked_none(p: Seq<usize>, m: int)
    requires
        p.len() == 0,
    ensures
        picked_upto(p, m).len() == 0,
    decreases m,
{
    if m > 0 {
        lemma_picked_none(p, m - 1);
    }
}

/// Relies on `IteratorRandom::choose_multiple` of rand, over the range
/// `0..count`: it returns `amount` items of the range, each taken from a
/// distinct place of it, in no promised order. It first allocates room for
/// `amount` items, so `amount` is kept within `count`.
#[verifier::external_body]
fn sample_indices(count: usize, amount: usize) -> (r: Vec<usize>)
    requires
        amount <= count,
    ensures
        r@.len() == amount,
        forall|i: int| 0 <= i < r@.len() ==> r@[i] < count,
        r@.no_duplicates(),
{
    (0..count).choose_multiple(&mut rand::thread_rng(), amount)
}

/// Hides the eligible words of `sentence` whose indices, among its eligible
/// words, occur in `picks`; other entries of `picks` are ignored. Returns the
/// display line and the hidden words in reading order.
pub fn hide_picked<'a>(sentence: &'a str, picks: &Vec<usize>) -> (r: (String, Vec<&'a str>))
    ensures
        hides(sentence@, picked(sentence@, picks@), r),
{
    let v = chars_of(sentence);
    let eligible = find_eligible(&v);
    let mut sel: Vec<usize> = Vec::new();
    let mut k: usize = 0;
    while k < eligible.len()
        invariant
            k <= eligible.len(),
            sel@ == picked_upto(picks@, k as int),
        decreases eligible.len() - k,
    {
        let mut found = false;
        let mut i: usize = 0;
        while i < picks.len()
            invariant
                i <= picks.len(),
                found == (exists|t: int| 0 <= t < i && picks@[t] == k),
            decreases picks.len() - i,
        {
            if picks[i] == k {
                found = true;
            }
            i = i + 1;
        }
        if found {
            sel.push(k);
        }
        k = k + 1;
    }
    proof {
        lemma_picked(picks@, eligible@.len() as int);
    }
    hide_selection(sentence, &v, &eligible, &sel)
}

/// Hides `n` eligible words of `sentence`, drawn uniformly at random without
/// replacement (all of them when it has no more than `n`). Returns the display
/// line, where each hidden core is replaced by as many `_` as it has
/// characters, and the hidden words in reading order.
pub fn hide_words<'a>(sentence: &'a str, n: usize) -> (r: (String, Vec<&'a str>))
    ensures
        r.1@.len() == if n < eligible_word_count(sentence@) {
            n as nat
        } else {
            eligible_word_count(sentence@)
        },
        exists|sel: Seq<usize>|
            is_selection(sel, eligible_word_count(sentence@) as int) && sel.len() == r.1@.len()
                && hides(sentence@, sel, r),
        n == 0 ==> r.0@ == sentence@ && r.1@.len() == 0,
        n >= eligible_word_count(sentence@) ==> r.1@.len() == eligible_word_count(sentence@)
            && forall|j: int|
            0 <= j < r.1@.len() ==> (#[trigger] r.1@[j])@ == eligible_words(sentence@)[j],
        n >= eligible_word_count(sentence@) ==> r.0@.len() == sentence@.len() && forall|p: int|
            0 <= p < sentence@.len() && !is_space(sentence@[p]) && alphabetic(sentence@[p])
                ==> #[trigger] r.0@[p] == '_',
{
    let v = chars_of(sentence);
    let eligible = find_eligible(&v);
    let amount: usize = if n < eligible.len() {
        n
    } else {
        eligible.len()
    };
    let picks = sample_indices(eligible.len(), amount);
    let r = hide_picked(sentence, &picks);
    let ghost sel = picked(sentence@, picks@);
    proof {
        lemma_picked(picks@, eligible@.len() as int);
        lemma_picked_len(picks@, eligible@.len() as int);
        if n == 0 {
            lemma_blank_out_empty(sentence@, sel);
        }
        if n >= eligible.len() {
            lemma_full_hide_leaves_no_letter(sentence@, sel);
            lemma_full_selection(sel, eligible@.len() as int);
            assert forall|j: int| 0 <= j < r.1@.len() implies (#[trigger] r.1@[j])@
                == eligible_words(sentence@)[j] by {
                assert(sel[j] == j);
            }
        }
    }
    r
}

proof fn lemma_blank_out_empty(s: Seq<char>, sel: Seq<usize>)
    requires
        sel.len() == 0,
    ensures
        blank_out(s, sel) == s,
{
    assert(blank_out(s, sel) =~= s);
}

/// A selection of `n` indices out of `n` is every index, in order.
proof fn lemma_full_selection(sel: Seq<usize>, n: int)
    requires
        is_selection(sel, n),
        sel.len() == n,
    ensures
        forall|j: int| 0 <= j < n ==> sel[j] == j,
{
    assert forall|j: int| 0 <= j < n implies sel[j] == j by {
        lemma_selection_low(sel, n, j);
        lemma_selection_high(sel, n, j);
    }
}

proof fn lemma_selection_low(sel: Seq<usize>, n: int, j: int)
    requires
        is_selection(sel, n),
        0 <= j < sel.len(),
    ensures
        sel[j] >= j,
    decreases j,
{
    if j > 0 {
        lemma_selection_low(sel, n, j - 1);
    }
}

proof fn lemma_selection_high(sel: Seq<usize>, n: int, j: int)
    requires
        is_selection(sel, n),
        0 <= j < sel.len(),
    ensures
        sel[j] <= n - (sel.len() - j),
    decreases sel.len() - j,
{
    if j + 1 < sel.len() {
        lemma_selection_high(sel, n, j + 1);
    }
}

} // verus!

verus! {

/// The words named by a selection are eligible words of the line, met in
/// reading order with no word twice: their start positions strictly ascend.
pub proof fn lemma_selection_in_reading_order(s: Seq<char>, sel: Seq<usize>)
    requires
        is_selection(sel, eligible_word_count(s) as int),
    ensures
        forall|i: int|
            0 <= i < sel.len() ==> starts_token(s, #[trigger] eligible_starts(s)[sel[i] as int])
                && has_core(s, eligible_starts(s)[sel[i] as int]),
        forall|i: int, j: int|
            0 <= i < j < sel.len() ==> eligible_starts(s)[sel[i] as int] < eligible_starts(
                s,
            )[sel[j] as int],
{
    lemma_eligible_bounds(s, s.len() as int);
}

/// Each hidden word is replaced in the display line by a run of `_` exactly
/// as long as the word has characters, at the place the word held.
pub proof fn lemma_blank_matches_word(s: Seq<char>, sel: Seq<usize>, j: int)
    requires
        is_selection(sel, eligible_word_count(s) as int),
        0 <= j < sel.len(),
    ensures
        ({
            let span = core_span(s, eligible_starts(s)[sel[j] as int]);
            &&& hidden_of(s, sel)[j].len() == span.1 - span.0
            &&& hidden_of(s, sel)[j] == s.subrange(span.0, span.1)
            &&& forall|p: int| span.0 <= p < span.1 ==> #[trigger] blank_out(s, sel)[p] == '_'
        }),
{
    lemma_eligible_bounds(s, s.len() as int);
    let a = eligible_starts(s)[sel[j] as int];
    lemma_core_span_bounds(s, a);
    let span = core_span(s, a);
    assert forall|p: int| span.0 <= p < span.1 implies #[trigger] blank_out(s, sel)[p] == '_' by {
        assert(blanked_by(s, sel, sel.len() as int, p));
    }
}

} // verus!

verus! {

proof fn lemma_token_end_from(s: Seq<char>, a: int, q: int)
    requires
        0 <= a <= q <= token_end(s, a),
    ensures
        token_end(s, a) == token_end(s, q),
    decreases q - a,
{
    if a < q {
        lemma_token_end_from(s, a + 1, q);
    }
}

/// A non-space character lies inside some token.
proof fn lemma_token_around(s: Seq<char>, p: int) -> (a: int)
    requires
        0 <= p < s.len(),
        !is_space(s[p]),
    ensures
        starts_token(s, a),
        a <= p < token_end(s, a),
    decreases p,
{
    if p == 0 || is_space(s[p - 1]) {
        lemma_token_end_bounds(s, p + 1);
        p
    } else {
        let a = lemma_token_around(s, p - 1);
        lemma_token_end_bounds(s, a);
        lemma_token_end_from(s, a, p);
        lemma_token_end_bounds(s, p + 1);
        a
    }
}

proof fn lemma_core_start_before(s: Seq<char>, i: int, b: int, p: int)
    requires
        i <= p < b,
        alphabetic(s[p]),
    ensures
        core_start(s, i, b) <= p,
    decreases p - i,
{
    if i < p && !alphabetic(s[i]) {
        lemma_core_start_before(s, i + 1, b, p);
    }
}

proof fn lemma_core_end_after(s: Seq<char>, c: int, j: int, p: int)
    requires
        c <= p < j,
        alphabetic(s[p]),
    ensures
        core_end(s, c, j) > p,
    decreases j - p,
{
    if !alphabetic(s[j - 1]) {
        lemma_core_end_after(s, c, j - 1, p);
    }
}

proof fn lemma_in_eligible(s: Seq<char>, a: int, n: int) -> (k: int)
    requires
        starts_token(s, a),
        has_core(s, a),
        a < n,
    ensures
        0 <= k < eligible_upto(s, n).len(),
        eligible_upto(s, n)[k] == a,
    decreases n,
{
    if a == n - 1 {
        eligible_upto(s, n - 1).len() as int
    } else {
        let k = lemma_in_eligible(s, a, n - 1);
        if starts_token(s, n - 1) && has_core(s, n - 1) {
            assert(eligible_upto(s, n - 1).push(n - 1)[k] == eligible_upto(s, n - 1)[k]);
        }
        k
    }
}

/// Once every eligible word is hidden, no letter of the line is left in view:
/// each alphabetic character outside whitespace is under a blank.
pub proof fn lemma_full_hide_leaves_no_letter(s: Seq<char>, sel: Seq<usize>)
    requires
        is_selection(sel, eligible_word_count(s) as int),
        sel.len() == eligible_word_count(s),
    ensures
        forall|p: int|
            0 <= p < s.len() && !is_space(s[p]) && alphabetic(s[p]) ==> #[trigger] blank_out(
                s,
                sel,
            )[p] == '_',
{
    lemma_full_selection(sel, eligible_word_count(s) as int);
    assert forall|p: int|
        0 <= p < s.len() && !is_space(s[p]) && alphabetic(s[p]) implies #[trigger] blank_out(
        s,
        sel,
    )[p] == '_' by {
        let a = lemma_token_around(s, p);
        let b = token_end(s, a);
        lemma_core_start_before(s, a, b, p);
        let c = core_start(s, a, b);
        lemma_core_end_after(s, c, b, p);
        let k = lemma_in_eligible(s, a, s.len() as int);
        assert(sel[k] == k);
        assert(core_span(s, eligible_starts(s)[sel[k] as int]).0 <= p);
        assert(blanked_by(s, sel, sel.len() as int, p));
    }
}

} // verus!
