//! fzf-style fuzzy matching, used to filter the interface's pickers.
//!
//! Typing `acme` must bring up `tenant acme (prod)` without the user having to know
//! where in the line the letters sit. The scoring follows fzf's: the same letters are
//! worth more at a word boundary, and more still in one uninterrupted run — which is
//! what makes `acme` rank `acme-prod` above `placement`.

use vstd::prelude::*;

use crate::text::{
    alphabetic, chars_of, is_alphabetic, is_numeric, is_uppercase, is_whitespace, lower_of,
    numeric, split_words, to_lowercase_first, uppercase, white_space, words, deep,
};

verus! {

/// A successful match.
pub struct Match {
    pub score: i32,
    /// Character positions that matched, ascending and deduplicated — what the
    /// interface highlights.
    pub positions: Vec<usize>,
}

pub const SCORE_MATCH: i32 = 16;

/// Start of a word (half a match): after a space, a `-`, a `/`, a `.`…
pub const BONUS_BOUNDARY: i32 = 8;

/// `acmeProd`, `acme2`: a boundary the eye sees without a separator (one below a
/// word start).
pub const BONUS_CAMEL: i32 = 7;

pub const BONUS_CONSECUTIVE: i32 = 4;

/// The query's first character weighs double: it is the one the user aimed at.
pub const BONUS_FIRST: i32 = 2;

pub const GAP_START: i32 = -3;

pub const GAP_EXTENSION: i32 = -1;

/// Longest text the scores are guaranteed to fit an `i32` for, per query term.
pub const MAX_SCORED: usize = 67_108_863;

#[derive(Clone, Copy, PartialEq, Eq, Structural)]
pub enum Class {
    White,
    /// `-`, `_`, `/`, `.`, `:`… what separates words in a slug, a branch or a URL.
    Delim,
    Lower,
    Upper,
    Digit,
}

pub open spec fn class(c: char) -> Class {
    if white_space(c) {
        Class::White
    } else if numeric(c) {
        Class::Digit
    } else if uppercase(c) {
        Class::Upper
    } else if alphabetic(c) {
        Class::Lower
    } else {
        Class::Delim
    }
}

pub open spec fn bonus(prev: Class, cur: Class) -> int {
    if cur == Class::White {
        0
    } else if prev == Class::White || prev == Class::Delim {
        BONUS_BOUNDARY as int
    } else if prev == Class::Lower && cur == Class::Upper {
        BONUS_CAMEL as int
    } else if cur == Class::Digit && prev != Class::Digit {
        BONUS_CAMEL as int
    } else {
        0
    }
}

/// A character folded for comparison: the first character of its lowercase form.
pub open spec fn fold(c: char) -> char {
    lower_of(c)
}

pub open spec fn folded(s: Seq<char>) -> Seq<char> {
    s.map_values(|c: char| fold(c))
}

/// Lowercases a single character, keeping one character for one character: the
/// positions we return index the original text, so a fold that changed the length
/// (`İ` -> `i̇`) would misplace every highlight after it.
fn fold_char(c: char) -> (r: char)
    ensures
        r == fold(c),
{
    to_lowercase_first(c)
}

fn class_of(c: char) -> (r: Class)
    ensures
        r == class(c),
{
    if is_whitespace(c) {
        Class::White
    } else if is_numeric(c) {
        Class::Digit
    } else if is_uppercase(c) {
        Class::Upper
    } else if is_alphabetic(c) {
        Class::Lower
    } else {
        Class::Delim
    }
}

fn bonus_for(prev: Class, cur: Class) -> (r: i32)
    ensures
        r == bonus(prev, cur),
        r == 0 || r == BONUS_CAMEL || r == BONUS_BOUNDARY,
{
    match (prev, cur) {
        (_, Class::White) => 0,
        (Class::White, _) | (Class::Delim, _) => BONUS_BOUNDARY,
        (Class::Lower, Class::Upper) => BONUS_CAMEL,
        (Class::Digit, Class::Digit) => 0,
        (_, Class::Digit) => BONUS_CAMEL,
        _ => 0,
    }
}

/// How many leading characters of `needle` a left-to-right greedy walk over `s`
/// matches.
pub open spec fn greedy(needle: Seq<char>, s: Seq<char>) -> nat
    decreases s.len(),
{
    if s.len() == 0 {
        0
    } else {
        let m = greedy(needle, s.drop_last());
        if m < needle.len() && s.last() == needle[m as int] {
            m + 1
        } else {
            m
        }
    }
}

/// How many trailing characters of `needle` a right-to-left greedy walk over `s`
/// matches.
pub open spec fn greedy_back(needle: Seq<char>, s: Seq<char>) -> nat
    decreases s.len(),
{
    if s.len() == 0 {
        0
    } else {
        let m = greedy_back(needle, s.drop_first());
        if m < needle.len() && s[0] == needle[needle.len() - 1 - m] {
            m + 1
        } else {
            m
        }
    }
}

/// End of the window: the shortest prefix of `low` over which the greedy walk matches
/// the whole needle; `None` when even all of `low` does not.
pub open spec fn window_end(needle: Seq<char>, low: Seq<char>) -> Option<int> {
    if greedy(needle, low) < needle.len() {
        None
    } else {
        Some(choose|e: int|
            0 < e <= low.len() && #[trigger] greedy(needle, low.take(e)) == needle.len() && greedy(
                needle,
                low.take(e - 1),
            ) < needle.len())
    }
}

/// Start of the window ending at `end`: the latest index from which a right-to-left
/// greedy walk still matches the whole needle (0 when none does).
pub open spec fn window_start(needle: Seq<char>, low: Seq<char>, end: int, i: int) -> int
    decreases i,
{
    if i <= 0 {
        0
    } else if greedy_back(needle, low.subrange(i - 1, end)) == needle.len() {
        i - 1
    } else {
        window_start(needle, low, end, i - 1)
    }
}

/// The walk's state: score, positions, matched needle characters, length of the current
/// run, the run's opening bonus, inside a gap, class of the previous character.
pub type Walk = (int, Seq<usize>, int, int, int, bool, Class);

pub open spec fn walk_start(hay: Seq<char>, start: int) -> Walk {
    (
        0,
        Seq::empty(),
        0,
        0,
        0,
        false,
        if start == 0 {
            Class::White
        } else {
            class(hay[start - 1])
        },
    )
}

/// One character of the window: a match earns `SCORE_MATCH` plus its bonus (doubled for
/// the needle's first character; inside a run, at least the run's opening bonus and
/// `BONUS_CONSECUTIVE`), anything else costs a gap.
pub open spec fn step(w: Walk, needle: Seq<char>, hay: Seq<char>, low: Seq<char>, i: int) -> Walk {
    let cur = class(hay[i]);
    if w.2 < needle.len() && low[i] == needle[w.2] {
        let b0 = bonus(w.6, cur);
        let fb = if w.3 == 0 || b0 == BONUS_BOUNDARY {
            b0
        } else {
            w.4
        };
        let b = if w.3 == 0 {
            b0
        } else {
            vstd::math::max(vstd::math::max(b0, fb), BONUS_CONSECUTIVE as int)
        };
        let gain = SCORE_MATCH + if w.2 == 0 {
            b * BONUS_FIRST
        } else {
            b
        };
        (w.0 + gain, w.1.push(i as usize), w.2 + 1, w.3 + 1, fb, false, cur)
    } else {
        (
            w.0 + if w.5 {
                GAP_EXTENSION as int
            } else {
                GAP_START as int
            },
            w.1,
            w.2,
            0,
            0,
            true,
            cur,
        )
    }
}

/// The walk over `[start, i)`.
pub open spec fn walk(needle: Seq<char>, hay: Seq<char>, low: Seq<char>, start: int, i: int) -> Walk
    decreases i - start,
{
    if i <= start {
        walk_start(hay, start)
    } else {
        step(walk(needle, hay, low, start, i - 1), needle, hay, low, i - 1)
    }
}

/// Score and positions of one term: `None` when it is not a subsequence of the text.
pub open spec fn term_match(needle: Seq<char>, hay: Seq<char>, low: Seq<char>) -> Option<
    (int, Seq<usize>),
> {
    if needle.len() == 0 {
        Some((0, Seq::empty()))
    } else {
        match window_end(needle, low) {
            None => None,
            Some(end) => {
                let start = window_start(needle, low, end, end);
                let w = walk(needle, hay, low, start, end);
                Some((w.0, w.1))
            },
        }
    }
}

/// Every term matched: total score and every position, term after term.
pub open spec fn terms_match(terms: Seq<Seq<char>>, hay: Seq<char>) -> Option<(int, Seq<usize>)>
    decreases terms.len(),
{
    if terms.len() == 0 {
        Some((0, Seq::empty()))
    } else {
        match terms_match(terms.drop_last(), hay) {
            None => None,
            Some((s, p)) => match term_match(folded(terms.last()), hay, folded(hay)) {
                None => None,
                Some((s2, p2)) => Some((s + s2, p + p2)),
            },
        }
    }
}

pub open spec fn strictly_increasing(p: Seq<usize>) -> bool {
    forall|i: int, j: int| 0 <= i < j < p.len() ==> p[i] < p[j]
}

/// Matches `query` against `text`, ignoring case.
///
/// Spaces split the query into terms that must *all* match, each anywhere in the text:
/// `acme prod` finds `prod · tenant acme`. An empty query matches everything with a
/// neutral score, which keeps the list in its declared order.
///
/// The score is an `i32`: for a query of `n` terms over a text of `len` characters it
/// is computed when `n * len` is at most `MAX_SCORED`, which keeps every sum in range.
/// Beyond (texts of tens of millions of characters) it is not computed and reads 0;
/// whether the query matches, and where, is still answered.
pub fn matches(query: &str, text: &str) -> (r: Option<Match>)
    ensures
        r is Some <==> terms_match(words(query@), text@) is Some,
        r matches Some(m) ==> {
            let (s, p) = terms_match(words(query@), text@).unwrap();
            &&& m.score == if words(query@).len() * text@.len() <= MAX_SCORED { s } else { 0 }
            &&& strictly_increasing(m.positions@)
            &&& m.positions@.to_set() == p.to_set()
            &&& forall|j: int| 0 <= j < m.positions@.len() ==> lit(words(query@), text@, #[trigger] m.positions@[j] as int)
        },
{
    let hay = chars_of(text);
    let mut low: Vec<char> = Vec::new();
    let mut i: usize = 0;
    while i < hay.len()
        invariant
            i <= hay@.len(),
            low@ == folded(hay@.take(i as int)),
        decreases hay@.len() - i,
    {
        low.push(fold_char(hay[i]));
        i += 1;
        assert(low@ =~= folded(hay@.take(i as int)));
    }
    assert(hay@.take(hay@.len() as int) =~= hay@);
    let qc = chars_of(query);
    let terms = split_words(&qc);
    let ghost ts = words(query@);
    let scoring = fits_scores(terms.len(), hay.len());
    let mut score: i32 = 0;
    let mut positions: Vec<usize> = Vec::new();
    let mut t: usize = 0;
    while t < terms.len()
        invariant
            t <= terms@.len(),
            deep(terms@) == ts,
            ts == words(query@),
            hay@ == text@,
            low@ == folded(hay@),
            scoring == (ts.len() * hay@.len() <= MAX_SCORED),
            terms_match(ts.take(t as int), hay@) matches Some((s, p)) && (if scoring { s == score } else { score == 0 })
                && strictly_increasing(positions@) && positions@.to_set() == p.to_set(),
            scoring ==> -3 * t * hay@.len() <= score <= 32 * t * hay@.len(),
        decreases terms@.len() - t,
    {
        let needle = fold_all(&terms[t]);
        proof {
            assert(ts[t as int] == terms@[t as int]@);
        }
        let found = if scoring {
            proof {
                lemma_mul_bounds(t as int, ts.len() as int, hay@.len() as int);
            }
            match_term(&needle, &hay, &low)
        } else {
            match term_positions(&needle, &hay, &low) {
                Some(p) => Some((0i32, p)),
                None => None,
            }
        };
        match found {
            None => {
                proof {
                    lemma_terms_step_none(ts, hay@, t as int);
                    lemma_terms_none(ts, hay@, t as int);
                }
                return None;
            },
            Some((s, p)) => {
                let ghost before = positions@;
                proof {
                    lemma_terms_step(ts, hay@, t as int, term_match(folded(ts[t as int]), hay@, folded(hay@)).unwrap().0, p@);
                }
                if scoring {
                    score = score + s;
                }
                insert_all(&mut positions, &p);
                proof {
                    let (s0, p0) = terms_match(ts.take(t as int), hay@).unwrap();
                    assert((p0 + p@).to_set() =~= p0.to_set().union(p@.to_set())) by {
                        assert forall|y: usize| #[trigger] (p0 + p@).to_set().contains(y) <==> p0.to_set().union(p@.to_set()).contains(y) by {
                            if (p0 + p@).contains(y) {
                                let m = choose|m: int| 0 <= m < (p0 + p@).len() && (p0 + p@)[m] == y;
                                if m < p0.len() {
                                    assert(p0[m] == y);
                                } else {
                                    assert(p@[m - p0.len()] == y);
                                }
                            }
                            if p0.contains(y) {
                                let m = choose|m: int| 0 <= m < p0.len() && p0[m] == y;
                                assert((p0 + p@)[m] == y);
                            }
                            if p@.contains(y) {
                                let m = choose|m: int| 0 <= m < p@.len() && p@[m] == y;
                                assert((p0 + p@)[m + p0.len()] == y);
                            }
                        }
                    }
                }
            },
        }
        t += 1;
    }
    assert(ts.take(t as int) =~= ts);
    proof {
        lemma_terms_lit(ts, hay@);
        let p = terms_match(ts, hay@).unwrap().1;
        assert forall|j: int| 0 <= j < positions@.len() implies lit(ts, text@, #[trigger] positions@[j] as int) by {
            assert(positions@.to_set().contains(positions@[j]));
            assert(p.to_set().contains(positions@[j]));
            let i = choose|i: int| 0 <= i < p.len() && p[i] == positions@[j];
            assert(lit(ts, hay@, p[i] as int));
        }
    }
    Some(Match { score, positions })
}

/// Do `n` terms over `len` characters stay within the scored sizes?
fn fits_scores(n: usize, len: usize) -> (r: bool)
    ensures
        r == (n * len <= MAX_SCORED),
{
    match (n as u128).checked_mul(len as u128) {
        Some(p) => p <= MAX_SCORED as u128,
        None => false,
    }
}

/// Each character of `s`, folded.
fn fold_all(s: &Vec<char>) -> (r: Vec<char>)
    ensures
        r@ == folded(s@),
{
    let mut r: Vec<char> = Vec::new();
    let mut k: usize = 0;
    while k < s.len()
        invariant
            k <= s@.len(),
            r@ == folded(s@.take(k as int)),
        decreases s@.len() - k,
    {
        r.push(fold_char(s[k]));
        k += 1;
        assert(r@ =~= folded(s@.take(k as int)));
    }
    assert(s@.take(s@.len() as int) =~= s@);
    r
}

proof fn lemma_terms_step(ts: Seq<Seq<char>>, hay: Seq<char>, t: int, s2: int, p2: Seq<usize>)
    requires
        0 <= t < ts.len(),
        terms_match(ts.take(t), hay) is Some,
        term_match(folded(ts[t]), hay, folded(hay)) == Some((s2, p2)),
    ensures
        terms_match(ts.take(t + 1), hay) == Some((terms_match(ts.take(t), hay).unwrap().0 + s2, terms_match(ts.take(t), hay).unwrap().1 + p2)),
{
    assert(ts.take(t + 1).drop_last() =~= ts.take(t));
    assert(ts.take(t + 1).last() == ts[t]);
}

proof fn lemma_terms_step_none(ts: Seq<Seq<char>>, hay: Seq<char>, t: int)
    requires
        0 <= t < ts.len(),
        term_match(folded(ts[t]), hay, folded(hay)) is None,
    ensures
        terms_match(ts.take(t + 1), hay) is None,
{
    assert(ts.take(t + 1).drop_last() =~= ts.take(t));
    assert(ts.take(t + 1).last() == ts[t]);
}

proof fn lemma_mul_bounds(t: int, n: int, len: int)
    requires
        0 <= t < n,
        0 <= len,
        n * len <= MAX_SCORED,
    ensures
        len <= MAX_SCORED,
        32 * (t + 1) * len <= 32 * MAX_SCORED,
        (t + 1) * len <= MAX_SCORED,
        32 * (t + 1) * len == 32 * t * len + 32 * len,
        -3 * (t + 1) * len == -3 * t * len - 3 * len,
        -3 * (t + 1) * len >= -3 * (MAX_SCORED as int),
{
    assert(len <= (t + 1) * len) by (nonlinear_arith)
        requires
            0 <= t,
            0 <= len,
    ;
    assert((t + 1) * len <= n * len) by (nonlinear_arith)
        requires
            t + 1 <= n,
            0 <= len,
    ;
    assert(32 * (t + 1) * len == 32 * ((t + 1) * len)) by (nonlinear_arith);
    assert(32 * (t + 1) * len == 32 * t * len + 32 * len) by (nonlinear_arith);
    assert(-3 * (t + 1) * len == -3 * t * len - 3 * len) by (nonlinear_arith);
    assert(-3 * (t + 1) * len == -3 * ((t + 1) * len)) by (nonlinear_arith);
    let x = (t + 1) * len;
    assert(x <= MAX_SCORED);
    assert(-3 * x >= -3 * (MAX_SCORED as int));
}

proof fn lemma_terms_none(ts: Seq<Seq<char>>, hay: Seq<char>, t: int)
    requires
        0 <= t < ts.len(),
        terms_match(ts.take(t + 1), hay) is None,
    ensures
        terms_match(ts, hay) is None,
    decreases ts.len() - t,
{
    if t + 1 < ts.len() {
        assert(ts.take(t + 2).drop_last() =~= ts.take(t + 1));
        lemma_terms_none(ts, hay, t + 1);
    } else {
        assert(ts.take(t + 1) =~= ts);
    }
}

/// Adds each of `p` to the ascending, duplicate-free `v`, keeping it so.
fn insert_all(v: &mut Vec<usize>, p: &Vec<usize>)
    requires
        strictly_increasing(old(v)@),
    ensures
        strictly_increasing(final(v)@),
        final(v)@.to_set() == old(v)@.to_set().union(p@.to_set()),
{
    let ghost start = v@;
    let mut k: usize = 0;
    while k < p.len()
        invariant
            k <= p@.len(),
            strictly_increasing(v@),
            v@.to_set() == start.to_set().union(p@.take(k as int).to_set()),
        decreases p@.len() - k,
    {
        let x = p[k];
        let mut j: usize = 0;
        while j < v.len() && v[j] < x
            invariant
                j <= v@.len(),
                forall|a: int| 0 <= a < j ==> v@[a] < x,
            decreases v@.len() - j,
        {
            j += 1;
        }
        let ghost before = v@;
        if j < v.len() && v[j] == x {
        } else {
            v.insert(j, x);
            assert(v@ =~= before.insert(j as int, x));
            assert(strictly_increasing(v@)) by {
                assert forall|a: int, b: int| 0 <= a < b < v@.len() implies v@[a] < v@[b] by {
                    if b < j {
                    } else if b == j {
                    } else if a < j {
                        assert(v@[b] == before[b - 1]);
                    } else if a == j {
                        assert(v@[b] == before[b - 1]);
                        assert(before[j as int] > x);
                        if b - 1 > j {
                            assert(before[j as int] < before[b - 1]);
                        }
                    } else {
                        assert(v@[a] == before[a - 1]);
                        assert(v@[b] == before[b - 1]);
                    }
                }
            }
        }
        proof {
            assert(v@.to_set() =~= before.to_set().insert(x)) by {
                if j < before.len() && before[j as int] == x {
                    assert(before.to_set().contains(x));
                } else {
                    assert forall|y: usize| #[trigger] v@.to_set().contains(y) <==> before.to_set().insert(x).contains(y) by {
                        if v@.contains(y) {
                            let a = choose|a: int| 0 <= a < v@.len() && v@[a] == y;
                            if a < j {
                                assert(before[a] == y);
                            } else if a > j {
                                assert(before[a - 1] == y);
                            }
                        }
                        if before.contains(y) {
                            let a = choose|a: int| 0 <= a < before.len() && before[a] == y;
                            if a < j {
                                assert(v@[a] == y);
                            } else {
                                assert(v@[a + 1] == y);
                            }
                        }
                        if y == x {
                            assert(v@[j as int] == x);
                        }
                    }
                }
            }
            assert(p@.take(k + 1).to_set() =~= p@.take(k as int).to_set().insert(x)) by {
                let a = p@.take(k as int);
                assert(p@.take(k + 1) =~= a.push(x));
                assert forall|y: usize| #[trigger] a.push(x).to_set().contains(y) <==> a.to_set().insert(x).contains(y) by {
                    if a.push(x).contains(y) {
                        let m = choose|m: int| 0 <= m < a.push(x).len() && a.push(x)[m] == y;
                        if m < a.len() {
                            assert(a[m] == y);
                        }
                    }
                    if a.contains(y) {
                        let m = choose|m: int| 0 <= m < a.len() && a[m] == y;
                        assert(a.push(x)[m] == y);
                    }
                    if y == x {
                        assert(a.push(x)[a.len() as int] == x);
                    }
                }
            }
        }
        k += 1;
    }
    assert(p@.take(p@.len() as int) =~= p@);
}

/// Where the one term `needle` sits in `low`: the end of the window (just past the
/// leftmost completion of the needle) and its start (the latest from which the needle
/// still fits before that end). `None` when the needle is not a subsequence at all.
fn locate(needle: &Vec<char>, low: &Vec<char>) -> (r: Option<(usize, usize)>)
    requires
        needle@.len() > 0,
    ensures
        r is Some <==> window_end(needle@, low@) is Some,
        r matches Some((start, end)) ==> window_end(needle@, low@) == Some(end as int)
            && start == window_start(needle@, low@, end as int, end as int) && start <= end <= low@.len(),
{
    // Forward pass: the leftmost occurrence of each character, in order. It gives the
    // end of the match — and its failure means the term is not a subsequence at all.
    let mut pidx: usize = 0;
    let mut end: usize = 0;
    let mut i: usize = 0;
    let n = needle.len();
    while i < low.len()
        invariant_except_break
            n == needle@.len(),
            i <= low@.len(),
            pidx == greedy(needle@, low@.take(i as int)),
            pidx < needle@.len(),
        ensures
            n == needle@.len(),
            i <= low@.len(),
            pidx <= needle@.len(),
            pidx == needle@.len() ==> end == i + 1 && i < low@.len() && greedy(needle@, low@.take(end as int)) == needle@.len()
                && greedy(needle@, low@.take(i as int)) < needle@.len(),
            pidx < needle@.len() ==> i == low@.len() && pidx == greedy(needle@, low@.take(i as int)),
        decreases low@.len() - i,
    {
        assert(low@.take(i + 1).drop_last() =~= low@.take(i as int));
        if low[i] == needle[pidx] {
            pidx += 1;
            if pidx == needle.len() {
                end = i + 1;
                break;
            }
        }
        i += 1;
    }
    if pidx < needle.len() {
        assert(low@.take(low@.len() as int) =~= low@);
        return None;
    }
    proof {
        lemma_greedy_mono(needle@, low@, end as int, low@.len() as int);
        assert(low@.take(low@.len() as int) =~= low@);
        assert(greedy(needle@, low@) >= needle@.len());
        lemma_greedy_bounded(needle@, low@);
        lemma_window_end_unique(needle@, low@, end as int);
    }
    // Backward pass from that end: the same letters as far right as possible. What it
    // leaves out cannot contain a better match, and scoring it would only cost time.
    let mut back: usize = 0;
    let mut start: usize = 0;
    let mut j: usize = end;
    while j > 0
        invariant_except_break
            j <= end <= low@.len(),
            back == greedy_back(needle@, low@.subrange(j as int, end as int)),
            back < needle@.len(),
            start == 0,
            window_start(needle@, low@, end as int, end as int) == window_start(needle@, low@, end as int, j as int),
        ensures
            start <= end,
            start == window_start(needle@, low@, end as int, end as int),
        decreases j,
    {
        assert(low@.subrange(j - 1, end as int).drop_first() =~= low@.subrange(j as int, end as int));
        if low[j - 1] == needle[needle.len() - 1 - back] {
            back += 1;
            if back == needle.len() {
                start = j - 1;
                break;
            }
        }
        j -= 1;
    }
    Some((start, end))
}

/// Locates one term, then scores the window it occupies.
fn match_term(needle: &Vec<char>, hay: &Vec<char>, low: &Vec<char>) -> (r: Option<(i32, Vec<usize>)>)
    requires
        low@.len() == hay@.len(),
        hay@.len() <= MAX_SCORED,
    ensures
        r is Some <==> term_match(needle@, hay@, low@) is Some,
        r matches Some((s, p)) ==> term_match(needle@, hay@, low@) == Some((s as int, p@))
            && -3 * hay@.len() <= s <= 32 * hay@.len(),
{
    if needle.len() == 0 {
        return Some((0, Vec::new()));
    }
    match locate(needle, low) {
        None => None,
        Some((start, end)) => {
            let (score, positions) = score_window(needle, hay, low, start, end);
            Some((score, positions))
        },
    }
}

/// Locates one term and lists the positions its window matches, without scoring it.
fn term_positions(needle: &Vec<char>, hay: &Vec<char>, low: &Vec<char>) -> (r: Option<Vec<usize>>)
    requires
        low@.len() == hay@.len(),
    ensures
        r is Some <==> term_match(needle@, hay@, low@) is Some,
        r matches Some(p) ==> p@ == term_match(needle@, hay@, low@).unwrap().1,
{
    if needle.len() == 0 {
        return Some(Vec::new());
    }
    match locate(needle, low) {
        None => None,
        Some((start, end)) => Some(window_positions(needle, hay, low, start, end)),
    }
}

/// The positions the walk over `[start, end)` matches.
fn window_positions(needle: &Vec<char>, hay: &Vec<char>, low: &Vec<char>, start: usize, end: usize) -> (r: Vec<usize>)
    requires
        start <= end <= hay@.len(),
        low@.len() == hay@.len(),
    ensures
        r@ == walk(needle@, hay@, low@, start as int, end as int).1,
{
    let mut positions: Vec<usize> = Vec::new();
    let mut pidx: usize = 0;
    let mut i = start;
    while i < end
        invariant
            start <= i <= end <= hay@.len(),
            low@.len() == hay@.len(),
            walk(needle@, hay@, low@, start as int, i as int).1 == positions@,
            walk(needle@, hay@, low@, start as int, i as int).2 == pidx as int,
            pidx <= i - start,
        decreases end - i,
    {
        if pidx < needle.len() && low[i] == needle[pidx] {
            positions.push(i);
            pidx += 1;
        }
        i += 1;
    }
    positions
}

proof fn lemma_greedy_step(needle: Seq<char>, s: Seq<char>, e: int)
    requires
        0 < e <= s.len(),
    ensures
        greedy(needle, s.take(e)) <= greedy(needle, s.take(e - 1)) + 1,
        greedy(needle, s.take(e - 1)) <= greedy(needle, s.take(e)),
{
    assert(s.take(e).drop_last() =~= s.take(e - 1));
}

proof fn lemma_greedy_mono(needle: Seq<char>, s: Seq<char>, a: int, b: int)
    requires
        0 <= a <= b <= s.len(),
    ensures
        greedy(needle, s.take(a)) <= greedy(needle, s.take(b)),
    decreases b - a,
{
    if a < b {
        lemma_greedy_mono(needle, s, a, b - 1);
        lemma_greedy_step(needle, s, b);
    }
}

proof fn lemma_greedy_bounded(needle: Seq<char>, s: Seq<char>)
    ensures
        greedy(needle, s) <= needle.len(),
    decreases s.len(),
{
    if s.len() > 0 {
        lemma_greedy_bounded(needle, s.drop_last());
    }
}

proof fn lemma_window_end_unique(needle: Seq<char>, low: Seq<char>, end: int)
    requires
        0 < end <= low.len(),
        greedy(needle, low.take(end)) == needle.len(),
        greedy(needle, low.take(end - 1)) < needle.len(),
        greedy(needle, low) >= needle.len(),
    ensures
        window_end(needle, low) == Some(end),
{
    let e = choose|e: int|
        0 < e <= low.len() && #[trigger] greedy(needle, low.take(e)) == needle.len() && greedy(
            needle,
            low.take(e - 1),
        ) < needle.len();
    assert(0 < end <= low.len() && greedy(needle, low.take(end)) == needle.len() && greedy(
        needle,
        low.take(end - 1),
    ) < needle.len());
    if e < end {
        lemma_greedy_mono(needle, low, e, end - 1);
    } else if e > end {
        lemma_greedy_mono(needle, low, end, e - 1);
    }
}

/// Greedy walk over `[start, end)`, awarding bonuses and charging gaps.
fn score_window(
    needle: &Vec<char>,
    hay: &Vec<char>,
    low: &Vec<char>,
    start: usize,
    end: usize,
) -> (r: (i32, Vec<usize>))
    requires
        start <= end <= hay@.len(),
        low@.len() == hay@.len(),
        hay@.len() <= MAX_SCORED,
    ensures
        r.0 == walk(needle@, hay@, low@, start as int, end as int).0,
        r.1@ == walk(needle@, hay@, low@, start as int, end as int).1,
        -3 * (end - start) <= r.0 <= 32 * (end - start),
{
    let mut score: i32 = 0;
    let mut positions: Vec<usize> = Vec::new();
    let mut pidx: usize = 0;
    let mut consecutive: usize = 0;
    let mut first_bonus: i32 = 0;
    let mut in_gap = false;
    let mut prev = if start == 0 {
        Class::White
    } else {
        class_of(hay[start - 1])
    };
    let mut i = start;
    while i < end
        invariant
            start <= i <= end <= hay@.len(),
            low@.len() == hay@.len(),
            hay@.len() <= MAX_SCORED,
            walk(needle@, hay@, low@, start as int, i as int) == (
                score as int,
                positions@,
                pidx as int,
                consecutive as int,
                first_bonus as int,
                in_gap,
                prev,
            ),
            -3 * (i - start) <= score <= 32 * (i - start),
            pidx <= i - start,
            consecutive <= i - start,
            first_bonus == 0 || first_bonus == BONUS_CAMEL || first_bonus == BONUS_BOUNDARY,
        decreases end - i,
    {
        let cur = class_of(hay[i]);
        if pidx < needle.len() && low[i] == needle[pidx] {
            let mut b = bonus_for(prev, cur);
            if consecutive == 0 {
                first_bonus = b;
            } else {
                // Inside a run every character inherits the run's opening bonus, unless
                // it crosses a boundary of its own — `acme` in `x-acme` must not lose to
                // `acme` in `xacme` just because the run started one character earlier.
                if b == BONUS_BOUNDARY {
                    first_bonus = b;
                }
                if first_bonus > b {
                    b = first_bonus;
                }
                if BONUS_CONSECUTIVE > b {
                    b = BONUS_CONSECUTIVE;
                }
            }
            score = score + SCORE_MATCH + if pidx == 0 {
                b * BONUS_FIRST
            } else {
                b
            };
            positions.push(i);
            pidx += 1;
            consecutive += 1;
            in_gap = false;
        } else {
            score = score + if in_gap {
                GAP_EXTENSION
            } else {
                GAP_START
            };
            in_gap = true;
            consecutive = 0;
            first_bonus = 0;
        }
        prev = cur;
        i += 1;
    }
    (score, positions)
}

/// `f` places each character of `n` in `s`, in order.
pub open spec fn embeds(n: Seq<char>, s: Seq<char>, f: Seq<int>) -> bool {
    &&& f.len() == n.len()
    &&& forall|k: int| 0 <= k < f.len() ==> 0 <= #[trigger] f[k] < s.len() && s[f[k]] == n[k]
    &&& forall|a: int, b: int| 0 <= a < b < f.len() ==> f[a] < f[b]
}

/// The characters of `n` appear in `s`, in the same order, not necessarily together.
pub open spec fn subsequence(n: Seq<char>, s: Seq<char>) -> bool {
    exists|f: Seq<int>| embeds(n, s, f)
}

proof fn lemma_greedy_complete(n: Seq<char>, s: Seq<char>, j: int, f: Seq<int>)
    requires
        0 <= j <= n.len(),
        embeds(n.take(j), s, f),
    ensures
        greedy(n, s) >= j,
    decreases s.len(),
{
    if j == 0 {
        return;
    }
    let s2 = s.drop_last();
    if f[j - 1] < s.len() - 1 {
        assert(embeds(n.take(j), s2, f)) by {
            assert forall|k: int| 0 <= k < f.len() implies 0 <= #[trigger] f[k] < s2.len() && s2[f[k]] == n.take(j)[k] by {
                if k < j - 1 {
                    assert(f[k] < f[j - 1]);
                }
            }
        }
        lemma_greedy_complete(n, s2, j, f);
    } else {
        let g = f.take(j - 1);
        assert(embeds(n.take(j - 1), s2, g)) by {
            assert forall|k: int| 0 <= k < g.len() implies 0 <= #[trigger] g[k] < s2.len() && s2[g[k]] == n.take(j - 1)[k] by {
                assert(f[k] < f[j - 1]);
                assert(n.take(j - 1)[k] == n.take(j)[k]);
            }
        }
        lemma_greedy_complete(n, s2, j - 1, g);
        assert(s.last() == n[j - 1]) by {
            assert(s[f[j - 1]] == n.take(j)[j - 1]);
        }
    }
}

proof fn lemma_greedy_sound(n: Seq<char>, s: Seq<char>)
    ensures
        exists|f: Seq<int>| embeds(n.take(greedy(n, s) as int), s, f),
    decreases s.len(),
{
    lemma_greedy_bounded(n, s);
    if s.len() == 0 {
        assert(embeds(n.take(0), s, Seq::<int>::empty()));
    } else {
        let s2 = s.drop_last();
        lemma_greedy_sound(n, s2);
        lemma_greedy_bounded(n, s2);
        let m = greedy(n, s2) as int;
        let f = choose|f: Seq<int>| embeds(n.take(m), s2, f);
        if m < n.len() && s.last() == n[m] {
            let g = f.push(s.len() - 1);
            assert(embeds(n.take(m + 1), s, g)) by {
                assert forall|k: int| 0 <= k < g.len() implies 0 <= #[trigger] g[k] < s.len() && s[g[k]] == n.take(m + 1)[k] by {
                    if k < m {
                        assert(g[k] == f[k]);
                        assert(s2[f[k]] == n.take(m)[k]);
                    }
                }
            }
        } else {
            assert(embeds(n.take(m), s, f)) by {
                assert forall|k: int| 0 <= k < f.len() implies 0 <= #[trigger] f[k] < s.len() && s[f[k]] == n.take(m)[k] by {
                    assert(s2[f[k]] == n.take(m)[k]);
                }
            }
        }
    }
}

proof fn lemma_greedy_iff_subsequence(n: Seq<char>, s: Seq<char>)
    ensures
        greedy(n, s) >= n.len() <==> subsequence(n, s),
{
    lemma_greedy_bounded(n, s);
    if subsequence(n, s) {
        let f = choose|f: Seq<int>| embeds(n, s, f);
        assert(n.take(n.len() as int) =~= n);
        lemma_greedy_complete(n, s, n.len() as int, f);
    }
    if greedy(n, s) >= n.len() {
        lemma_greedy_sound(n, s);
        assert(n.take(n.len() as int) =~= n);
    }
}

proof fn lemma_term_iff_subsequence(needle: Seq<char>, hay: Seq<char>, low: Seq<char>)
    ensures
        term_match(needle, hay, low) is Some <==> subsequence(needle, low),
{
    lemma_greedy_iff_subsequence(needle, low);
    if needle.len() == 0 {
        assert(embeds(needle, low, Seq::<int>::empty()));
    } else if greedy(needle, low) >= needle.len() {
        lemma_greedy_bounded(needle, low);
        lemma_greedy_exists_end(needle, low);
    }
}

proof fn lemma_greedy_exists_end(needle: Seq<char>, low: Seq<char>)
    requires
        needle.len() > 0,
        greedy(needle, low) == needle.len(),
    ensures
        window_end(needle, low) is Some,
{
    assert(low.take(low.len() as int) =~= low);
    lemma_greedy_first_full(needle, low, low.len() as int);
}

/// The greedy count rises one step at a time from 0, so it reaches the needle's length
/// at some prefix whose predecessor falls short.
proof fn lemma_greedy_first_full(needle: Seq<char>, low: Seq<char>, e: int)
    requires
        needle.len() > 0,
        0 <= e <= low.len(),
        greedy(needle, low.take(e)) == needle.len(),
    ensures
        exists|x: int|
            0 < x <= low.len() && #[trigger] greedy(needle, low.take(x)) == needle.len() && greedy(
                needle,
                low.take(x - 1),
            ) < needle.len(),
    decreases e,
{
    if e == 0 {
        assert(low.take(0) =~= Seq::<char>::empty());
    } else if greedy(needle, low.take(e - 1)) == needle.len() {
        lemma_greedy_first_full(needle, low, e - 1);
    } else {
        lemma_greedy_step(needle, low, e);
        assert(greedy(needle, low.take(e)) == needle.len());
    }
}

proof fn lemma_terms_iff(ts: Seq<Seq<char>>, text: Seq<char>)
    ensures
        terms_match(ts, text) is Some <==> forall|i: int| 0 <= i < ts.len() ==> subsequence(folded(#[trigger] ts[i]), folded(text)),
    decreases ts.len(),
{
    if ts.len() > 0 {
        lemma_terms_iff(ts.drop_last(), text);
        lemma_term_iff_subsequence(folded(ts.last()), text, folded(text));
        if forall|i: int| 0 <= i < ts.len() ==> subsequence(folded(#[trigger] ts[i]), folded(text)) {
            assert forall|i: int| 0 <= i < ts.drop_last().len() implies subsequence(folded(#[trigger] ts.drop_last()[i]), folded(text)) by {
                assert(ts.drop_last()[i] == ts[i]);
            }
        }
        if terms_match(ts, text) is Some {
            assert forall|i: int| 0 <= i < ts.len() implies subsequence(folded(#[trigger] ts[i]), folded(text)) by {
                if i < ts.len() - 1 {
                    assert(ts.drop_last()[i] == ts[i]);
                }
            }
        }
    }
}

/// Position `x` of `hay` lies inside it and holds, ignoring case, a character of one of
/// the terms `ts`.
pub open spec fn lit(ts: Seq<Seq<char>>, hay: Seq<char>, x: int) -> bool {
    &&& 0 <= x < hay.len()
    &&& exists|k: int| 0 <= k < ts.len() && #[trigger] folded(ts[k]).contains(fold(hay[x]))
}

/// Each of `p` lies in `[lo, hi)` and holds in `low` a character of `needle`.
spec fn lands(p: Seq<usize>, needle: Seq<char>, low: Seq<char>, lo: int, hi: int) -> bool {
    forall|j: int| 0 <= j < p.len() ==> lo <= #[trigger] p[j] < hi && needle.contains(low[p[j] as int])
}

proof fn lemma_walk_lands(needle: Seq<char>, hay: Seq<char>, low: Seq<char>, start: int, i: int)
    requires
        0 <= start <= i <= usize::MAX,
    ensures
        walk(needle, hay, low, start, i).2 >= 0,
        lands(walk(needle, hay, low, start, i).1, needle, low, start, i),
    decreases i - start,
{
    if i > start {
        lemma_walk_lands(needle, hay, low, start, i - 1);
        let w = walk(needle, hay, low, start, i - 1);
        if w.2 < needle.len() && low[i - 1] == needle[w.2] {
            let q = w.1.push((i - 1) as usize);
            assert forall|j: int| 0 <= j < q.len() implies start <= #[trigger] q[j] < i && needle.contains(low[q[j] as int]) by {
                if j < w.1.len() {
                    assert(q[j] == w.1[j]);
                } else {
                    assert(needle[w.2] == low[i - 1]);
                }
            }
        }
    }
}

proof fn lemma_window_start_bounds(needle: Seq<char>, low: Seq<char>, end: int, i: int)
    requires
        0 <= i,
    ensures
        0 <= window_start(needle, low, end, i) <= i,
    decreases i,
{
    if i > 0 {
        lemma_window_start_bounds(needle, low, end, i - 1);
    }
}

proof fn lemma_term_lands(needle: Seq<char>, hay: Seq<char>, low: Seq<char>)
    requires
        low.len() <= usize::MAX,
    ensures
        term_match(needle, hay, low) matches Some((s, p)) ==> lands(p, needle, low, 0, low.len() as int),
{
    if needle.len() > 0 && greedy(needle, low) >= needle.len() {
        lemma_greedy_bounded(needle, low);
        assert(low.take(low.len() as int) =~= low);
        lemma_greedy_first_full(needle, low, low.len() as int);
        let end = window_end(needle, low).unwrap();
        assert(0 < end <= low.len());
        let start = window_start(needle, low, end, end);
        lemma_window_start_bounds(needle, low, end, end);
        lemma_walk_lands(needle, hay, low, start, end);
    }
}

proof fn lemma_terms_lit(ts: Seq<Seq<char>>, hay: Seq<char>)
    requires
        hay.len() <= usize::MAX,
    ensures
        terms_match(ts, hay) matches Some((s, p)) ==> forall|j: int| 0 <= j < p.len() ==> lit(ts, hay, #[trigger] p[j] as int),
    decreases ts.len(),
{
    if ts.len() > 0 {
        let init = ts.drop_last();
        lemma_terms_lit(init, hay);
        lemma_term_lands(folded(ts.last()), hay, folded(hay));
        if let Some((s, p)) = terms_match(ts, hay) {
            let (s0, p0) = terms_match(init, hay).unwrap();
            let (s2, p2) = term_match(folded(ts.last()), hay, folded(hay)).unwrap();
            assert(p == p0 + p2);
            assert forall|j: int| 0 <= j < p.len() implies lit(ts, hay, #[trigger] p[j] as int) by {
                if j < p0.len() {
                    assert(p[j] == p0[j]);
                    assert(lit(init, hay, p0[j] as int));
                    let k = choose|k: int| 0 <= k < init.len() && #[trigger] folded(init[k]).contains(fold(hay[p0[j] as int]));
                    assert(init[k] == ts[k]);
                } else {
                    let i = j - p0.len();
                    assert(p[j] == p2[i]);
                    assert(folded(hay)[p2[i] as int] == fold(hay[p2[i] as int]));
                    assert(ts[ts.len() - 1] == ts.last());
                    assert(folded(ts[ts.len() - 1]).contains(fold(hay[p[j] as int])));
                }
            }
        }
    }
}

proof fn lemma_greedy_self(low: Seq<char>, e: int)
    requires
        0 <= e <= low.len(),
    ensures
        greedy(low, low.take(e)) == e,
    decreases e,
{
    if e > 0 {
        lemma_greedy_self(low, e - 1);
        assert(low.take(e).drop_last() =~= low.take(e - 1));
    }
}

proof fn lemma_greedy_back_self(low: Seq<char>, i: int)
    requires
        0 <= i <= low.len(),
    ensures
        greedy_back(low, low.subrange(i, low.len() as int)) == low.len() - i,
    decreases low.len() - i,
{
    if i < low.len() {
        lemma_greedy_back_self(low, i + 1);
        assert(low.subrange(i, low.len() as int).drop_first() =~= low.subrange(i + 1, low.len() as int));
    }
}

proof fn lemma_window_start_self(low: Seq<char>, i: int)
    requires
        1 <= i <= low.len(),
    ensures
        window_start(low, low, low.len() as int, i) == 0,
    decreases i,
{
    lemma_greedy_back_self(low, i - 1);
    if i > 1 {
        lemma_window_start_self(low, i - 1);
    }
}

/// The walk over a text that is exactly the needle, all of it lowercase letters.
proof fn lemma_walk_one_run(low: Seq<char>, hay: Seq<char>, i: int)
    requires
        1 <= i <= low.len(),
        hay.len() == low.len(),
        forall|k: int| 0 <= k < hay.len() ==> class(#[trigger] hay[k]) == Class::Lower,
    ensures
        ({
            let w = walk(low, hay, low, 0, i);
            &&& w.0 == 32 + 24 * (i - 1)
            &&& w.2 == i
            &&& w.3 == i
            &&& w.4 == 8
            &&& w.6 == Class::Lower
        }),
    decreases i,
{
    assert(class(hay[i - 1]) == Class::Lower);
    if i > 1 {
        lemma_walk_one_run(low, hay, i - 1);
    }
}

/// A term typed whole, against a text that is exactly that word in lowercase letters,
/// matches as one unbroken run from the word's start: its first letter earns a match
/// and a doubled word-start bonus, 16 + 2 * 8; every following letter earns a match and,
/// inside the run, at least the run's opening bonus, 16 + 8. So a word of `n` letters
/// scores 32 + 24 * (n - 1) against itself (104 for `acme`).
pub proof fn law_a_whole_word_scores_one_unbroken_run(q: Seq<char>)
    requires
        q.len() > 0,
        forall|k: int| 0 <= k < q.len() ==> class(#[trigger] q[k]) == Class::Lower && fold(q[k]) == q[k],
    ensures
        terms_match(seq![q], q) matches Some((s, _)) && s == 32 + 24 * (q.len() - 1),
{
    let n = q.len() as int;
    assert(folded(q) =~= q);
    lemma_greedy_self(q, n);
    lemma_greedy_self(q, n - 1);
    assert(q.take(n) =~= q);
    lemma_window_end_unique(q, q, n);
    lemma_window_start_self(q, n);
    lemma_walk_one_run(q, q, n);
    assert(greedy(q, q) == n);
    assert(window_end(q, q) == Some(n));
    assert(window_start(q, q, n, n) == 0);
    let w = walk(q, q, q, 0, n);
    assert(term_match(q, q, q) == Some((w.0, w.1)));
    let ts = seq![q];
    assert(ts.drop_last() =~= Seq::<Seq<char>>::empty());
    assert(terms_match(ts.drop_last(), q) == Some((0int, Seq::<usize>::empty())));
    assert(ts.last() == q);
    assert(term_match(folded(ts.last()), q, folded(q)) == Some((w.0, w.1)));
}

/// The letters of `q` with the separator `d` between each two: `a-c-m-e` for `acme`.
pub open spec fn scattered(q: Seq<char>, d: char) -> Seq<char> {
    Seq::new((2 * q.len() - 1) as nat, |i: int| if i % 2 == 0 { q[i / 2] } else { d })
}

proof fn lemma_greedy_scattered(q: Seq<char>, d: char, e: int)
    requires
        q.len() > 0,
        0 <= e <= 2 * q.len() - 1,
        forall|k: int| 0 <= k < q.len() ==> #[trigger] q[k] != d,
    ensures
        greedy(q, scattered(q, d).take(e)) == (e + 1) / 2,
    decreases e,
{
    let h = scattered(q, d);
    if e > 0 {
        lemma_greedy_scattered(q, d, e - 1);
        assert(h.take(e).drop_last() =~= h.take(e - 1));
        assert(h.take(e).last() == h[e - 1]);
        if (e - 1) % 2 == 0 {
            assert(h[e - 1] == q[(e - 1) / 2]);
        } else {
            assert(h[e - 1] == d);
            assert(e / 2 < q.len());
            assert(q[e / 2] != d);
        }
    }
}

proof fn lemma_greedy_back_scattered(q: Seq<char>, d: char, i: int)
    requires
        q.len() > 0,
        0 <= i <= 2 * q.len() - 1,
        forall|k: int| 0 <= k < q.len() ==> #[trigger] q[k] != d,
    ensures
        greedy_back(q, scattered(q, d).subrange(i, 2 * q.len() - 1)) == (2 * q.len() - i) / 2,
    decreases 2 * q.len() - 1 - i,
{
    let h = scattered(q, d);
    let end = 2 * q.len() - 1;
    if i < end {
        lemma_greedy_back_scattered(q, d, i + 1);
        assert(h.subrange(i, end).drop_first() =~= h.subrange(i + 1, end));
        assert(h.subrange(i, end)[0] == h[i]);
        if i % 2 == 0 {
            assert(h[i] == q[i / 2]);
        } else {
            assert(h[i] == d);
            let m = (2 * q.len() - i - 1) / 2;
            assert(q[q.len() - 1 - m] != d);
        }
    }
}

proof fn lemma_window_start_scattered(q: Seq<char>, d: char, i: int)
    requires
        q.len() > 0,
        1 <= i <= 2 * q.len() - 1,
        forall|k: int| 0 <= k < q.len() ==> #[trigger] q[k] != d,
    ensures
        window_start(q, scattered(q, d), 2 * q.len() - 1, i) == 0,
    decreases i,
{
    lemma_greedy_back_scattered(q, d, i - 1);
    if i > 1 {
        lemma_window_start_scattered(q, d, i - 1);
    }
}

/// The walk over the scattered letters: a match, then a gap, in turn.
proof fn lemma_walk_scattered(q: Seq<char>, d: char, i: int)
    requires
        q.len() > 0,
        1 <= i <= 2 * q.len() - 1,
        forall|k: int| 0 <= k < q.len() ==> #[trigger] q[k] != d && class(q[k]) == Class::Lower,
        class(d) == Class::Delim,
    ensures
        ({
            let h = scattered(q, d);
            let w = walk(q, h, h, 0, i);
            &&& i % 2 == 1 ==> w.0 == 32 + 21 * ((i - 1) / 2) && w.2 == (i + 1) / 2 && w.3 == 1 && w.4 == 8 && !w.5 && w.6 == Class::Lower
            &&& i % 2 == 0 ==> w.0 == 32 + 21 * (i / 2 - 1) - 3 && w.2 == i / 2 && w.3 == 0 && w.4 == 0 && w.5 && w.6 == Class::Delim
        }),
    decreases i,
{
    let h = scattered(q, d);
    if (i - 1) % 2 == 0 {
        assert(h[i - 1] == q[(i - 1) / 2]);
        assert(class(q[(i - 1) / 2]) == Class::Lower);
    } else {
        assert(h[i - 1] == d);
        assert(q[(i - 1) / 2 + 1] != d);
    }
    if i > 1 {
        lemma_walk_scattered(q, d, i - 1);
    }
}

/// A word typed whole ranks its unbroken occurrence above the same letters scattered by
/// a separator: against `q`, one run scoring 32 + 24 * (n - 1); against `q`'s letters
/// with `d` between each two (`a-c-m-e` for `acme`), each letter starts a word and scores
/// 16 + 8, but each separator costs 3, so 32 + 21 * (n - 1) (95 for `acme`, below 104).
pub proof fn law_an_unbroken_word_outscores_its_scattered_letters(q: Seq<char>, d: char)
    requires
        q.len() >= 2,
        forall|k: int| 0 <= k < q.len() ==> #[trigger] q[k] != d && class(q[k]) == Class::Lower && fold(q[k]) == q[k],
        class(d) == Class::Delim,
        fold(d) == d,
    ensures
        terms_match(seq![q], scattered(q, d)) matches Some((s, _)) && s == 32 + 21 * (q.len() - 1),
        terms_match(seq![q], q).unwrap().0 > terms_match(seq![q], scattered(q, d)).unwrap().0,
{
    law_a_whole_word_scores_one_unbroken_run(q);
    let n = q.len() as int;
    let h = scattered(q, d);
    let end = 2 * n - 1;
    assert(folded(q) =~= q);
    assert(folded(h) =~= h) by {
        assert forall|i: int| 0 <= i < h.len() implies folded(h)[i] == h[i] by {
            if i % 2 == 0 {
                assert(h[i] == q[i / 2]);
            }
        }
    }
    assert forall|k: int| 0 <= k < q.len() implies #[trigger] q[k] != d && class(q[k]) == Class::Lower by {}
    lemma_greedy_scattered(q, d, end);
    lemma_greedy_scattered(q, d, end - 1);
    assert(h.take(end) =~= h);
    lemma_window_end_unique(q, h, end);
    lemma_window_start_scattered(q, d, end);
    lemma_walk_scattered(q, d, end);
    assert(greedy(q, h) == n);
    assert(window_end(q, h) == Some(end));
    let w = walk(q, h, h, 0, end);
    assert(term_match(q, h, h) == Some((w.0, w.1)));
    let ts = seq![q];
    assert(ts.drop_last() =~= Seq::<Seq<char>>::empty());
    assert(terms_match(ts.drop_last(), h) == Some((0int, Seq::<usize>::empty())));
    assert(ts.last() == q);
    assert(term_match(folded(ts.last()), h, folded(h)) == Some((w.0, w.1)));
}

/// The letters of `q` with two separators `d` between each two: `a--c--m--e`.
pub open spec fn spread(q: Seq<char>, d: char) -> Seq<char> {
    Seq::new((3 * q.len() - 2) as nat, |i: int| if i % 3 == 0 { q[i / 3] } else { d })
}

proof fn lemma_greedy_spread(q: Seq<char>, d: char, e: int)
    requires
        q.len() > 0,
        0 <= e <= 3 * q.len() - 2,
        forall|k: int| 0 <= k < q.len() ==> #[trigger] q[k] != d,
    ensures
        greedy(q, spread(q, d).take(e)) == (e + 2) / 3,
    decreases e,
{
    let h = spread(q, d);
    if e > 0 {
        lemma_greedy_spread(q, d, e - 1);
        assert(h.take(e).drop_last() =~= h.take(e - 1));
        assert(h.take(e).last() == h[e - 1]);
        if (e - 1) % 3 == 0 {
            assert(h[e - 1] == q[(e - 1) / 3]);
        } else {
            assert(h[e - 1] == d);
            assert((e + 1) / 3 < q.len());
            assert(q[(e + 1) / 3] != d);
        }
    }
}

proof fn lemma_greedy_back_spread(q: Seq<char>, d: char, i: int)
    requires
        q.len() > 0,
        0 <= i <= 3 * q.len() - 2,
        forall|k: int| 0 <= k < q.len() ==> #[trigger] q[k] != d,
    ensures
        greedy_back(q, spread(q, d).subrange(i, 3 * q.len() - 2)) == q.len() - (i + 2) / 3,
    decreases 3 * q.len() - 2 - i,
{
    let h = spread(q, d);
    let end = 3 * q.len() - 2;
    if i < end {
        lemma_greedy_back_spread(q, d, i + 1);
        assert(h.subrange(i, end).drop_first() =~= h.subrange(i + 1, end));
        assert(h.subrange(i, end)[0] == h[i]);
        if i % 3 == 0 {
            assert(h[i] == q[i / 3]);
        } else {
            assert(h[i] == d);
            let m = q.len() - (i + 3) / 3;
            assert(q[q.len() - 1 - m] != d);
        }
    }
}

proof fn lemma_window_start_spread(q: Seq<char>, d: char, i: int)
    requires
        q.len() > 0,
        1 <= i <= 3 * q.len() - 2,
        forall|k: int| 0 <= k < q.len() ==> #[trigger] q[k] != d,
    ensures
        window_start(q, spread(q, d), 3 * q.len() - 2, i) == 0,
    decreases i,
{
    lemma_greedy_back_spread(q, d, i - 1);
    if i > 1 {
        lemma_window_start_spread(q, d, i - 1);
    }
}

/// The walk over the spread letters: a match, then a gap of two, in turn.
proof fn lemma_walk_spread(q: Seq<char>, d: char, i: int)
    requires
        q.len() > 0,
        1 <= i <= 3 * q.len() - 2,
        forall|k: int| 0 <= k < q.len() ==> #[trigger] q[k] != d && class(q[k]) == Class::Lower,
        class(d) == Class::Delim,
    ensures
        ({
            let h = spread(q, d);
            let w = walk(q, h, h, 0, i);
            &&& i % 3 == 1 ==> w.0 == 32 + 20 * ((i - 1) / 3) && w.2 == (i + 2) / 3 && w.3 == 1 && w.4 == 8 && !w.5 && w.6 == Class::Lower
            &&& i % 3 == 2 ==> w.0 == 32 + 20 * ((i - 2) / 3) - 3 && w.2 == (i + 1) / 3 && w.3 == 0 && w.4 == 0 && w.5 && w.6 == Class::Delim
            &&& i % 3 == 0 ==> w.0 == 32 + 20 * (i / 3 - 1) - 4 && w.2 == i / 3 && w.3 == 0 && w.4 == 0 && w.5 && w.6 == Class::Delim
        }),
    decreases i,
{
    let h = spread(q, d);
    if (i - 1) % 3 == 0 {
        assert(h[i - 1] == q[(i - 1) / 3]);
        assert(class(q[(i - 1) / 3]) == Class::Lower);
    } else {
        assert(h[i - 1] == d);
        assert((i + 1) / 3 < q.len());
        assert(q[(i + 1) / 3] != d);
    }
    if i > 1 {
        lemma_walk_spread(q, d, i - 1);
    }
}

/// A longer gap costs more: the letters of a word typed whole, with one separator
/// between each two, score 32 + 21 * (n - 1); with two separators between each two
/// (`a--c--m--e`), the second separator of each gap costs one more, so 32 + 20 * (n - 1).
pub proof fn law_a_longer_gap_costs_more(q: Seq<char>, d: char)
    requires
        q.len() >= 2,
        forall|k: int| 0 <= k < q.len() ==> #[trigger] q[k] != d && class(q[k]) == Class::Lower && fold(q[k]) == q[k],
        class(d) == Class::Delim,
        fold(d) == d,
    ensures
        terms_match(seq![q], spread(q, d)) matches Some((s, _)) && s == 32 + 20 * (q.len() - 1),
        terms_match(seq![q], scattered(q, d)).unwrap().0 > terms_match(seq![q], spread(q, d)).unwrap().0,
{
    law_an_unbroken_word_outscores_its_scattered_letters(q, d);
    let n = q.len() as int;
    let h = spread(q, d);
    let end = 3 * n - 2;
    assert(folded(q) =~= q);
    assert(folded(h) =~= h) by {
        assert forall|i: int| 0 <= i < h.len() implies folded(h)[i] == h[i] by {
            if i % 3 == 0 {
                assert(h[i] == q[i / 3]);
            }
        }
    }
    assert forall|k: int| 0 <= k < q.len() implies #[trigger] q[k] != d && class(q[k]) == Class::Lower by {}
    lemma_greedy_spread(q, d, end);
    lemma_greedy_spread(q, d, end - 1);
    assert(h.take(end) =~= h);
    lemma_window_end_unique(q, h, end);
    lemma_window_start_spread(q, d, end);
    lemma_walk_spread(q, d, end);
    assert(greedy(q, h) == n);
    assert(window_end(q, h) == Some(end));
    let w = walk(q, h, h, 0, end);
    assert(term_match(q, h, h) == Some((w.0, w.1)));
    let ts = seq![q];
    assert(ts.drop_last() =~= Seq::<Seq<char>>::empty());
    assert(terms_match(ts.drop_last(), h) == Some((0int, Seq::<usize>::empty())));
    assert(ts.last() == q);
    assert(term_match(folded(ts.last()), h, folded(h)) == Some((w.0, w.1)));
}

/// A boundary the eye sees without a separator earns one point less than a word start:
/// a letter typed alone, found just after a lowercase letter where the text turns to
/// upper case (`acmeProd`) or to a digit (`acme2`), scores 16 + 2 * 7 = 30, where a
/// word start would score 32.
pub proof fn law_a_camel_boundary_scores_below_a_word_start(a: char, c: char, l: char)
    requires
        class(a) == Class::Lower,
        class(c) == Class::Upper || class(c) == Class::Digit,
        fold(c) == l,
        fold(l) == l,
        fold(a) != l,
    ensures
        terms_match(seq![seq![l]], seq![a, c]) matches Some((s, _)) && s == 30,
{
    let needle = seq![l];
    let hay = seq![a, c];
    let low = folded(hay);
    assert(low =~= seq![fold(a), l]);
    assert(folded(needle) =~= needle);
    assert(low.take(1) =~= seq![fold(a)]);
    assert(low.take(1).drop_last() =~= Seq::<char>::empty());
    assert(low.take(2) =~= low);
    assert(low.take(2).drop_last() =~= low.take(1));
    assert(greedy(needle, Seq::<char>::empty()) == 0);
    assert(low.take(1).last() == fold(a));
    assert(greedy(needle, low.take(1)) == 0);
    assert(low.take(2).last() == l);
    assert(greedy(needle, low.take(2)) == 1);
    assert(greedy(needle, low) == 1);
    lemma_window_end_unique(needle, low, 2);
    assert(low.subrange(1, 2) =~= seq![l]);
    assert(low.subrange(1, 2).drop_first() =~= Seq::<char>::empty());
    assert(greedy_back(needle, Seq::<char>::empty()) == 0);
    assert(greedy_back(needle, low.subrange(1, 2)) == 1);
    assert(window_start(needle, low, 2, 2) == 1);
    let w = walk(needle, hay, low, 1, 2);
    assert(walk(needle, hay, low, 1, 1) == walk_start(hay, 1));
    assert(w.0 == 30);
    assert(term_match(needle, hay, low) == Some((w.0, w.1)));
    let ts = seq![needle];
    assert(ts.drop_last() =~= Seq::<Seq<char>>::empty());
    assert(terms_match(ts.drop_last(), hay) == Some((0int, Seq::<usize>::empty())));
    assert(ts.last() == needle);
}

/// A query matches a text exactly when each of its space-separated terms is, ignoring
/// case, a subsequence of the text: its letters appear there in the typed order.
pub proof fn law_match_iff_every_term_is_a_subsequence(query: Seq<char>, text: Seq<char>)
    ensures
        terms_match(words(query), text) is Some <==> forall|i: int|
            0 <= i < words(query).len() ==> subsequence(folded(#[trigger] words(query)[i]), folded(text)),
{
    lemma_terms_iff(words(query), text);
}

/// A query without any term matches every text, with the neutral score and nothing
/// highlighted.
pub proof fn law_empty_query_matches_everything(query: Seq<char>, text: Seq<char>)
    requires
        words(query).len() == 0,
    ensures
        terms_match(words(query), text) == Some((0int, Seq::<usize>::empty())),
{
}

} // verus!
