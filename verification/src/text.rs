//! Text as sequences of characters: the handful of `str` operations the rest of the
//! crate is written with, each stated over `Seq<char>`.

use vstd::prelude::*;

verus! {

/// The Unicode `White_Space` code points — exactly what `char::is_whitespace` accepts.
pub open spec fn white_space(c: char) -> bool {
    let n = c as u32;
    ||| 0x09 <= n <= 0x0d
    ||| n == 0x20
    ||| n == 0x85
    ||| n == 0xa0
    ||| n == 0x1680
    ||| 0x2000 <= n <= 0x200a
    ||| n == 0x2028
    ||| n == 0x2029
    ||| n == 0x202f
    ||| n == 0x205f
    ||| n == 0x3000
}

/// The general category `Cc` — exactly what `char::is_control` accepts.
pub open spec fn control(c: char) -> bool {
    let n = c as u32;
    n <= 0x1f || (0x7f <= n <= 0x9f)
}

pub open spec fn is_ascii_char(c: char) -> bool {
    (c as u32) < 128
}

pub open spec fn ascii_upper_letter(c: char) -> bool {
    'A' <= c <= 'Z'
}

pub open spec fn ascii_lower_letter(c: char) -> bool {
    'a' <= c <= 'z'
}

pub open spec fn ascii_digit(c: char) -> bool {
    '0' <= c <= '9'
}

/// ASCII lowercasing: `A`–`Z` become `a`–`z`, every other character stays.
pub open spec fn ascii_lower(c: char) -> char {
    if ascii_upper_letter(c) {
        ((c as u32) + 32) as char
    } else {
        c
    }
}

/// First character of `char::to_lowercase`.
pub uninterp spec fn lower_of(c: char) -> char;

/// Result of `char::is_numeric`.
pub uninterp spec fn numeric(c: char) -> bool;

/// Result of `char::is_uppercase`.
pub uninterp spec fn uppercase(c: char) -> bool;

/// Result of `char::is_alphabetic`.
pub uninterp spec fn alphabetic(c: char) -> bool;

/// Result of `str::to_lowercase`.
pub uninterp spec fn lower_str(s: Seq<char>) -> Seq<char>;

/// Result of `str::to_uppercase`.
pub uninterp spec fn upper_str(s: Seq<char>) -> Seq<char>;

/// What `char::is_whitespace` answers: the `White_Space` code points, and only them.
pub(crate) fn is_whitespace(c: char) -> (r: bool)
    ensures
        r == white_space(c),
{
    let n = c as u32;
    (0x09 <= n && n <= 0x0d) || n == 0x20 || n == 0x85 || n == 0xa0 || n == 0x1680
        || (0x2000 <= n && n <= 0x200a) || n == 0x2028 || n == 0x2029 || n == 0x202f
        || n == 0x205f || n == 0x3000
}

/// What `char::is_control` answers: the `Cc` code points, and only them.
pub(crate) fn is_control(c: char) -> (r: bool)
    ensures
        r == control(c),
{
    let n = c as u32;
    n <= 0x1f || (0x7f <= n && n <= 0x9f)
}

/// `char::to_lowercase`, first character (the character itself when the mapping is
/// empty). The contract names the result, and states what the documentation gives for
/// ASCII: `A`–`Z` map to `a`–`z`, other ASCII characters to themselves.
#[verifier::external_body]
pub(crate) fn to_lowercase_first(c: char) -> (r: char)
    ensures
        r == lower_of(c),
        is_ascii_char(c) ==> r == ascii_lower(c),
{
    c.to_lowercase().next().unwrap_or(c)
}

/// `char::is_numeric`: named; on ASCII, true exactly for `0`–`9`.
#[verifier::external_body]
pub(crate) fn is_numeric(c: char) -> (r: bool)
    ensures
        r == numeric(c),
        is_ascii_char(c) ==> (r <==> ascii_digit(c)),
{
    c.is_numeric()
}

/// `char::is_uppercase`: named; on ASCII, true exactly for `A`–`Z`.
#[verifier::external_body]
pub(crate) fn is_uppercase(c: char) -> (r: bool)
    ensures
        r == uppercase(c),
        is_ascii_char(c) ==> (r <==> ascii_upper_letter(c)),
{
    c.is_uppercase()
}

/// `char::is_alphabetic`: named; on ASCII, true exactly for the letters.
#[verifier::external_body]
pub(crate) fn is_alphabetic(c: char) -> (r: bool)
    ensures
        r == alphabetic(c),
        is_ascii_char(c) ==> (r <==> (ascii_upper_letter(c) || ascii_lower_letter(c))),
{
    c.is_alphabetic()
}

/// Every character is ASCII.
pub open spec fn is_ascii_text(s: Seq<char>) -> bool {
    forall|i: int| 0 <= i < s.len() ==> is_ascii_char(#[trigger] s[i])
}

/// ASCII lowercasing of a whole text, character by character.
pub open spec fn ascii_lowered(s: Seq<char>) -> Seq<char> {
    s.map_values(|c: char| ascii_lower(c))
}

/// `str::to_lowercase`, whose result is named. On ASCII text the documented mapping is
/// the ASCII one: `A`–`Z` become `a`–`z`, every other character stays.
#[verifier::external_body]
pub(crate) fn to_lowercase(s: &str) -> (r: String)
    ensures
        r@ == lower_str(s@),
        is_ascii_text(s@) ==> r@ == ascii_lowered(s@),
{
    s.to_lowercase()
}

/// ASCII uppercasing: `a`–`z` become `A`–`Z`, every other character stays.
pub open spec fn ascii_upper(c: char) -> char {
    if ascii_lower_letter(c) {
        ((c as u32) - 32) as char
    } else {
        c
    }
}

/// ASCII uppercasing of a whole text, character by character.
pub open spec fn ascii_uppered(s: Seq<char>) -> Seq<char> {
    s.map_values(|c: char| ascii_upper(c))
}

/// `str::to_uppercase`, whose result is named. On ASCII text the documented mapping is
/// the ASCII one: `a`–`z` become `A`–`Z`, every other character stays.
#[verifier::external_body]
pub(crate) fn to_uppercase(s: &str) -> (r: String)
    ensures
        r@ == upper_str(s@),
        is_ascii_text(s@) ==> r@ == ascii_uppered(s@),
{
    s.to_uppercase()
}

/// `String::push`: appends one character.
#[verifier::external_body]
pub(crate) fn push_char(s: &mut String, c: char)
    ensures
        final(s)@ == old(s)@.push(c),
{
    s.push(c);
}

/// The characters of a string, in order.
pub fn chars_of(s: &str) -> (r: Vec<char>)
    ensures
        r@ == s@,
{
    broadcast use vstd::string::group_string_axioms;

    let mut r: Vec<char> = Vec::new();
    for c in it: s.chars()
        invariant
            r@ == it.seq().take(it.index() as int),
    {
        r.push(c);
    }
    r
}

/// The string made of these characters.
pub fn string_of(cs: &[char]) -> (r: String)
    ensures
        r@ == cs@,
{
    let mut r = String::new();
    let mut i: usize = 0;
    while i < cs.len()
        invariant
            i <= cs@.len(),
            r@ == cs@.take(i as int),
        decreases cs@.len() - i,
    {
        push_char(&mut r, cs[i]);
        i += 1;
        assert(r@ =~= cs@.take(i as int));
    }
    assert(cs@.take(cs@.len() as int) =~= cs@);
    r
}

/// A copy of `s[from..to]`.
pub fn slice(s: &[char], from: usize, to: usize) -> (r: Vec<char>)
    requires
        from <= to <= s@.len(),
    ensures
        r@ == s@.subrange(from as int, to as int),
{
    let mut r: Vec<char> = Vec::new();
    let mut i = from;
    while i < to
        invariant
            from <= i <= to <= s@.len(),
            r@ == s@.subrange(from as int, i as int),
        decreases to - i,
    {
        r.push(s[i]);
        i += 1;
        assert(r@ =~= s@.subrange(from as int, i as int));
    }
    r
}

/// Equality of two character sequences.
pub fn same(a: &[char], b: &[char]) -> (r: bool)
    ensures
        r == (a@ == b@),
{
    if a.len() != b.len() {
        return false;
    }
    let mut i: usize = 0;
    while i < a.len()
        invariant
            a@.len() == b@.len(),
            i <= a@.len(),
            forall|j: int| 0 <= j < i ==> a@[j] == b@[j],
        decreases a@.len() - i,
    {
        if a[i] != b[i] {
            return false;
        }
        i += 1;
    }
    assert(a@ =~= b@);
    true
}

/// Equality of two strings, by their characters.
pub fn same_str(a: &str, b: &str) -> (r: bool)
    ensures
        r == (a@ == b@),
{
    let x = chars_of(a);
    let y = chars_of(b);
    same(&x, &y)
}

/// `pat` occurs in `s` at index `i`.
pub open spec fn occurs_at(s: Seq<char>, pat: Seq<char>, i: int) -> bool {
    0 <= i && i + pat.len() <= s.len() && s.subrange(i, i + pat.len()) == pat
}

/// Index of the first occurrence of `pat` in `s` at or after `from` (`str::find`).
pub open spec fn find_from(s: Seq<char>, pat: Seq<char>, from: int) -> Option<int>
    decreases s.len() + 1 - from,
{
    if from < 0 || from + pat.len() > s.len() {
        None
    } else if occurs_at(s, pat, from) {
        Some(from)
    } else {
        find_from(s, pat, from + 1)
    }
}

pub open spec fn starts_with(s: Seq<char>, pat: Seq<char>) -> bool {
    occurs_at(s, pat, 0)
}

pub open spec fn ends_with(s: Seq<char>, pat: Seq<char>) -> bool {
    occurs_at(s, pat, s.len() - pat.len())
}

pub open spec fn contains(s: Seq<char>, pat: Seq<char>) -> bool {
    find_from(s, pat, 0) is Some
}

/// What `find_from` returns: the first occurrence at or after `from`.
pub proof fn lemma_find_from(s: Seq<char>, pat: Seq<char>, from: int)
    requires
        0 <= from,
    ensures
        find_from(s, pat, from) matches Some(e) ==> from <= e && e + pat.len() <= s.len()
            && occurs_at(s, pat, e) && forall|j: int| from <= j < e ==> !occurs_at(s, pat, j),
        find_from(s, pat, from) is None ==> forall|j: int| from <= j ==> !occurs_at(s, pat, j),
    decreases s.len() + 1 - from,
{
    if from + pat.len() > s.len() {
    } else if occurs_at(s, pat, from) {
    } else {
        lemma_find_from(s, pat, from + 1);
    }
}

/// Does `pat` occur in `s` at index `i`?
pub fn occurs(s: &[char], pat: &[char], i: usize) -> (r: bool)
    ensures
        r == occurs_at(s@, pat@, i as int),
{
    if i > s.len() || pat.len() > s.len() - i {
        return false;
    }
    let mut j: usize = 0;
    while j < pat.len()
        invariant
            i + pat@.len() <= s@.len(),
            s@.len() == s.len(),
            j <= pat@.len(),
            forall|k: int| 0 <= k < j ==> s@[i + k] == pat@[k],
        decreases pat@.len() - j,
    {
        if s[i + j] != pat[j] {
            assert(s@.subrange(i as int, i + pat@.len())[j as int] != pat@[j as int]);
            return false;
        }
        j += 1;
    }
    assert(s@.subrange(i as int, i + pat@.len()) =~= pat@);
    true
}

/// First index at or after `from` where `pat` occurs (`str::find` on `s[from..]`).
pub fn find(s: &[char], pat: &[char], from: usize) -> (r: Option<usize>)
    ensures
        r matches Some(i) ==> find_from(s@, pat@, from as int) == Some(i as int),
        r is None ==> find_from(s@, pat@, from as int) is None,
{
    let mut i = from;
    while i <= s.len() && pat.len() <= s.len() - i
        invariant
            from <= i,
            find_from(s@, pat@, from as int) == find_from(s@, pat@, i as int),
        decreases s@.len() + 1 - i,
    {
        if occurs(s, pat, i) {
            return Some(i);
        }
        assert(pat@.len() > 0) by {
            if pat@.len() == 0 {
                assert(s@.subrange(i as int, i as int) =~= pat@);
            }
        }
        i += 1;
    }
    proof {
        r_none(s, pat, i);
    }
    None
}

proof fn r_none(s: &[char], pat: &[char], i: usize)
    ensures
        !(i <= s@.len() && pat@.len() <= s@.len() - i) ==> find_from(s@, pat@, i as int) is None,
{
}

/// Does `s` start with `pat`?
pub fn has_prefix(s: &[char], pat: &[char]) -> (r: bool)
    ensures
        r == starts_with(s@, pat@),
{
    occurs(s, pat, 0)
}

/// Does `s` end with `pat`?
pub fn has_suffix(s: &[char], pat: &[char]) -> (r: bool)
    ensures
        r == ends_with(s@, pat@),
{
    if pat.len() > s.len() {
        return false;
    }
    occurs(s, pat, s.len() - pat.len())
}

/// Does `pat` occur anywhere in `s`?
pub fn has(s: &[char], pat: &[char]) -> (r: bool)
    ensures
        r == contains(s@, pat@),
{
    find(s, pat, 0).is_some()
}

/// `s` without its leading whitespace (`str::trim_start`).
pub open spec fn trim_start(s: Seq<char>) -> Seq<char>
    decreases s.len(),
{
    if s.len() > 0 && white_space(s[0]) {
        trim_start(s.drop_first())
    } else {
        s
    }
}

/// `s` without its trailing whitespace (`str::trim_end`).
pub open spec fn trim_end(s: Seq<char>) -> Seq<char>
    decreases s.len(),
{
    if s.len() > 0 && white_space(s.last()) {
        trim_end(s.drop_last())
    } else {
        s
    }
}

/// `s` without leading and trailing whitespace (`str::trim`).
pub open spec fn trim(s: Seq<char>) -> Seq<char> {
    trim_end(trim_start(s))
}

/// Number of leading whitespace characters.
pub open spec fn lead(s: Seq<char>) -> nat
    decreases s.len(),
{
    if s.len() > 0 && white_space(s[0]) {
        1 + lead(s.drop_first())
    } else {
        0
    }
}

/// Number of trailing whitespace characters.
pub open spec fn trail(s: Seq<char>) -> nat
    decreases s.len(),
{
    if s.len() > 0 && white_space(s.last()) {
        1 + trail(s.drop_last())
    } else {
        0
    }
}

pub proof fn lemma_trim_start(s: Seq<char>)
    ensures
        lead(s) <= s.len(),
        trim_start(s) == s.skip(lead(s) as int),
        forall|i: int| 0 <= i < lead(s) ==> white_space(#[trigger] s[i]),
        lead(s) < s.len() ==> !white_space(s[lead(s) as int]),
    decreases s.len(),
{
    if s.len() > 0 && white_space(s[0]) {
        lemma_trim_start(s.drop_first());
        assert(s.drop_first().skip(lead(s.drop_first()) as int) =~= s.skip(lead(s) as int));
        assert forall|i: int| 0 <= i < lead(s) implies white_space(#[trigger] s[i]) by {
            if i > 0 {
                assert(s[i] == s.drop_first()[i - 1]);
            }
        }
        if lead(s) < s.len() {
            assert(s[lead(s) as int] == s.drop_first()[lead(s.drop_first()) as int]);
        }
    } else {
        assert(s.skip(0) =~= s);
    }
}

pub proof fn lemma_trim_end(s: Seq<char>)
    ensures
        trail(s) <= s.len(),
        trim_end(s) == s.take(s.len() - trail(s)),
        forall|i: int| s.len() - trail(s) <= i < s.len() ==> white_space(#[trigger] s[i]),
        trail(s) < s.len() ==> !white_space(s[s.len() - trail(s) - 1]),
    decreases s.len(),
{
    if s.len() > 0 && white_space(s.last()) {
        lemma_trim_end(s.drop_last());
        assert(s.drop_last().take(s.drop_last().len() - trail(s.drop_last())) =~= s.take(
            s.len() - trail(s),
        ));
        assert forall|i: int| s.len() - trail(s) <= i < s.len() implies white_space(
            #[trigger] s[i],
        ) by {
            if i < s.len() - 1 {
                assert(s[i] == s.drop_last()[i]);
            }
        }
        if trail(s) < s.len() {
            assert(s[s.len() - trail(s) - 1] == s.drop_last()[s.drop_last().len() - trail(
                s.drop_last(),
            ) - 1]);
        }
    } else {
        assert(s.take(s.len() as int) =~= s);
    }
}

/// Number of leading whitespace characters, computed.
fn count_lead(s: &[char], from: usize, to: usize) -> (r: usize)
    requires
        from <= to <= s@.len(),
    ensures
        from <= r <= to,
        r - from == lead(s@.subrange(from as int, to as int)),
{
    let mut i = from;
    while i < to && is_whitespace(s[i])
        invariant
            from <= i <= to <= s@.len(),
            lead(s@.subrange(from as int, to as int)) == (i - from) + lead(
                s@.subrange(i as int, to as int),
            ),
        decreases to - i,
    {
        assert(s@.subrange(i as int, to as int).drop_first() =~= s@.subrange(i + 1, to as int));
        i += 1;
    }
    proof {
        r_lead_stop(s@.subrange(i as int, to as int));
    }
    i
}

proof fn r_lead_stop(t: Seq<char>)
    ensures
        (t.len() == 0 || !white_space(t[0])) ==> lead(t) == 0,
{
}

/// Number of trailing whitespace characters in `s[from..to]`, computed.
fn count_trail(s: &[char], from: usize, to: usize) -> (r: usize)
    requires
        from <= to <= s@.len(),
    ensures
        from <= r <= to,
        to - r == trail(s@.subrange(from as int, to as int)),
{
    let mut j = to;
    while j > from && is_whitespace(s[j - 1])
        invariant
            from <= j <= to <= s@.len(),
            trail(s@.subrange(from as int, to as int)) == (to - j) + trail(
                s@.subrange(from as int, j as int),
            ),
        decreases j - from,
    {
        assert(s@.subrange(from as int, j as int).drop_last() =~= s@.subrange(
            from as int,
            j - 1,
        ));
        j -= 1;
    }
    proof {
        r_trail_stop(s@.subrange(from as int, j as int));
    }
    j
}

proof fn r_trail_stop(t: Seq<char>)
    ensures
        (t.len() == 0 || !white_space(t.last())) ==> trail(t) == 0,
{
}

/// `s` with leading and trailing whitespace removed (`str::trim`).
pub fn trimmed(s: &[char]) -> (r: Vec<char>)
    ensures
        r@ == trim(s@),
{
    let a = count_lead(s, 0, s.len());
    let b = count_trail(s, a, s.len());
    proof {
        assert(s@.subrange(0, s@.len() as int) =~= s@);
        lemma_trim_start(s@);
        let t = trim_start(s@);
        assert(t =~= s@.subrange(a as int, s@.len() as int));
        lemma_trim_end(t);
        assert(trim_end(t) =~= s@.subrange(a as int, b as int));
    }
    slice(s, a, b)
}

/// `s` with trailing whitespace removed (`str::trim_end`).
pub fn trimmed_end(s: &[char]) -> (r: Vec<char>)
    ensures
        r@ == trim_end(s@),
{
    let b = count_trail(s, 0, s.len());
    proof {
        assert(s@.subrange(0, s@.len() as int) =~= s@);
        lemma_trim_end(s@);
        assert(trim_end(s@) =~= s@.subrange(0, b as int));
    }
    slice(s, 0, b)
}

/// `str::trim` on a string.
pub fn trim_str(s: &str) -> (r: String)
    ensures
        r@ == trim(s@),
{
    let cs = chars_of(s);
    let t = trimmed(&cs);
    string_of(&t)
}

/// Lexicographic order on characters — the order of `String`'s `Ord`.
pub open spec fn text_lt(a: Seq<char>, b: Seq<char>) -> bool
    decreases a.len(),
{
    if a.len() == 0 {
        b.len() > 0
    } else if b.len() == 0 {
        false
    } else if a[0] != b[0] {
        a[0] < b[0]
    } else {
        text_lt(a.drop_first(), b.drop_first())
    }
}

pub proof fn lemma_text_lt_irreflexive(a: Seq<char>)
    ensures
        !text_lt(a, a),
    decreases a.len(),
{
    if a.len() > 0 {
        lemma_text_lt_irreflexive(a.drop_first());
    }
}

pub proof fn lemma_text_lt_transitive(a: Seq<char>, b: Seq<char>, c: Seq<char>)
    requires
        text_lt(a, b),
        text_lt(b, c),
    ensures
        text_lt(a, c),
    decreases a.len(),
{
    if a.len() > 0 && b.len() > 0 && c.len() > 0 && a[0] == b[0] && b[0] == c[0] {
        lemma_text_lt_transitive(a.drop_first(), b.drop_first(), c.drop_first());
    }
}

pub proof fn lemma_text_lt_total(a: Seq<char>, b: Seq<char>)
    ensures
        a != b ==> text_lt(a, b) || text_lt(b, a),
    decreases a.len(),
{
    if a.len() > 0 && b.len() > 0 && a[0] == b[0] {
        lemma_text_lt_total(a.drop_first(), b.drop_first());
        if a.drop_first() =~= b.drop_first() {
            assert forall|i: int| 0 <= i < a.len() implies a[i] == b[i] by {
                if i > 0 {
                    assert(a[i] == a.drop_first()[i - 1]);
                    assert(b[i] == b.drop_first()[i - 1]);
                }
            }
            assert(a =~= b);
        }
    } else if a.len() == 0 && b.len() == 0 {
        assert(a =~= b);
    }
}

/// Does `a` come strictly before `b`?
pub fn precedes(a: &[char], b: &[char]) -> (r: bool)
    ensures
        r == text_lt(a@, b@),
{
    let mut i: usize = 0;
    assert(a@.skip(0) =~= a@);
    assert(b@.skip(0) =~= b@);
    while i < a.len() && i < b.len() && a[i] == b[i]
        invariant
            i <= a@.len(),
            i <= b@.len(),
            text_lt(a@, b@) == text_lt(a@.skip(i as int), b@.skip(i as int)),
        decreases a@.len() - i,
    {
        assert(a@.skip(i as int).drop_first() =~= a@.skip(i + 1));
        assert(b@.skip(i as int).drop_first() =~= b@.skip(i + 1));
        i += 1;
    }
    if i == a.len() {
        i < b.len()
    } else if i == b.len() {
        false
    } else {
        a[i] < b[i]
    }
}

/// First index at or after `i` holding no whitespace (`s.len()` when none does).
pub open spec fn skip_white(s: Seq<char>, i: int) -> int
    decreases s.len() - i,
{
    if i < 0 || i >= s.len() {
        s.len() as int
    } else if white_space(s[i]) {
        skip_white(s, i + 1)
    } else {
        i
    }
}

/// First index at or after `i` holding whitespace (`s.len()` when none does).
pub open spec fn word_end(s: Seq<char>, i: int) -> int
    decreases s.len() - i,
{
    if i < 0 || i >= s.len() {
        s.len() as int
    } else if !white_space(s[i]) {
        word_end(s, i + 1)
    } else {
        i
    }
}

pub proof fn lemma_skip_white(s: Seq<char>, i: int)
    requires
        0 <= i <= s.len(),
    ensures
        i <= skip_white(s, i) <= s.len(),
        skip_white(s, i) < s.len() ==> !white_space(s[skip_white(s, i)]),
        forall|j: int| i <= j < skip_white(s, i) ==> white_space(#[trigger] s[j]),
    decreases s.len() - i,
{
    if i < s.len() && white_space(s[i]) {
        lemma_skip_white(s, i + 1);
    }
}

pub proof fn lemma_word_end(s: Seq<char>, i: int)
    requires
        0 <= i <= s.len(),
    ensures
        i <= word_end(s, i) <= s.len(),
        word_end(s, i) < s.len() ==> white_space(s[word_end(s, i)]),
        forall|j: int| i <= j < word_end(s, i) ==> !white_space(#[trigger] s[j]),
        i < s.len() && !white_space(s[i]) ==> i < word_end(s, i),
    decreases s.len() - i,
{
    if i < s.len() && !white_space(s[i]) {
        lemma_word_end(s, i + 1);
    }
}

/// The whitespace-separated words of `s[i..]` (`str::split_whitespace`).
pub open spec fn words_from(s: Seq<char>, i: int) -> Seq<Seq<char>>
    decreases s.len() - i,
{
    if i < 0 || i > s.len() {
        Seq::empty()
    } else {
        let a = skip_white(s, i);
        if a >= s.len() {
            Seq::empty()
        } else {
            let b = word_end(s, a);
            proof {
                lemma_skip_white(s, i);
                lemma_word_end(s, a);
            }
            seq![s.subrange(a, b)] + words_from(s, b)
        }
    }
}

pub open spec fn words(s: Seq<char>) -> Seq<Seq<char>> {
    words_from(s, 0)
}

/// Each word's characters.
pub open spec fn deep(v: Seq<Vec<char>>) -> Seq<Seq<char>> {
    v.map_values(|w: Vec<char>| w@)
}

/// The characters of each string.
pub open spec fn strs(v: Seq<String>) -> Seq<Seq<char>> {
    v.map_values(|s: String| s@)
}

/// One more string adds its characters.
pub proof fn lemma_strs_push(v: Seq<String>, s: String)
    ensures
        strs(v.push(s)) == strs(v).push(s@),
{
    assert(strs(v.push(s)) =~= strs(v).push(s@));
}

/// The whitespace-separated words of `s` (`str::split_whitespace`).
pub fn split_words(s: &[char]) -> (r: Vec<Vec<char>>)
    ensures
        deep(r@) == words(s@),
{
    let mut out: Vec<Vec<char>> = Vec::new();
    let mut i: usize = 0;
    while i < s.len()
        invariant
            i <= s@.len(),
            words(s@) == deep(out@) + words_from(s@, i as int),
        decreases s@.len() - i,
    {
        let mut a = i;
        while a < s.len() && is_whitespace(s[a])
            invariant
                i <= a <= s@.len(),
                skip_white(s@, i as int) == skip_white(s@, a as int),
            decreases s@.len() - a,
        {
            a += 1;
        }
        proof {
            lemma_skip_white(s@, i as int);
        }
        if a >= s.len() {
            assert(words_from(s@, i as int) =~= Seq::<Seq<char>>::empty());
            assert(words(s@) =~= deep(out@));
            return out;
        }
        let mut b = a;
        while b < s.len() && !is_whitespace(s[b])
            invariant
                a <= b <= s@.len(),
                word_end(s@, a as int) == word_end(s@, b as int),
            decreases s@.len() - b,
        {
            b += 1;
        }
        proof {
            lemma_word_end(s@, a as int);
        }
        let w = slice(s, a, b);
        let ghost before = deep(out@);
        out.push(w);
        assert(deep(out@) =~= before + seq![s@.subrange(a as int, b as int)]);
        assert(words_from(s@, i as int) =~= seq![s@.subrange(a as int, b as int)] + words_from(
            s@,
            b as int,
        ));
        i = b;
    }
    assert(words_from(s@, i as int) =~= Seq::<Seq<char>>::empty());
    assert(words(s@) =~= deep(out@));
    out
}

/// First index at or after `i` holding `c` (`s.len()` when none).
pub open spec fn next_char(s: Seq<char>, c: char, i: int) -> int
    decreases s.len() - i,
{
    if i < 0 || i >= s.len() {
        s.len() as int
    } else if s[i] == c {
        i
    } else {
        next_char(s, c, i + 1)
    }
}

pub proof fn lemma_next_char(s: Seq<char>, c: char, i: int)
    requires
        0 <= i <= s.len(),
    ensures
        i <= next_char(s, c, i) <= s.len(),
        next_char(s, c, i) < s.len() ==> s[next_char(s, c, i)] == c,
        forall|j: int| i <= j < next_char(s, c, i) ==> #[trigger] s[j] != c,
    decreases s.len() - i,
{
    if i < s.len() && s[i] != c {
        lemma_next_char(s, c, i + 1);
    }
}

/// Index of the first `c` at or after `i`, computed.
pub fn index_of(s: &[char], c: char, i: usize) -> (r: usize)
    requires
        i <= s@.len(),
    ensures
        r == next_char(s@, c, i as int),
{
    let mut e = i;
    while e < s.len() && s[e] != c
        invariant
            i <= e <= s@.len(),
            next_char(s@, c, i as int) == next_char(s@, c, e as int),
        decreases s@.len() - e,
    {
        e += 1;
    }
    e
}

/// `line` without one trailing carriage return.
pub open spec fn strip_cr(line: Seq<char>) -> Seq<char> {
    if line.len() > 0 && line.last() == '\r' {
        line.drop_last()
    } else {
        line
    }
}

/// The lines of `s[i..]` (`str::lines`): split at `\n`, a `\r` just before it dropped,
/// no empty line after a final `\n`.
pub open spec fn lines_from(s: Seq<char>, i: int) -> Seq<Seq<char>>
    decreases s.len() - i,
{
    if i < 0 || i >= s.len() {
        Seq::empty()
    } else {
        let e = next_char(s, '\n', i);
        if e >= s.len() {
            seq![s.subrange(i, s.len() as int)]
        } else {
            proof {
                lemma_next_char(s, '\n', i);
            }
            seq![strip_cr(s.subrange(i, e))] + lines_from(s, e + 1)
        }
    }
}

pub open spec fn lines(s: Seq<char>) -> Seq<Seq<char>> {
    lines_from(s, 0)
}

/// The lines of `s` (`str::lines`).
pub fn split_lines(s: &[char]) -> (r: Vec<Vec<char>>)
    ensures
        deep(r@) == lines(s@),
{
    let mut out: Vec<Vec<char>> = Vec::new();
    let mut i: usize = 0;
    while i < s.len()
        invariant
            i <= s@.len(),
            lines(s@) == deep(out@) + lines_from(s@, i as int),
        decreases s@.len() - i,
    {
        let e = index_of(s, '\n', i);
        proof {
            lemma_next_char(s@, '\n', i as int);
        }
        let ghost before = deep(out@);
        if e >= s.len() {
            out.push(slice(s, i, s.len()));
            assert(deep(out@) =~= before + seq![s@.subrange(i as int, s@.len() as int)]);
            assert(lines_from(s@, s@.len() as int) =~= Seq::<Seq<char>>::empty());
            assert(lines(s@) =~= deep(out@) + lines_from(s@, s@.len() as int));
            i = s.len();
        } else {
            let mut line = slice(s, i, e);
            if line.len() > 0 && line[line.len() - 1] == '\r' {
                line.pop();
            }
            assert(line@ =~= strip_cr(s@.subrange(i as int, e as int)));
            out.push(line);
            assert(deep(out@) =~= before + seq![strip_cr(s@.subrange(i as int, e as int))]);
            i = e + 1;
        }
    }
    assert(lines_from(s@, i as int) =~= Seq::<Seq<char>>::empty());
    assert(lines(s@) =~= deep(out@));
    out
}

/// Every character of `s` is whitespace (`str::trim` would leave nothing).
pub open spec fn blank(s: Seq<char>) -> bool {
    forall|i: int| 0 <= i < s.len() ==> white_space(#[trigger] s[i])
}

/// Is `s` made of whitespace only?
pub fn is_blank(s: &[char]) -> (r: bool)
    ensures
        r == blank(s@),
{
    let mut i: usize = 0;
    while i < s.len()
        invariant
            i <= s@.len(),
            forall|j: int| 0 <= j < i ==> white_space(#[trigger] s@[j]),
        decreases s@.len() - i,
    {
        if !is_whitespace(s[i]) {
            return false;
        }
        i += 1;
    }
    true
}

pub proof fn lemma_blank_trim(s: Seq<char>)
    ensures
        blank(s) <==> trim(s).len() == 0,
{
    lemma_trim_start(s);
    lemma_trim_end(trim_start(s));
    let t = trim_start(s);
    if blank(s) {
        if lead(s) < s.len() {
            assert(white_space(s[lead(s) as int]));
        }
    }
    if trim(s).len() == 0 {
        assert forall|i: int| 0 <= i < s.len() implies white_space(#[trigger] s[i]) by {
            if i >= lead(s) {
                assert(t[i - lead(s)] == s[i]);
                assert(white_space(t[i - lead(s)]));
            }
        }
    }
}

/// The first three fields of `line` split on `sep` (`str::splitn(3, sep)`): the last
/// keeps any further separator, a missing one is empty.
pub open spec fn split3(line: Seq<char>, sep: char) -> (Seq<char>, Seq<char>, Seq<char>) {
    let a = next_char(line, sep, 0);
    if a >= line.len() {
        (line, Seq::empty(), Seq::empty())
    } else {
        let b = next_char(line, sep, a + 1);
        if b >= line.len() {
            (line.subrange(0, a), line.subrange(a + 1, line.len() as int), Seq::empty())
        } else {
            (line.subrange(0, a), line.subrange(a + 1, b), line.subrange(b + 1, line.len() as int))
        }
    }
}

/// The first three fields of `line` split on `sep`.
pub fn fields3(line: &[char], sep: char) -> (r: (Vec<char>, Vec<char>, Vec<char>))
    ensures
        r.0@ == split3(line@, sep).0,
        r.1@ == split3(line@, sep).1,
        r.2@ == split3(line@, sep).2,
{
    let n = line.len();
    let a = index_of(line, sep, 0);
    proof {
        lemma_next_char(line@, sep, 0);
    }
    if a >= n {
        return (slice(line, 0, n), Vec::new(), Vec::new());
    }
    let b = index_of(line, sep, a + 1);
    proof {
        lemma_next_char(line@, sep, a + 1);
    }
    if b >= n {
        (slice(line, 0, a), slice(line, a + 1, n), Vec::new())
    } else {
        (slice(line, 0, a), slice(line, a + 1, b), slice(line, b + 1, n))
    }
}

/// The value of a run of ASCII digits.
pub open spec fn digits_value(s: Seq<char>) -> int
    decreases s.len(),
{
    if s.len() == 0 {
        0
    } else {
        10 * digits_value(s.drop_last()) + (s.last() as int - '0' as int)
    }
}

/// A whole number as `usize::from_str` reads it: an optional `+`, then one digit or
/// more (its size aside).
pub open spec fn number(s: Seq<char>) -> Option<int> {
    let u = unsigned(s);
    if u.len() > 0 && all_digits(u) {
        Some(digits_value(u))
    } else {
        None
    }
}

/// The text past a leading `+`.
pub open spec fn unsigned(s: Seq<char>) -> Seq<char> {
    if s.len() > 0 && s[0] == '+' {
        s.drop_first()
    } else {
        s
    }
}

/// Only ASCII digits.
pub open spec fn all_digits(u: Seq<char>) -> bool {
    forall|i: int| 0 <= i < u.len() ==> ascii_digit(#[trigger] u[i])
}

/// A run of digits is worth at least any of its prefixes, and all of it at least as much
/// as its first `k` digits.
pub proof fn lemma_digits_grow(u: Seq<char>, k: int)
    requires
        0 <= k <= u.len(),
        forall|j: int| 0 <= j < k ==> ascii_digit(#[trigger] u[j]),
    ensures
        number(u.take(k)) is Some || k == 0,
        k > 0 && (forall|j: int| 0 <= j < u.len() ==> ascii_digit(#[trigger] u[j])) ==> digits_value(u) >= digits_value(u.take(k)),
    decreases u.len() - k,
{
    if k < u.len() && forall|j: int| 0 <= j < u.len() ==> ascii_digit(#[trigger] u[j]) {
        lemma_digits_grow(u, k + 1);
        assert(u.take(k + 1).drop_last() =~= u.take(k));
        lemma_digits_nonneg(u.take(k));
    }
    if k == u.len() {
        assert(u.take(k) =~= u);
    }
    if k > 0 {
        assert(u.take(k)[0] == u[0]);
    }
}

/// A character other than a digit (past the sign) makes a text no number.
pub proof fn lemma_not_a_number(s: Seq<char>, j: int)
    requires
        0 <= j < unsigned(s).len(),
        !ascii_digit(unsigned(s)[j]),
    ensures
        number(s) is None,
{
}

/// A run of digits is worth zero or more.
pub proof fn lemma_digits_nonneg(u: Seq<char>)
    requires
        forall|j: int| 0 <= j < u.len() ==> ascii_digit(#[trigger] u[j]),
    ensures
        digits_value(u) >= 0,
    decreases u.len(),
{
    if u.len() > 0 {
        lemma_digits_nonneg(u.drop_last());
    }
}

} // verus!
