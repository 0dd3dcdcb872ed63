//! The operations: new / up / down / rm / run / open, and the rules they share.
//!
//! Everything goes through here, the interface included: the interactive front-end is
//! just another caller, never a second implementation. What touches the disk, git or a
//! shell is the application's to carry out; this module decides what to carry out.

use vstd::prelude::*;

use crate::config::{concat, owned, root_of, Allocate, Ask, Commands, CopyMode, Cwd, PortSpec, Project, Prompt, PromptKind, PromptOption, Task};
use crate::state::{decimal, decimal_string, env, env_of, vars, vars_of, WtState};
use crate::tmpl::{render, rendered, Vars};
use crate::util::{join, joined_path};
use crate::fuzzy::{terms_match, MAX_SCORED};
use crate::text::{find, find_from, lemma_find_from, lemma_strs_push, strs, contains, has, has_prefix, is_blank, blank, deep, lines, split_lines, starts_with, words};
use crate::dict::Dict;
use crate::error::Error;
use crate::text::{
    ascii_digit, ascii_lower_letter, chars_of, lower_str, next_char, index_of, lemma_next_char,
    same, same_str, slice, string_of, to_lowercase, trim, trimmed, is_ascii_text, ascii_lowered,
};
use crate::util::{file_name, file_name_of};
use crate::rank::{can_rank, candidates, is_listed, law_a_typed_name_designates, matching_slugs, only, rank, ranked, scorable, scored};
use crate::text::{all_digits, digits_value, ends_with, fields3, has_suffix, lemma_digits_grow, lemma_not_a_number, number, split3, trim_str, unsigned};
use crate::state::Worktree;

verus! {

pub open spec fn slug_char(c: char) -> bool {
    ascii_lower_letter(c) || ascii_digit(c) || c == '-'
}

/// A slug: lowercase ASCII letters, digits and dashes, not starting or ending with a
/// dash, not empty.
pub open spec fn valid_slug(s: Seq<char>) -> bool {
    &&& s.len() > 0
    &&& forall|i: int| 0 <= i < s.len() ==> slug_char(#[trigger] s[i])
    &&& s[0] != '-'
    &&& s.last() != '-'
}

/// What `validate_slug` accepts is exactly this: one character or more, each a letter
/// `a`–`z`, a digit or a dash, the first and the last not a dash (`fix-issue-42`, yes;
/// `Fix`, `-x`, `x-`, `a_b`, the empty name, no).
pub proof fn law_what_a_slug_is(s: Seq<char>)
    ensures
        valid_slug(s) <==> {
            &&& s.len() > 0
            &&& forall|i: int| 0 <= i < s.len() ==> ('a' <= #[trigger] s[i] <= 'z' || '0' <= s[i] <= '9' || s[i] == '-')
            &&& s[0] != '-'
            &&& s[s.len() - 1] != '-'
        },
{
}

pub fn validate_slug(slug: &str) -> (r: Result<(), Error>)
    ensures
        r is Ok <==> valid_slug(slug@),
        r matches Err(e) ==> e matches Error::InvalidSlug(s) && s@ == slug@,
{
    let s = chars_of(slug);
    let mut ok = s.len() > 0;
    let mut i: usize = 0;
    while i < s.len()
        invariant
            i <= s@.len(),
            ok == (s@.len() > 0 && forall|j: int| 0 <= j < i ==> slug_char(#[trigger] s@[j])),
        decreases s@.len() - i,
    {
        let c = s[i];
        if !(('a' <= c && c <= 'z') || ('0' <= c && c <= '9') || c == '-') {
            ok = false;
        }
        i += 1;
    }
    if ok && s[0] != '-' && s[s.len() - 1] != '-' {
        Ok(())
    } else {
        Err(Error::InvalidSlug(owned(slug)))
    }
}

pub open spec fn slug_keep(c: char) -> bool {
    ascii_lower_letter(c) || ascii_digit(c)
}

/// Letters and digits kept, every other run of characters turned into one dash.
pub open spec fn dashed(s: Seq<char>) -> Seq<char>
    decreases s.len(),
{
    if s.len() == 0 {
        Seq::empty()
    } else {
        let o = dashed(s.drop_last());
        let c = s.last();
        if slug_keep(c) {
            o.push(c)
        } else if o.len() > 0 && o.last() == '-' {
            o
        } else {
            o.push('-')
        }
    }
}

/// `s` without its leading `c`s.
pub open spec fn drop_lead(s: Seq<char>, c: char) -> Seq<char>
    decreases s.len(),
{
    if s.len() > 0 && s[0] == c {
        drop_lead(s.drop_first(), c)
    } else {
        s
    }
}

/// `s` without its trailing `c`s.
pub open spec fn drop_trail(s: Seq<char>, c: char) -> Seq<char>
    decreases s.len(),
{
    if s.len() > 0 && s.last() == c {
        drop_trail(s.drop_last(), c)
    } else {
        s
    }
}

/// At most the first 40 characters.
pub open spec fn first40(s: Seq<char>) -> Seq<char> {
    if s.len() > 40 {
        s.take(40)
    } else {
        s
    }
}

/// What `slugify_lowered` makes of a lowercased branch name.
pub open spec fn slug_of_lowered(lower: Seq<char>) -> Seq<char> {
    first40(drop_trail(drop_lead(dashed(lower), '-'), '-'))
}

/// What `slugify` makes of a branch name.
pub open spec fn slugified(branch: Seq<char>) -> Seq<char> {
    slug_of_lowered(lower_str(branch))
}

/// A branch name is not a DNS label: `feature/Refonte_Devis` -> `feature-refonte-devis`.
pub fn slugify(branch: &str) -> (r: String)
    ensures
        r@ == slugified(branch@),
        is_ascii_text(branch@) ==> r@ == slug_of_lowered(ascii_lowered(branch@)),
{
    let lower = to_lowercase(branch);
    slugify_lowered(lower.as_str())
}

/// The slug of a branch name already in lower case: every run of characters other than
/// `a`–`z` and `0`–`9` becomes one dash, dashes at either end go, and at most 40
/// characters are kept.
pub fn slugify_lowered(lower: &str) -> (r: String)
    ensures
        r@ == slug_of_lowered(lower@),
{
    let s = chars_of(lower);
    let mut out: Vec<char> = Vec::new();
    let mut i: usize = 0;
    while i < s.len()
        invariant
            i <= s@.len(),
            out@ == dashed(s@.take(i as int)),
        decreases s@.len() - i,
    {
        let c = s[i];
        assert(s@.take(i + 1).drop_last() =~= s@.take(i as int));
        if ('a' <= c && c <= 'z') || ('0' <= c && c <= '9') {
            out.push(c);
        } else if !(out.len() > 0 && out[out.len() - 1] == '-') {
            out.push('-');
        }
        i += 1;
    }
    assert(s@.take(s@.len() as int) =~= s@);
    let mut a: usize = 0;
    assert(out@.skip(0) =~= out@);
    while a < out.len() && out[a] == '-'
        invariant
            a <= out@.len(),
            drop_lead(out@, '-') == drop_lead(out@.skip(a as int), '-'),
        decreases out@.len() - a,
    {
        assert(out@.skip(a as int).drop_first() =~= out@.skip(a + 1));
        a += 1;
    }
    assert(out@.skip(0) =~= out@);
    let mut b: usize = out.len();
    while b > a && out[b - 1] == '-'
        invariant
            a <= b <= out@.len(),
            drop_lead(out@, '-') == out@.subrange(a as int, out@.len() as int),
            drop_trail(out@.subrange(a as int, out@.len() as int), '-') == drop_trail(out@.subrange(a as int, b as int), '-'),
        decreases b,
    {
        assert(out@.subrange(a as int, b as int).drop_last() =~= out@.subrange(a as int, b - 1));
        b -= 1;
    }
    let end = if b - a > 40 {
        a + 40
    } else {
        b
    };
    proof {
        assert(drop_lead(out@.skip(a as int), '-') == out@.skip(a as int));
        assert(out@.skip(a as int) =~= out@.subrange(a as int, out@.len() as int));
        assert(drop_trail(out@.subrange(a as int, b as int), '-') == out@.subrange(a as int, b as int));
        if b - a > 40 {
            assert(out@.subrange(a as int, b as int).take(40) =~= out@.subrange(a as int, a + 40));
        }
    }
    string_of(&slice(&out, a, end))
}

/// A name that is already a slug comes out unchanged: letters `a`–`z`, digits and
/// single dashes between them, at most 40 characters. Every letter and every digit is
/// kept, in order, and so is every dash that stands between two of them.
pub proof fn law_a_slug_is_its_own_slug(b: Seq<char>)
    requires
        0 < b.len() <= 40,
        forall|i: int| 0 <= i < b.len() ==> ('a' <= #[trigger] b[i] <= 'z' || '0' <= b[i] <= '9' || b[i] == '-'),
        forall|i: int| 0 <= i < b.len() - 1 ==> !(#[trigger] b[i] == '-' && b[i + 1] == '-'),
        b[0] != '-',
        b.last() != '-',
    ensures
        slug_of_lowered(b) == b,
{
    lemma_dashed_keeps_a_slug(b);
    assert(drop_lead(b, '-') == b);
    assert(drop_trail(b, '-') == b);
}

proof fn lemma_dashed_keeps_a_slug(b: Seq<char>)
    requires
        forall|i: int| 0 <= i < b.len() ==> ('a' <= #[trigger] b[i] <= 'z' || '0' <= b[i] <= '9' || b[i] == '-'),
        forall|i: int| 0 <= i < b.len() - 1 ==> !(#[trigger] b[i] == '-' && b[i + 1] == '-'),
        b.len() > 0 ==> b[0] != '-',
    ensures
        dashed(b) == b,
    decreases b.len(),
{
    if b.len() > 0 {
        let a = b.drop_last();
        assert forall|i: int| 0 <= i < a.len() implies ('a' <= #[trigger] a[i] <= 'z' || '0' <= a[i] <= '9' || a[i] == '-') by {
            assert(a[i] == b[i]);
        }
        assert forall|i: int| 0 <= i < a.len() - 1 implies !(#[trigger] a[i] == '-' && a[i + 1] == '-') by {
            assert(a[i] == b[i]);
            assert(a[i + 1] == b[i + 1]);
        }
        lemma_dashed_keeps_a_slug(a);
        let c = b.last();
        if c == '-' {
            assert(b.len() >= 2);
            assert(a.last() == b[b.len() - 2]);
            assert(!(b[b.len() - 2] == '-' && b[b.len() - 1] == '-'));
        }
        assert(a.push(c) =~= b);
    }
}

/// The letters `a`–`z` and the digits of `s`, in order.
pub open spec fn letters_and_digits(s: Seq<char>) -> Seq<char>
    decreases s.len(),
{
    if s.len() == 0 {
        Seq::empty()
    } else {
        letters_and_digits(s.drop_last()) + if 'a' <= s.last() <= 'z' || '0' <= s.last() <= '9' {
            seq![s.last()]
        } else {
            Seq::empty()
        }
    }
}

/// `s` without its dashes.
pub open spec fn without_dashes(s: Seq<char>) -> Seq<char>
    decreases s.len(),
{
    if s.len() == 0 {
        Seq::empty()
    } else {
        without_dashes(s.drop_last()) + if s.last() != '-' {
            seq![s.last()]
        } else {
            Seq::empty()
        }
    }
}

proof fn lemma_without_dashes_concat(a: Seq<char>, b: Seq<char>)
    ensures
        without_dashes(a + b) == without_dashes(a) + without_dashes(b),
    decreases b.len(),
{
    if b.len() == 0 {
        assert(a + b =~= a);
        assert(without_dashes(a) + without_dashes(b) =~= without_dashes(a));
    } else {
        lemma_without_dashes_concat(a, b.drop_last());
        assert((a + b).drop_last() =~= a + b.drop_last());
        assert((a + b).last() == b.last());
    }
}

proof fn lemma_dashed_letters(s: Seq<char>)
    ensures
        without_dashes(dashed(s)) == letters_and_digits(s),
        forall|i: int| 0 <= i < dashed(s).len() ==> ('a' <= #[trigger] dashed(s)[i] <= 'z' || '0' <= dashed(s)[i] <= '9' || dashed(s)[i] == '-'),
    decreases s.len(),
{
    if s.len() > 0 {
        lemma_dashed_letters(s.drop_last());
        let o = dashed(s.drop_last());
        let c = s.last();
        if slug_keep(c) {
            assert(o.push(c).drop_last() =~= o);
        } else if o.len() > 0 && o.last() == '-' {
        } else {
            assert(o.push('-').drop_last() =~= o);
        }
        let d = dashed(s);
        assert forall|i: int| 0 <= i < d.len() implies ('a' <= #[trigger] d[i] <= 'z' || '0' <= d[i] <= '9' || d[i] == '-') by {
            if i < o.len() {
                assert(d[i] == o[i]);
            }
        }
    }
}

proof fn lemma_without_dashes_drop_lead(x: Seq<char>)
    ensures
        without_dashes(drop_lead(x, '-')) == without_dashes(x),
    decreases x.len(),
{
    if x.len() > 0 && x[0] == '-' {
        lemma_without_dashes_drop_lead(x.drop_first());
        lemma_without_dashes_concat(seq!['-'], x.drop_first());
        assert(seq!['-'] + x.drop_first() =~= x);
        let one = seq!['-'];
        assert(one.drop_last() =~= Seq::<char>::empty());
        assert(one.last() == '-');
        assert(without_dashes(Seq::<char>::empty()) =~= Seq::<char>::empty());
        assert(without_dashes(one) == without_dashes(one.drop_last()) + Seq::<char>::empty());
        assert(without_dashes(one) =~= Seq::<char>::empty());
        assert(Seq::<char>::empty() + without_dashes(x.drop_first()) =~= without_dashes(x.drop_first()));
    }
}

proof fn lemma_without_dashes_drop_trail(x: Seq<char>)
    ensures
        without_dashes(drop_trail(x, '-')) == without_dashes(x),
    decreases x.len(),
{
    if x.len() > 0 && x.last() == '-' {
        lemma_without_dashes_drop_trail(x.drop_last());
    }
}

/// What `slugify` keeps of a lowercased name: only letters `a`–`z`, digits and dashes;
/// its letters and digits are those of the name, in order, the first ones when the
/// slug was cut at 40 characters, all of them when it is shorter.
pub proof fn law_slugify_keeps_the_letters_and_digits(s: Seq<char>)
    ensures
        forall|i: int| 0 <= i < slug_of_lowered(s).len() ==> ('a' <= #[trigger] slug_of_lowered(s)[i] <= 'z' || '0' <= slug_of_lowered(s)[i] <= '9' || slug_of_lowered(s)[i] == '-'),
        without_dashes(slug_of_lowered(s)) == letters_and_digits(s).take(without_dashes(slug_of_lowered(s)).len() as int),
        slug_of_lowered(s).len() < 40 ==> without_dashes(slug_of_lowered(s)) == letters_and_digits(s),
{
    let d = dashed(s);
    lemma_dashed_letters(s);
    lemma_drop_lead(d, '-');
    let a = drop_lead(d, '-');
    let k = choose|k: int| 0 <= k <= d.len() && a == d.skip(k);
    lemma_drop_trail(a, '-');
    let b = drop_trail(a, '-');
    let j = choose|j: int| 0 <= j <= a.len() && b == a.take(j);
    lemma_without_dashes_drop_lead(d);
    lemma_without_dashes_drop_trail(a);
    assert(without_dashes(b) == letters_and_digits(s));
    assert forall|i: int| 0 <= i < b.len() implies ('a' <= #[trigger] b[i] <= 'z' || '0' <= b[i] <= '9' || b[i] == '-') by {
        assert(b[i] == d[i + k]);
    }
    let r = slug_of_lowered(s);
    if b.len() > 40 {
        assert(r == b.take(40));
        lemma_without_dashes_concat(b.take(40), b.skip(40));
        assert(b.take(40) + b.skip(40) =~= b);
        let w = without_dashes(b.take(40));
        assert(letters_and_digits(s).take(w.len() as int) =~= w);
    } else {
        assert(r == b);
        assert(letters_and_digits(s).take(letters_and_digits(s).len() as int) =~= letters_and_digits(s));
    }
}

pub open spec fn dashed_shape(o: Seq<char>) -> bool {
    &&& forall|i: int| 0 <= i < o.len() ==> slug_char(#[trigger] o[i])
    &&& forall|i: int| 0 <= i < o.len() - 1 ==> !(#[trigger] o[i] == '-' && o[i + 1] == '-')
}

proof fn lemma_dashed_shape(s: Seq<char>)
    ensures
        dashed_shape(dashed(s)),
    decreases s.len(),
{
    if s.len() > 0 {
        lemma_dashed_shape(s.drop_last());
    }
}

proof fn lemma_drop_lead(s: Seq<char>, c: char)
    ensures
        exists|k: int| 0 <= k <= s.len() && drop_lead(s, c) == s.skip(k),
        drop_lead(s, c).len() > 0 ==> drop_lead(s, c)[0] != c,
    decreases s.len(),
{
    if s.len() > 0 && s[0] == c {
        lemma_drop_lead(s.drop_first(), c);
        let k = choose|k: int| 0 <= k <= s.drop_first().len() && drop_lead(s.drop_first(), c) == s.drop_first().skip(k);
        assert(s.drop_first().skip(k) =~= s.skip(k + 1));
    } else {
        assert(s.skip(0) =~= s);
    }
}

proof fn lemma_drop_trail(s: Seq<char>, c: char)
    ensures
        exists|k: int| 0 <= k <= s.len() && drop_trail(s, c) == s.take(k),
        drop_trail(s, c).len() > 0 ==> drop_trail(s, c).last() != c,
    decreases s.len(),
{
    if s.len() > 0 && s.last() == c {
        lemma_drop_trail(s.drop_last(), c);
        let k = choose|k: int| 0 <= k <= s.drop_last().len() && drop_trail(s.drop_last(), c) == s.drop_last().take(k);
        assert(s.drop_last().take(k) =~= s.take(k));
    } else {
        assert(s.take(s.len() as int) =~= s);
    }
}

/// A slugified branch is made of slug characters only, never starts with a dash and
/// never holds two dashes in a row — whatever the branch name was. When it is not
/// empty and was not cut at 40 characters, it is a valid slug.
pub proof fn law_slugify_gives_slug_characters(branch: Seq<char>)
    ensures
        dashed_shape(slugified(branch)),
        slugified(branch).len() > 0 ==> slugified(branch)[0] != '-',
        slugified(branch).len() <= 40,
        slugified(branch).len() > 0 && drop_trail(drop_lead(dashed(lower_str(branch)), '-'), '-').len() <= 40
            ==> valid_slug(slugified(branch)),
{
    let d = dashed(lower_str(branch));
    lemma_dashed_shape(lower_str(branch));
    lemma_drop_lead(d, '-');
    let a = drop_lead(d, '-');
    let k = choose|k: int| 0 <= k <= d.len() && a == d.skip(k);
    assert(dashed_shape(a)) by {
        assert forall|i: int| 0 <= i < a.len() - 1 implies !(#[trigger] a[i] == '-' && a[i + 1] == '-') by {
            assert(a[i] == d[i + k]);
            assert(a[i + 1] == d[i + 1 + k]);
        }
        assert forall|i: int| 0 <= i < a.len() implies slug_char(#[trigger] a[i]) by {
            assert(a[i] == d[i + k]);
        }
    }
    lemma_drop_trail(a, '-');
    let b = drop_trail(a, '-');
    let m = choose|m: int| 0 <= m <= a.len() && b == a.take(m);
    assert(dashed_shape(b)) by {
        assert forall|i: int| 0 <= i < b.len() - 1 implies !(#[trigger] b[i] == '-' && b[i + 1] == '-') by {
            assert(b[i] == a[i]);
            assert(b[i + 1] == a[i + 1]);
        }
        assert forall|i: int| 0 <= i < b.len() implies slug_char(#[trigger] b[i]) by {
            assert(b[i] == a[i]);
        }
    }
    if b.len() > 0 {
        assert(b[0] == a[0]);
    }
    let r = first40(b);
    assert(dashed_shape(r)) by {
        assert forall|i: int| 0 <= i < r.len() - 1 implies !(#[trigger] r[i] == '-' && r[i + 1] == '-') by {
            assert(r[i] == b[i]);
            assert(r[i + 1] == b[i + 1]);
        }
        assert forall|i: int| 0 <= i < r.len() implies slug_char(#[trigger] r[i]) by {
            assert(r[i] == b[i]);
        }
    }
    if r.len() > 0 {
        assert(r[0] == b[0]);
    }
}

/// `k=v`: the key trimmed, the value as written (after the first `=`).
pub open spec fn set_split(s: Seq<char>) -> Option<(Seq<char>, Seq<char>)> {
    let e = next_char(s, '=', 0);
    if e >= s.len() {
        None
    } else {
        Some((trim(s.subrange(0, e)), s.subrange(e + 1, s.len() as int)))
    }
}

/// The options given as `k=v`, later ones overriding earlier ones; `None` when one of
/// them has no `=`.
pub open spec fn sets_of(sets: Seq<Seq<char>>) -> Option<Map<Seq<char>, Seq<char>>>
    decreases sets.len(),
{
    if sets.len() == 0 {
        Some(Map::empty())
    } else {
        match sets_of(sets.drop_last()) {
            None => None,
            Some(m) => match set_split(sets.last()) {
                None => None,
                Some((k, v)) => Some(m.insert(k, v)),
            },
        }
    }
}

/// Index of the first set without `=`.
pub open spec fn first_bad_set(sets: Seq<Seq<char>>) -> int {
    choose|i: int| 0 <= i < sets.len() && set_split(sets[i]) is None && forall|j: int| 0 <= j < i ==> set_split(#[trigger] sets[j]) is Some
}

/// `--set k=v` options, as a map.
pub fn parse_sets(sets: &[String]) -> (r: Result<Dict<String>, Error>)
    ensures
        r is Ok <==> sets_of(strs(sets@)) is Some,
        r matches Ok(d) ==> d.texts() == sets_of(strs(sets@)).unwrap(),
        r matches Err(e) ==> e matches Error::BadSet(v) && v@ == sets@[first_bad_set(strs(sets@))]@,
{
    let mut out: Dict<String> = Dict::new();
    let mut i: usize = 0;
    while i < sets.len()
        invariant
            i <= sets@.len(),
            sets_of(strs(sets@).take(i as int)) == Some(out.texts()),
            forall|j: int| 0 <= j < i ==> set_split(#[trigger] strs(sets@)[j]) is Some,
        decreases sets@.len() - i,
    {
        let s = chars_of(sets[i].as_str());
        let e = index_of(&s, '=', 0);
        proof {
            lemma_next_char(s@, '=', 0);
            assert(strs(sets@).take(i + 1).drop_last() =~= strs(sets@).take(i as int));
            assert(strs(sets@).take(i + 1).last() == s@);
        }
        if e >= s.len() {
            proof {
                lemma_sets_none(strs(sets@), i as int);
                assert(first_bad_set(strs(sets@)) == i) by {
                    let f = first_bad_set(strs(sets@));
                    assert(0 <= i < strs(sets@).len() && set_split(strs(sets@)[i as int]) is None && forall|j: int| 0 <= j < i ==> set_split(#[trigger] strs(sets@)[j]) is Some);
                    if f < i {
                    } else if f > i {
                    }
                }
            }
            return Err(Error::BadSet(sets[i].clone()));
        }
        let k = string_of(&trimmed(&slice(&s, 0, e)));
        let v = string_of(&slice(&s, e + 1, s.len()));
        out.insert(k, v);
        i += 1;
    }
    assert(strs(sets@).take(sets@.len() as int) =~= strs(sets@));
    Ok(out)
}

proof fn lemma_sets_none(sets: Seq<Seq<char>>, i: int)
    requires
        0 <= i < sets.len(),
        sets_of(sets.take(i + 1)) is None,
    ensures
        sets_of(sets) is None,
    decreases sets.len() - i,
{
    if i + 1 < sets.len() {
        assert(sets.take(i + 2).drop_last() =~= sets.take(i + 1));
        lemma_sets_none(sets, i + 1);
    } else {
        assert(sets.take(i + 1) =~= sets);
    }
}

/// Each `'` written `'\''`, so the text can sit between single quotes.
pub open spec fn escape_quotes(s: Seq<char>) -> Seq<char>
    decreases s.len(),
{
    if s.len() == 0 {
        Seq::empty()
    } else {
        escape_quotes(s.drop_last()) + if s.last() == '\'' {
            seq!['\'', '\\', '\'', '\'']
        } else {
            seq![s.last()]
        }
    }
}

/// `s` as one shell word: between single quotes.
pub open spec fn quoted(s: Seq<char>) -> Seq<char> {
    seq!['\''] + escape_quotes(s) + seq!['\'']
}

/// Quotes a string for `sh`.
pub fn quote(s: &str) -> (r: String)
    ensures
        r@ == quoted(s@),
{
    let cs = chars_of(s);
    let mut out: Vec<char> = vec!['\''];
    let mut i: usize = 0;
    while i < cs.len()
        invariant
            i <= cs@.len(),
            out@ == seq!['\''] + escape_quotes(cs@.take(i as int)),
        decreases cs@.len() - i,
    {
        let ghost before = out@;
        assert(cs@.take(i + 1).drop_last() =~= cs@.take(i as int));
        if cs[i] == '\'' {
            out.push('\'');
            out.push('\\');
            out.push('\'');
            out.push('\'');
        } else {
            out.push(cs[i]);
        }
        i += 1;
        assert(out@ =~= seq!['\''] + escape_quotes(cs@.take(i as int)));
    }
    out.push('\'');
    assert(cs@.take(cs@.len() as int) =~= cs@);
    assert(out@ =~= quoted(s@));
    string_of(&out)
}

/// Quotes a path for `sh`.
pub fn shell_quote(path: &str) -> (r: String)
    ensures
        r@ == quoted(path@),
{
    quote(path)
}

/// The name a command goes by: the last name of its path, or the command as written.
pub open spec fn command_name(cmd: Seq<char>) -> Seq<char> {
    match file_name_of(cmd) {
        Some(n) => n,
        None => cmd,
    }
}

fn command_name_of(cmd: &str) -> (r: String)
    ensures
        r@ == command_name(cmd@),
{
    match file_name(cmd) {
        Some(n) => n,
        None => owned(cmd),
    }
}

/// Editors that live in the terminal they are started from.
pub open spec fn terminal_editor(editor: Seq<char>) -> bool {
    let n = command_name(editor);
    n == "nvim"@ || n == "vim"@ || n == "vi"@ || n == "nano"@ || n == "hx"@ || n == "helix"@
        || n == "kak"@ || n == "emacs"@
}

/// Does the editor live in the current terminal?
pub fn is_terminal_editor(editor: &str) -> (r: bool)
    ensures
        r == terminal_editor(editor@),
{
    let name = command_name_of(editor);
    let n = name.as_str();
    same_str(n, "nvim") || same_str(n, "vim") || same_str(n, "vi") || same_str(n, "nano")
        || same_str(n, "hx") || same_str(n, "helix") || same_str(n, "kak") || same_str(n, "emacs")
}

/// `k=v` for each variable, in name order.
pub open spec fn assignments(e: Seq<(Seq<char>, String)>) -> Seq<Seq<char>> {
    e.map_values(|p: (Seq<char>, String)| p.0 + "="@ + p.1@)
}

/// The command the window runs: `env`, the worktree's variables, the shell.
pub open spec fn env_command(shell: Seq<char>, env: Seq<(Seq<char>, String)>) -> Seq<Seq<char>> {
    seq!["env"@] + assignments(env) + seq![shell]
}

/// `\` and `"` escaped for an AppleScript string.
pub open spec fn escape_script(s: Seq<char>) -> Seq<char>
    decreases s.len(),
{
    if s.len() == 0 {
        Seq::empty()
    } else {
        escape_script(s.drop_last()) + if s.last() == '\\' {
            seq!['\\', '\\']
        } else if s.last() == '"' {
            seq!['\\', '"']
        } else {
            seq![s.last()]
        }
    }
}

/// ` k='v'` for each variable, in name order.
pub open spec fn quoted_assignments(e: Seq<(Seq<char>, String)>) -> Seq<char>
    decreases e.len(),
{
    if e.len() == 0 {
        Seq::empty()
    } else {
        quoted_assignments(e.drop_last()) + " "@ + e.last().0 + "="@ + quoted(e.last().1@)
    }
}

/// The shell line Terminal.app is told to run.
pub open spec fn terminal_line(dir: Seq<char>, shell: Seq<char>, env: Seq<(Seq<char>, String)>) -> Seq<char> {
    "cd "@ + quoted(dir) + " && exec env"@ + quoted_assignments(env) + " "@ + shell
}

/// The `osascript` arguments opening a Terminal.app window in `dir`.
pub open spec fn terminal_app_args(dir: Seq<char>, shell: Seq<char>, env: Seq<(Seq<char>, String)>) -> Seq<Seq<char>> {
    seq![
        "-e"@,
        "tell application \"Terminal\" to do script \""@ + escape_script(terminal_line(dir, shell, env)) + "\""@,
        "-e"@,
        "tell application \"Terminal\" to activate"@
    ]
}

fn escape_for_script(s: &str) -> (r: String)
    ensures
        r@ == escape_script(s@),
{
    let cs = chars_of(s);
    let mut out: Vec<char> = Vec::new();
    let mut i: usize = 0;
    while i < cs.len()
        invariant
            i <= cs@.len(),
            out@ == escape_script(cs@.take(i as int)),
        decreases cs@.len() - i,
    {
        let ghost before = out@;
        assert(cs@.take(i + 1).drop_last() =~= cs@.take(i as int));
        if cs[i] == '\\' {
            out.push('\\');
            out.push('\\');
        } else if cs[i] == '"' {
            out.push('\\');
            out.push('"');
        } else {
            out.push(cs[i]);
        }
        i += 1;
        assert(out@ =~= escape_script(cs@.take(i as int)));
    }
    assert(cs@.take(cs@.len() as int) =~= cs@);
    string_of(&out)
}

/// The AppleScript that makes Terminal.app open a window in the worktree.
pub fn terminal_app_argv(dir: &str, shell: &str, env: &Dict<String>) -> (r: Vec<String>)
    ensures
        strs(r@) == terminal_app_args(dir@, shell@, env.entries()),
{
    let mut line = concat("cd ", quote(dir).as_str());
    line = concat(line.as_str(), " && exec env");
    let n = env.len();
    let mut j: usize = 0;
    let ghost head = line@;
    assert(env.entries().take(0) =~= Seq::<(Seq<char>, String)>::empty());
    while j < n
        invariant
            n == env.size(),
            j <= n,
            line@ == head + quoted_assignments(env.entries().take(j as int)),
        decreases n - j,
    {
        let k = env.key(j);
        let v = env.value(j);
        line = concat(line.as_str(), " ");
        line = concat(line.as_str(), k.as_str());
        line = concat(line.as_str(), "=");
        line = concat(line.as_str(), quote(v.as_str()).as_str());
        proof {
            assert(env.entries().take(j + 1).drop_last() =~= env.entries().take(j as int));
            assert(env.entries().take(j + 1).last() == env.entries()[j as int]);
            assert(line@ =~= head + quoted_assignments(env.entries().take(j + 1)));
        }
        j += 1;
    }
    assert(env.entries().take(n as int) =~= env.entries());
    line = concat(line.as_str(), " ");
    line = concat(line.as_str(), shell);
    assert(line@ =~= terminal_line(dir@, shell@, env.entries()));
    let script = escape_for_script(line.as_str());
    let mut second = concat("tell application \"Terminal\" to do script \"", script.as_str());
    second = concat(second.as_str(), "\"");
    let mut r: Vec<String> = Vec::new();
    r.push(owned("-e"));
    r.push(second);
    r.push(owned("-e"));
    r.push(owned("tell application \"Terminal\" to activate"));
    assert(strs(r@) =~= terminal_app_args(dir@, shell@, env.entries()));
    r
}

/// What a given emulator is told, before the command, to open in `dir`.
pub open spec fn window_head(name: Seq<char>, dir: Seq<char>) -> Seq<Seq<char>> {
    if name == "wt.exe"@ {
        seq!["new-tab"@, "wsl.exe"@, "--cd"@, dir, "-e"@]
    } else if name == "wezterm"@ {
        seq!["start"@, "--cwd"@, dir, "--"@]
    } else if name == "kitty"@ {
        seq!["--directory"@, dir]
    } else if name == "foot"@ {
        seq!["--working-directory="@ + dir]
    } else if name == "ghostty"@ {
        seq!["--working-directory="@ + dir, "-e"@]
    } else if name == "alacritty"@ {
        seq!["--working-directory"@, dir, "-e"@]
    } else if name == "konsole"@ {
        seq!["--workdir"@, dir, "-e"@]
    } else if name == "gnome-terminal"@ || name == "mate-terminal"@ {
        seq!["--working-directory="@ + dir, "--"@]
    } else if name == "xfce4-terminal"@ {
        seq!["--working-directory="@ + dir, "-x"@]
    } else {
        seq!["-e"@]
    }
}

/// The arguments an emulator is started with to open `shell` in `dir`.
pub open spec fn window_args(bin: Seq<char>, dir: Seq<char>, shell: Seq<char>, env: Seq<(Seq<char>, String)>) -> Seq<Seq<char>> {
    let name = command_name(bin);
    if name == "osascript"@ {
        terminal_app_args(dir, shell, env)
    } else {
        window_head(name, dir) + env_command(shell, env)
    }
}

fn strings(items: &[&str]) -> (r: Vec<String>)
    ensures
        r@.len() == items@.len(),
        forall|i: int| 0 <= i < items@.len() ==> #[trigger] r@[i]@ == items@[i]@,
{
    let mut r: Vec<String> = Vec::new();
    let mut i: usize = 0;
    while i < items.len()
        invariant
            i <= items@.len(),
            r@.len() == i,
            forall|j: int| 0 <= j < i ==> #[trigger] r@[j]@ == items@[j]@,
        decreases items@.len() - i,
    {
        r.push(owned(items[i]));
        i += 1;
    }
    r
}

/// What a given emulator wants to be told to open `shell` in `dir`.
///
/// The worktree's variables are handed to the shell explicitly rather than left to be
/// inherited: gnome-terminal hands the job to a server process that never saw our
/// environment, and under WSL it crosses to the Windows side and back.
pub fn window_argv(bin: &str, dir: &str, shell: &str, env: &Dict<String>) -> (r: Vec<String>)
    ensures
        strs(r@) == window_args(bin@, dir@, shell@, env.entries()),
{
    let name = command_name_of(bin);
    let nm = name.as_str();
    if same_str(nm, "osascript") {
        return terminal_app_argv(dir, shell, env);
    }
    let d = owned(dir);
    let mut head: Vec<String> = if same_str(nm, "wt.exe") {
        let mut a = strings(&["new-tab", "wsl.exe", "--cd"]);
        a.push(d);
        a.push(owned("-e"));
        a
    } else if same_str(nm, "wezterm") {
        let mut a = strings(&["start", "--cwd"]);
        a.push(d);
        a.push(owned("--"));
        a
    } else if same_str(nm, "kitty") {
        let mut a = strings(&["--directory"]);
        a.push(d);
        a
    } else if same_str(nm, "foot") {
        let mut a: Vec<String> = Vec::new();
        a.push(concat("--working-directory=", dir));
        a
    } else if same_str(nm, "ghostty") {
        let mut a: Vec<String> = Vec::new();
        a.push(concat("--working-directory=", dir));
        a.push(owned("-e"));
        a
    } else if same_str(nm, "alacritty") {
        let mut a = strings(&["--working-directory"]);
        a.push(d);
        a.push(owned("-e"));
        a
    } else if same_str(nm, "konsole") {
        let mut a = strings(&["--workdir"]);
        a.push(d);
        a.push(owned("-e"));
        a
    } else if same_str(nm, "gnome-terminal") || same_str(nm, "mate-terminal") {
        let mut a: Vec<String> = Vec::new();
        a.push(concat("--working-directory=", dir));
        a.push(owned("--"));
        a
    } else if same_str(nm, "xfce4-terminal") {
        let mut a: Vec<String> = Vec::new();
        a.push(concat("--working-directory=", dir));
        a.push(owned("-x"));
        a
    } else {
        strings(&["-e"])
    };
    assert(strs(head@) =~= window_head(name@, dir@));
    let ghost h = strs(head@);
    head.push(owned("env"));
    let n = env.len();
    let mut j: usize = 0;
    assert(env.entries().take(0) =~= Seq::<(Seq<char>, String)>::empty());
    while j < n
        invariant
            n == env.size(),
            j <= n,
            strs(head@) == h + seq!["env"@] + assignments(env.entries().take(j as int)),
        decreases n - j,
    {
        let k = env.key(j);
        let v = env.value(j);
        let a = concat(concat(k.as_str(), "=").as_str(), v.as_str());
        let ghost before = head@;
        head.push(a);
        proof {
            assert(strs(head@) =~= strs(before).push(a@));
            assert(a@ == env.entries()[j as int].0 + "="@ + env.entries()[j as int].1@);
            assert(assignments(env.entries().take(j + 1)) =~= assignments(env.entries().take(j as int)).push(env.entries()[j as int].0 + "="@ + env.entries()[j as int].1@));
            assert(strs(head@) =~= h + seq!["env"@] + assignments(env.entries().take(j + 1)));
        }
        j += 1;
    }
    assert(env.entries().take(n as int) =~= env.entries());
    let ghost before = head@;
    head.push(owned(shell));
    assert(strs(head@) =~= strs(before).push(shell@));
    assert(strs(head@) =~= h + (seq!["env"@] + assignments(env.entries()) + seq![shell@]));
    assert(strs(head@) =~= window_args(bin@, dir@, shell@, env.entries()));
    head
}

/// An address a worktree can open in the browser.
#[derive(Debug)]
pub struct Link {
    pub url: String,
    pub label: String,
}

/// A shell command to run for its answer (its exit status or its output): where, with
/// which template variables, and the environment made of them.
#[derive(Debug)]
pub struct Probe {
    pub command: String,
    pub cwd: String,
    pub vars: Vars,
    pub env: Dict<String>,
}

/// A hook's or a task's commands, each rendered, to run one after the other by
/// `sh -c` in `cwd`, with the environment made of `vars`.
#[derive(Debug)]
pub struct Run {
    pub commands: Vec<String>,
    pub cwd: String,
    pub vars: Vars,
    pub env: Dict<String>,
}

/// One `[[copy]]` entry made concrete for a worktree: the paths as rendered (relative,
/// as shown), and as used (the source under the main repository, the target under the
/// worktree).
#[derive(Debug)]
pub struct CopyPlan {
    pub from_rel: String,
    pub to_rel: String,
    pub from: String,
    pub to: String,
    pub mode: CopyMode,
    pub optional: bool,
}

/// A project ready to act on: its configuration and its worktree root.
pub struct App {
    pub project: Project,
    pub root: String,
}

pub open spec fn opt_view(o: Option<String>) -> Option<Seq<char>> {
    match o {
        Some(s) => Some(s@),
        None => None,
    }
}

/// The questions asked at `phase`, in file order: those set to be asked then, less
/// those already answered (unless they are asked `always`).
pub open spec fn asked_at(prompts: Seq<Prompt>, phase: Ask, known: Map<Seq<char>, String>) -> Seq<Prompt> {
    prompts.filter(|p: Prompt| (p.ask == phase || p.ask == Ask::Both) && (p.always || !known.contains_key(p.name@)))
}

/// The first question named `name`.
pub open spec fn named(prompts: Seq<Prompt>, name: Seq<char>) -> Option<int> {
    if exists|i: int| 0 <= i < prompts.len() && prompts[i].name@ == name {
        Some(choose|i: int| 0 <= i < prompts.len() && prompts[i].name@ == name && forall|j: int| 0 <= j < i ==> (#[trigger] prompts[j]).name@ != name)
    } else {
        None
    }
}

/// The questions a task lists, in its order, unknown names left out.
pub open spec fn listed(prompts: Seq<Prompt>, names: Seq<Seq<char>>) -> Seq<Prompt>
    decreases names.len(),
{
    if names.len() == 0 {
        Seq::empty()
    } else {
        listed(prompts, names.drop_last()) + match named(prompts, names.last()) {
            Some(i) => seq![prompts[i]],
            None => Seq::empty(),
        }
    }
}

/// The two sequences hold the same questions, one for one.
pub open spec fn same_prompts(a: Seq<Prompt>, b: Seq<Prompt>) -> bool {
    a.len() == b.len() && forall|i: int| 0 <= i < a.len() ==> (#[trigger] a[i]).same_as(&b[i])
}

/// The state a question is asked in: the one on disk, with the answers given so far as
/// its options.
pub open spec fn answered(st: WtState, opts: Dict<String>) -> WtState {
    WtState { branch: st.branch, ports: st.ports, opts }
}

/// `{{phase}}`: `new` before creation, `up` otherwise.
pub open spec fn phase_word(phase: Ask) -> Seq<char> {
    if phase == Ask::New {
        "new"@
    } else {
        "up"@
    }
}

/// The choice a line describes: its columns, trimmed.
pub open spec fn choice_of(line: Seq<char>) -> (Seq<char>, Seq<char>, Seq<char>) {
    let c = split3(line, '\t');
    (trim(c.0), trim(c.1), trim(c.2))
}

/// The choices a command printed: one per line, blank lines and empty values left out.
pub open spec fn choices_in(ls: Seq<Seq<char>>) -> Seq<(Seq<char>, Seq<char>, Seq<char>)>
    decreases ls.len(),
{
    if ls.len() == 0 {
        Seq::empty()
    } else {
        let rest = choices_in(ls.drop_last());
        if !blank(ls.last()) && choice_of(ls.last()).0.len() > 0 {
            rest.push(choice_of(ls.last()))
        } else {
            rest
        }
    }
}

/// A choice as its three texts.
pub open spec fn option_view(o: PromptOption) -> (Seq<char>, Seq<char>, Seq<char>) {
    (o.value@, o.label@, o.detail@)
}

/// A `url<TAB>label` line: the address, and its label (the address itself when none).
pub open spec fn link_of(line: Seq<char>) -> (Seq<char>, Seq<char>) {
    let a = next_char(line, '\t', 0);
    let url = if a >= line.len() { trim(line) } else { trim(line.subrange(0, a)) };
    let label = if a >= line.len() { Seq::empty() } else { trim(line.subrange(a + 1, line.len() as int)) };
    (url, if label.len() == 0 { url } else { label })
}

/// The addresses a command printed: one per line, blank lines and empty addresses left
/// out.
pub open spec fn links_in(ls: Seq<Seq<char>>) -> Seq<(Seq<char>, Seq<char>)>
    decreases ls.len(),
{
    if ls.len() == 0 {
        Seq::empty()
    } else {
        let rest = links_in(ls.drop_last());
        if !blank(ls.last()) && link_of(ls.last()).0.len() > 0 {
            rest.push(link_of(ls.last()))
        } else {
            rest
        }
    }
}

/// A link as its address and label.
pub open spec fn link_view(l: Link) -> (Seq<char>, Seq<char>) {
    (l.url@, l.label@)
}

/// `pr` runs `cmd` rendered with `vars`, in `cwd`, with the environment of those
/// variables.
pub open spec fn is_probe(pr: Probe, cmd: Seq<char>, vars: Map<Seq<char>, Seq<char>>, cwd: Seq<char>) -> bool {
    &&& pr.vars.texts() == vars
    &&& pr.command@ == rendered(cmd, vars)
    &&& pr.env.texts() == env_of(pr.vars.entries())
    &&& pr.cwd@ == cwd
}

/// `r` runs `cmds`, each rendered with `vars`, in `cwd`, with the environment of those
/// variables.
pub open spec fn is_run(r: Run, cmds: Seq<Seq<char>>, vars: Map<Seq<char>, Seq<char>>, cwd: Seq<char>) -> bool {
    &&& r.vars.texts() == vars
    &&& r.env.texts() == env_of(r.vars.entries())
    &&& r.cwd@ == cwd
    &&& r.commands@.len() == cmds.len()
    &&& forall|i: int| 0 <= i < cmds.len() ==> (#[trigger] r.commands@[i])@ == rendered(cmds[i], vars)
}

/// The words joined by single spaces (`[String]::join(" ")`).
pub open spec fn spaced(words: Seq<Seq<char>>) -> Seq<char>
    decreases words.len(),
{
    if words.len() == 0 {
        Seq::empty()
    } else if words.len() == 1 {
        words[0]
    } else {
        spaced(words.drop_last()) + seq![' '] + words.last()
    }
}

/// Every port kept: a port once given to a name stays that name's, unchanged.
pub open spec fn keeps(before: Map<Seq<char>, u16>, after: Map<Seq<char>, u16>) -> bool {
    forall|k: Seq<char>| #[trigger] before.contains_key(k) ==> after.contains_key(k) && after[k] == before[k]
}

/// Why port `q`, below the one name `k` got, was passed over: reserved by another
/// worktree, held by another name, or found busy.
pub open spec fn passed_over<F: Fn(u16) -> bool>(after: Map<Seq<char>, u16>, reserved: Seq<u16>, free: F, k: Seq<char>, q: u16) -> bool {
    ||| reserved.contains(q)
    ||| exists|j: Seq<char>| #[trigger] after.contains_key(j) && j != k && after[j] == q
    ||| free.ensures((q,), false)
}

/// Every port given out since `before`: for a name the project declares, at or above
/// its base, reserved by no other worktree, found free, and held by no other name —
/// and the lowest such, every port from the base up to it having been passed over.
pub open spec fn fresh_ports<F: Fn(u16) -> bool>(
    specs: Map<Seq<char>, PortSpec>,
    before: Map<Seq<char>, u16>,
    after: Map<Seq<char>, u16>,
    reserved: Seq<u16>,
    free: F,
) -> bool {
    &&& forall|k: Seq<char>| #[trigger] after.contains_key(k) && !before.contains_key(k) ==> {
        &&& specs.contains_key(k)
        &&& after[k] >= specs[k].base
        &&& !reserved.contains(after[k])
        &&& free.ensures((after[k],), true)
        &&& forall|j: Seq<char>| after.contains_key(j) && j != k ==> after[j] != #[trigger] after[k]
    }
    &&& forall|k: Seq<char>, q: u16| after.contains_key(k) && !before.contains_key(k) && specs[k].base <= q < after[k]
        ==> #[trigger] passed_over(after, reserved, free, k, q)
}

/// A port passed over stays passed over as names get ports.
proof fn lemma_passed_over_grows<F: Fn(u16) -> bool>(
    before: Map<Seq<char>, u16>,
    after: Map<Seq<char>, u16>,
    reserved: Seq<u16>,
    free: F,
    k: Seq<char>,
    q: u16,
)
    requires
        keeps(before, after),
        passed_over(before, reserved, free, k, q),
    ensures
        passed_over(after, reserved, free, k, q),
{
    if !reserved.contains(q) && !free.ensures((q,), false) {
        let j = choose|j: Seq<char>| #[trigger] before.contains_key(j) && j != k && before[j] == q;
        assert(after.contains_key(j) && after[j] == q);
    }
}

/// Every port the project declares for `phase` is held already: there is nothing to
/// look for.
pub open spec fn all_held(specs: Map<Seq<char>, PortSpec>, ports: Map<Seq<char>, u16>, phase: Allocate) -> bool {
    forall|k: Seq<char>| #[trigger] specs.contains_key(k) && specs[k].allocate == phase ==> ports.contains_key(k)
}

/// Why no port could be given: a name the project declares for `phase` with base `b`
/// was held neither before nor after, and every port from `b` up was passed over —
/// reserved by another worktree, held by another name, or found busy.
pub open spec fn exhausted<F: Fn(u16) -> bool>(
    specs: Map<Seq<char>, PortSpec>,
    phase: Allocate,
    before: Map<Seq<char>, u16>,
    after: Map<Seq<char>, u16>,
    reserved: Seq<u16>,
    free: F,
    b: u16,
) -> bool {
    exists|k: Seq<char>| {
        &&& #[trigger] specs.contains_key(k)
        &&& specs[k].allocate == phase
        &&& specs[k].base == b
        &&& !before.contains_key(k)
        &&& !after.contains_key(k)
        &&& forall|q: u16| b <= q ==> #[trigger] passed_over(after, reserved, free, k, q)
    }
}

/// Does a question take its choices from its command? Not a yes/no question without
/// choices of its own, which offers yes and no.
pub open spec fn runs_source(p: Prompt) -> bool {
    !(p.kind == PromptKind::Confirm && p.options@.len() == 0) && p.source is Some
}

/// The worktree's directory, or the main repository's when it does not exist yet.
pub open spec fn work_dir(main: Seq<char>, dir: Seq<char>, dir_exists: bool) -> Seq<char> {
    if dir_exists {
        dir
    } else {
        main
    }
}

/// `names` are the candidates `pattern` leaves among `slugs`: the same slugs, as many,
/// and in the same order (best first) whenever the slugs can be scored against it.
pub open spec fn same_candidates(names: Seq<Seq<char>>, slugs: Seq<Seq<char>>, pattern: Option<Seq<char>>) -> bool {
    &&& names.len() == candidates(slugs, pattern).len()
    &&& names.to_set() == candidates(slugs, pattern).to_set()
    &&& (match pattern {
        Some(p) => slugs.contains(p) || scorable(slugs, p),
        None => true,
    }) ==> names == candidates(slugs, pattern)
}

impl App {
    pub open spec fn dir_of(&self, slug: Seq<char>) -> Seq<char> {
        joined_path(self.root@, slug)
    }

    pub open spec fn vars_for(&self, slug: Seq<char>, st: &WtState) -> Map<Seq<char>, Seq<char>> {
        vars_of(&self.project, self.root@, slug, st)
    }

    pub fn new(project: Project) -> (r: Result<App, Error>)
        ensures
            r matches Ok(app) && app.project == project && app.root@ == root_of(project.main@, opt_view(project.config.root)),
    {
        let root = match project.root() {
            Ok(r) => r,
            Err(e) => return Err(e),
        };
        Ok(App { project, root })
    }

    /// The directory of worktree `slug`.
    pub fn dir(&self, slug: &str) -> (r: String)
        ensures
            r@ == self.dir_of(slug@),
    {
        join(self.root.as_str(), slug)
    }

    // Not every project has services: a library, a CLI or a game only need the
    // checkout. These capabilities report what the wt.toml actually declares, so that
    // ports, state and browser actions stay hidden when the project has none.
    pub fn has_up(&self) -> (r: bool)
        ensures
            r == (self.project.config.hooks.up.0@.len() > 0),
    {
        !self.project.config.hooks.up.is_empty()
    }

    pub fn has_down(&self) -> (r: bool)
        ensures
            r == (self.project.config.hooks.down.0@.len() > 0),
    {
        !self.project.config.hooks.down.is_empty()
    }

    pub fn has_status(&self) -> (r: bool)
        ensures
            r == self.project.config.status.up is Some,
    {
        self.project.config.status.up.is_some()
    }

    pub fn has_ports(&self) -> (r: bool)
        ensures
            r == (self.project.config.ports.size() > 0),
    {
        !self.project.config.ports.is_empty()
    }

    pub fn has_open(&self) -> (r: bool)
        ensures
            r == self.project.config.open.url is Some,
    {
        self.project.config.open.url.is_some()
    }

    pub fn has_tasks(&self) -> (r: bool)
        ensures
            r == (self.project.config.tasks.size() > 0),
    {
        !self.project.config.tasks.is_empty()
    }

    /// Does the task claim the terminal?
    pub fn task_is_interactive(&self, name: &str) -> (r: bool)
        ensures
            r == (self.project.config.tasks@.contains_key(name@) && self.project.config.tasks@[name@].interactive),
    {
        match self.project.config.tasks.get(name) {
            Some(t) => t.interactive,
            None => false,
        }
    }

    /// The variables of worktree `slug` in state `st`.
    pub fn vars(&self, slug: &str, st: &WtState) -> (r: Vars)
        ensures
            r.texts() == self.vars_for(slug@, st),
    {
        vars(&self.project, self.root.as_str(), slug, st)
    }

    /// Questions to ask for a given phase, in file order.
    ///
    /// An option already known — answered during a previous start, or given with
    /// `--set` — is not asked again: that is what makes a repeated `wt up` silently
    /// reproduce the same setup.
    pub fn prompts_for(&self, phase: Ask, known: &Dict<String>) -> (r: Vec<Prompt>)
        ensures
            same_prompts(r@, asked_at(self.project.config.prompts@, phase, known@)),
    {
        let ps = &self.project.config.prompts;
        let ghost pred = |p: Prompt| (p.ask == phase || p.ask == Ask::Both) && (p.always || !known@.contains_key(p.name@));
        let mut out: Vec<Prompt> = Vec::new();
        let mut i: usize = 0;
        while i < ps.len()
            invariant
                i <= ps@.len(),
                pred == (|p: Prompt| (p.ask == phase || p.ask == Ask::Both) && (p.always || !known@.contains_key(p.name@))),
                same_prompts(out@, ps@.take(i as int).filter(pred)),
            decreases ps@.len() - i,
        {
            let p = &ps[i];
            assert(ps@.take(i + 1).drop_last() =~= ps@.take(i as int));
            assert(ps@.take(i + 1).last() == *p);
            proof {
                reveal(Seq::filter);
            }
            if p.ask.covers(phase) && (p.always || !known.contains_key(p.name.as_str())) {
                out.push(p.clone());
            }
            i += 1;
        }
        assert(ps@.take(ps@.len() as int) =~= ps@);
        out
    }

    /// Questions a task declares (`prompt = ["…"]`), in the task's order. Always asked:
    /// they are per-run inputs, never remembered options. Unknown names are ignored.
    pub fn task_prompts(&self, task: &str) -> (r: Vec<Prompt>)
        ensures
            self.project.config.tasks@.contains_key(task@) ==> same_prompts(r@, listed(self.project.config.prompts@, strs(self.project.config.tasks@[task@].prompt@))),
            !self.project.config.tasks@.contains_key(task@) ==> r@.len() == 0,
    {
        let t = match self.project.config.tasks.get(task) {
            Some(t) => t,
            None => return Vec::new(),
        };
        let ps = &self.project.config.prompts;
        let mut out: Vec<Prompt> = Vec::new();
        let mut i: usize = 0;
        while i < t.prompt.len()
            invariant
                i <= t.prompt@.len(),
                same_prompts(out@, listed(ps@, strs(t.prompt@).take(i as int))),
            decreases t.prompt@.len() - i,
        {
            let name = chars_of(t.prompt[i].as_str());
            let mut j: usize = 0;
            let mut found = false;
            while j < ps.len()
                invariant_except_break
                    j <= ps@.len(),
                    !found,
                    forall|k: int| 0 <= k < j ==> (#[trigger] ps@[k]).name@ != name@,
                ensures
                    j <= ps@.len(),
                    found ==> j < ps@.len() && ps@[j as int].name@ == name@ && forall|k: int| 0 <= k < j ==> (#[trigger] ps@[k]).name@ != name@,
                    !found ==> forall|k: int| 0 <= k < ps@.len() ==> (#[trigger] ps@[k]).name@ != name@,
                decreases ps@.len() - j,
            {
                if same(&chars_of(ps[j].name.as_str()), &name) {
                    found = true;
                    break;
                }
                j += 1;
            }
            proof {
                assert(strs(t.prompt@).take(i + 1).drop_last() =~= strs(t.prompt@).take(i as int));
                assert(strs(t.prompt@).take(i + 1).last() == name@);
                if found {
                    assert(named(ps@, name@) == Some(j as int)) by {
                        let x = choose|x: int| 0 <= x < ps@.len() && ps@[x].name@ == name@ && forall|k: int| 0 <= k < x ==> (#[trigger] ps@[k]).name@ != name@;
                        assert(0 <= j < ps@.len() && ps@[j as int].name@ == name@ && forall|k: int| 0 <= k < j ==> (#[trigger] ps@[k]).name@ != name@);
                        if x < j {
                        } else if x > j {
                            assert(ps@[j as int].name@ != name@);
                        }
                    }
                } else {
                    assert(named(ps@, name@) is None);
                }
            }
            if found {
                out.push(ps[j].clone());
            }
            i += 1;
        }
        assert(strs(t.prompt@).take(t.prompt@.len() as int) =~= strs(t.prompt@));
        out
    }

    /// The main address of worktree `slug`, templated.
    pub fn url(&self, slug: &str, st: &WtState) -> (r: Option<String>)
        ensures
            match self.project.config.open.url {
                Some(u) => r matches Some(x) && x@ == rendered(u@, self.vars_for(slug@, st)),
                None => r is None,
            },
    {
        match &self.project.config.open.url {
            Some(u) => Some(render(u.as_str(), &self.vars(slug, st))),
            None => None,
        }
    }

    /// Where a question's or the link command's commands run, `dir_exists` telling
    /// whether the worktree's directory is there: the worktree if it already exists
    /// (the `up` case), otherwise the main repository (the `new` case, nothing checked
    /// out yet).
    pub fn prompt_cwd(&self, slug: &str, dir_exists: bool) -> (r: String)
        ensures
            r@ == work_dir(self.project.main@, self.dir_of(slug@), dir_exists),
    {
        if dir_exists {
            self.dir(slug)
        } else {
            self.project.main.clone()
        }
    }

    /// The variables a question's commands see: the worktree's, with the answers given
    /// so far as options, and `phase`.
    pub open spec fn prompt_vars(&self, slug: Seq<char>, st: WtState, opts: Dict<String>, phase: Ask) -> Map<Seq<char>, Seq<char>> {
        self.vars_for(slug, &answered(st, opts)).insert("phase"@, phase_word(phase))
    }

    /// The main address, when it is complete: a URL still holding `{{` (a port not
    /// allocated yet) teaches nothing.
    pub open spec fn main_link(&self, slug: Seq<char>, st: &WtState) -> Seq<(Seq<char>, Seq<char>)> {
        match self.project.config.open.url {
            Some(u) => {
                let x = rendered(u@, self.vars_for(slug, st));
                if contains(x, "{{"@) {
                    Seq::empty()
                } else {
                    seq![(x, match self.project.config.open.label {
                        Some(l) => l@,
                        None => "application"@,
                    })]
                }
            },
            None => Seq::empty(),
        }
    }

    /// Variables and working directory for a question's commands (`when`, `source`):
    /// the stored state `loaded` with the answers `opts` given so far, and `{{phase}}`
    /// (`$WT_PHASE`): the same question does not necessarily mean the same thing at
    /// creation and at start-up, and `when` must be able to tell.
    pub fn prompt_context(&self, slug: &str, opts: &Dict<String>, phase: Ask, loaded: WtState, dir_exists: bool) -> (r: (Vars, String))
        ensures
            r.0.texts() == self.prompt_vars(slug@, loaded, *opts, phase),
            r.1@ == work_dir(self.project.main@, self.dir_of(slug@), dir_exists),
    {
        let ghost given = loaded;
        let mut st = loaded;
        st.opts = opts.duplicate();
        let mut vars = self.vars(slug, &st);
        assert(vars.texts() == self.vars_for(slug@, &answered(given, *opts)));
        let ghost before = vars.texts();
        let word = match phase {
            Ask::New => owned("new"),
            _ => owned("up"),
        };
        vars.insert(owned("phase"), word);
        assert(vars.texts() =~= before.insert("phase"@, phase_word(phase)));
        (vars, self.prompt_cwd(slug, dir_exists))
    }

    /// The command `cmd` rendered with `vars`, to run in `cwd`.
    fn probe(cmd: &str, vars: Vars, cwd: String) -> (r: Probe)
        ensures
            is_probe(r, cmd@, vars.texts(), cwd@),
            r.vars == vars,
    {
        let command = render(cmd, &vars);
        let env = env(&vars);
        Probe { command, cwd, vars, env }
    }

    /// The `when` command deciding whether question `p` is asked, if it has one.
    pub fn prompt_condition(&self, p: &Prompt, slug: &str, opts: &Dict<String>, phase: Ask, loaded: WtState, dir_exists: bool) -> (r: Option<Probe>)
        ensures
            match p.when {
                None => r is None,
                Some(c) => r matches Some(pr) && is_probe(pr, c@, self.prompt_vars(slug@, loaded, *opts, phase), work_dir(self.project.main@, self.dir_of(slug@), dir_exists)),
            },
    {
        match &p.when {
            None => None,
            Some(c) => {
                let (vars, cwd) = self.prompt_context(slug, opts, phase, loaded, dir_exists);
                Some(App::probe(c.as_str(), vars, cwd))
            },
        }
    }

    /// Does the question apply, given the answers already provided? Always without a
    /// `when`; otherwise when its command (see `prompt_condition`) exited 0.
    pub fn prompt_applies(&self, p: &Prompt, passed: bool) -> (r: bool)
        ensures
            r == (p.when is None || passed),
    {
        p.when.is_none() || passed
    }

    /// The command enumerating question `p`'s choices, when they come from one.
    pub fn prompt_source(&self, p: &Prompt, slug: &str, opts: &Dict<String>, phase: Ask, loaded: WtState, dir_exists: bool) -> (r: Option<Probe>)
        ensures
            !runs_source(*p) ==> r is None,
            runs_source(*p) ==> (r matches Some(pr) && is_probe(pr, p.source.unwrap()@, self.prompt_vars(slug@, loaded, *opts, phase), work_dir(self.project.main@, self.dir_of(slug@), dir_exists))),
    {
        if p.kind == PromptKind::Confirm && p.options.len() == 0 {
            return None;
        }
        match &p.source {
            None => None,
            Some(c) => {
                let (vars, cwd) = self.prompt_context(slug, opts, phase, loaded, dir_exists);
                Some(App::probe(c.as_str(), vars, cwd))
            },
        }
    }

    /// Offered choices: yes and no for a yes/no question without choices of its own,
    /// those from the file, or those the `source` command printed as `output`
    /// (`value<TAB>label<TAB>detail` per line).
    pub fn prompt_choices(&self, p: &Prompt, output: &str) -> (r: Vec<PromptOption>)
        ensures
            p.kind == PromptKind::Confirm && p.options@.len() == 0 ==> r@.map_values(|o: PromptOption| option_view(o)) == seq![("1"@, "oui"@, Seq::<char>::empty()), ("0"@, "non"@, Seq::<char>::empty())],
            !(p.kind == PromptKind::Confirm && p.options@.len() == 0) && p.source is None ==> r@ == p.options@,
            runs_source(*p) ==> r@.map_values(|o: PromptOption| option_view(o)) == choices_in(lines(output@)),
    {
        if p.kind == PromptKind::Confirm && p.options.len() == 0 {
            let r = vec![
                PromptOption { value: owned("1"), label: owned("oui"), detail: String::new() },
                PromptOption { value: owned("0"), label: owned("non"), detail: String::new() },
            ];
            assert(r@.map_values(|o: PromptOption| option_view(o)) =~= seq![("1"@, "oui"@, Seq::<char>::empty()), ("0"@, "non"@, Seq::<char>::empty())]);
            return r;
        }
        match &p.source {
            None => {
                let mut out: Vec<PromptOption> = Vec::new();
                let mut i: usize = 0;
                while i < p.options.len()
                    invariant
                        i <= p.options@.len(),
                        out@ == p.options@.take(i as int),
                    decreases p.options@.len() - i,
                {
                    out.push(p.options[i].clone());
                    i += 1;
                    assert(out@ =~= p.options@.take(i as int));
                }
                assert(p.options@.take(p.options@.len() as int) =~= p.options@);
                out
            },
            Some(_) => choices_from(output),
        }
    }

    /// The command listing further addresses (`[open] source`), if the project has one.
    pub fn link_source(&self, slug: &str, st: &WtState, dir_exists: bool) -> (r: Option<Probe>)
        ensures
            match self.project.config.open.source {
                None => r is None,
                Some(c) => r matches Some(pr) && is_probe(pr, c@, self.vars_for(slug@, st), work_dir(self.project.main@, self.dir_of(slug@), dir_exists)),
            },
    {
        match &self.project.config.open.source {
            None => None,
            Some(c) => Some(App::probe(c.as_str(), self.vars(slug, st), self.prompt_cwd(slug, dir_exists))),
        }
    }

    /// Addresses this worktree can open: the main URL, then those the `[open] source`
    /// command printed as `output` (one per tenant, per service…), `url<TAB>label` per
    /// line.
    pub fn links(&self, slug: &str, st: &WtState, output: &str) -> (r: Vec<Link>)
        ensures
            r@.map_values(|l: Link| link_view(l)) == self.main_link(slug@, st) + (if self.project.config.open.source is Some {
                links_in(lines(output@))
            } else {
                Seq::empty()
            }),
    {
        let mut out: Vec<Link> = Vec::new();
        match self.url(slug, st) {
            Some(u) => {
                let cs = chars_of(u.as_str());
                let open = chars_of("{{");
                let templated = has(&cs, &open);
                if !templated {
                    let label = match &self.project.config.open.label {
                        Some(l) => l.clone(),
                        None => owned("application"),
                    };
                    out.push(Link { url: u, label });
                }
            },
            None => {},
        }
        assert(out@.map_values(|l: Link| link_view(l)) =~= self.main_link(slug@, st));
        if self.project.config.open.source.is_some() {
            let more = links_from(output);
            let ghost a = out@;
            let mut more = more;
            out.append(&mut more);
            assert(out@.map_values(|l: Link| link_view(l)) =~= a.map_values(|l: Link| link_view(l)) + links_in(lines(output@)));
        }
        out
    }

    /// Where a hook runs: the main repository, or the worktree when it exists.
    pub open spec fn hook_dir(&self, slug: Seq<char>, cwd: Cwd, dir_exists: bool) -> Seq<char> {
        match cwd {
            Cwd::Main => self.project.main@,
            Cwd::Worktree => work_dir(self.project.main@, self.dir_of(slug), dir_exists),
        }
    }

    /// The commands `cmds` ready to run with `vars` in `cwd`.
    fn prepare(cmds: &Commands, vars: Vars, cwd: String) -> (r: Run)
        ensures
            is_run(r, strs(cmds.0@), vars.texts(), cwd@),
    {
        let mut commands: Vec<String> = Vec::new();
        let mut i: usize = 0;
        while i < cmds.0.len()
            invariant
                i <= cmds.0@.len(),
                commands@.len() == i,
                forall|j: int| 0 <= j < i ==> (#[trigger] commands@[j])@ == rendered(cmds.0@[j]@, vars.texts()),
            decreases cmds.0@.len() - i,
        {
            commands.push(render(cmds.0[i].as_str(), &vars));
            i += 1;
        }
        let env = env(&vars);
        Run { commands, cwd, vars, env }
    }

    /// A hook of worktree `slug` in state `st`: its commands rendered with the
    /// worktree's variables. Run in the main repository, or in the worktree when it
    /// exists (`dir_exists`). Nothing to run when the hook is empty.
    pub fn run_hook(&self, cmds: &Commands, slug: &str, st: &WtState, cwd: Cwd, dir_exists: bool) -> (r: Run)
        ensures
            is_run(r, strs(cmds.0@), self.vars_for(slug@, st), self.hook_dir(slug@, cwd, dir_exists)),
    {
        let vars = self.vars(slug, st);
        let dir = match cwd {
            Cwd::Main => self.project.main.clone(),
            Cwd::Worktree => self.prompt_cwd(slug, dir_exists),
        };
        App::prepare(cmds, vars, dir)
    }

    /// Task `task` of worktree `slug` in state `st`, its arguments as `{{args}}`, in
    /// the main repository or the worktree as the task says.
    pub fn cmd_run(&self, task: &str, slug: &str, st: &WtState, args: &[String]) -> (r: Result<Run, Error>)
        ensures
            self.project.config.tasks@.contains_key(task@) <==> r is Ok,
            !self.project.config.tasks@.contains_key(task@) <==> (r matches Err(e) && e matches Error::UnknownTask(t) && t@ == task@),
            r matches Ok(run) ==> {
                let t = self.project.config.tasks@[task@];
                is_run(
                    run,
                    strs(t.run.0@),
                    self.vars_for(slug@, st).insert("args"@, spaced(strs(args@))),
                    match t.cwd {
                        Cwd::Main => self.project.main@,
                        Cwd::Worktree => self.dir_of(slug@),
                    },
                )
            },
    {
        let t = match self.project.config.tasks.get(task) {
            Some(t) => t,
            None => return Err(Error::UnknownTask(owned(task))),
        };
        let mut vars = self.vars(slug, st);
        let ghost before = vars.texts();
        vars.insert(owned("args"), join_words(args));
        assert(vars.texts() =~= before.insert("args"@, spaced(strs(args@))));
        let dir = match t.cwd {
            Cwd::Main => self.project.main.clone(),
            Cwd::Worktree => self.dir(slug),
        };
        Ok(App::prepare(&t.run, vars, dir))
    }

    /// Gives a port to each of the project's ports of `phase` that the state does not
    /// hold yet: the first from its base up that is neither `reserved` by another
    /// worktree nor already this one's, and that `free` finds free. Ports already held
    /// stay as they are: that is what keeps them stable from one start to the next.
    /// Says whether anything was given out.
    pub fn allocate_ports<F: Fn(u16) -> bool>(&self, st: &mut WtState, phase: Allocate, reserved: &Vec<u16>, free: &F) -> (r: Result<bool, Error>)
        requires
            forall|p: u16| free.requires((p,)),
        ensures
            final(st).branch == old(st).branch,
            final(st).opts == old(st).opts,
            r matches Ok(changed) ==> {
                &&& keeps(old(st).ports@, final(st).ports@)
                &&& forall|k: Seq<char>| #[trigger] self.project.config.ports@.contains_key(k) && self.project.config.ports@[k].allocate == phase ==> final(st).ports@.contains_key(k)
                &&& forall|k: Seq<char>| #[trigger] final(st).ports@.contains_key(k) && !old(st).ports@.contains_key(k) ==> self.project.config.ports@[k].allocate == phase
                &&& fresh_ports(self.project.config.ports@, old(st).ports@, final(st).ports@, reserved@, *free)
                &&& changed == exists|k: Seq<char>| #[trigger] final(st).ports@.contains_key(k) && !old(st).ports@.contains_key(k)
            },
            all_held(self.project.config.ports@, old(st).ports@, phase) ==> r is Ok,
            r matches Err(e) ==> (e matches Error::NoFreePort(b) && exhausted(self.project.config.ports@, phase, old(st).ports@, final(st).ports@, reserved@, *free, b)),
    {
        let specs = &self.project.config.ports;
        let n = specs.len();
        let mut changed = false;
        let mut i: usize = 0;
        while i < n
            invariant
                *specs == self.project.config.ports,
                n == specs.size(),
                i <= n,
                forall|p: u16| free.requires((p,)),
                st.branch == old(st).branch,
                st.opts == old(st).opts,
                keeps(old(st).ports@, st.ports@),
                forall|t: int| 0 <= t < i ==> specs@.contains_key(#[trigger] specs.key_at(t)) && specs@[specs.key_at(t)] == specs.value_at(t),
                forall|t: int| 0 <= t < i && (#[trigger] specs.value_at(t)).allocate == phase ==> st.ports@.contains_key(specs.key_at(t)),
                forall|k: Seq<char>| #[trigger] st.ports@.contains_key(k) && !old(st).ports@.contains_key(k) ==> specs@.contains_key(k) && specs@[k].allocate == phase,
                fresh_ports(specs@, old(st).ports@, st.ports@, reserved@, *free),
                changed == exists|k: Seq<char>| #[trigger] st.ports@.contains_key(k) && !old(st).ports@.contains_key(k),
            decreases n - i,
        {
            let name = specs.key(i);
            let spec = specs.value(i);
            if spec.allocate == phase && !st.ports.contains_key(name.as_str()) {
                let taken = taken_ports(reserved, &st.ports);
                let port = match alloc_port(spec.base, &taken, free) {
                    Ok(p) => p,
                    Err(e) => {
                        proof {
                            let k = specs.key_at(i as int);
                            assert(specs@.contains_key(k));
                            assert(specs@[k] == *spec);
                            assert(name@ == k);
                            assert(!old(st).ports@.contains_key(k)) by {
                                if old(st).ports@.contains_key(k) {
                                    assert(st.ports@.contains_key(k));
                                }
                            }
                            assert forall|q: u16| spec.base <= q implies #[trigger] passed_over(st.ports@, reserved@, *free, k, q) by {
                                if taken@.contains(q) && !reserved@.contains(q) {
                                    let j = choose|j: Seq<char>| #[trigger] st.ports@.contains_key(j) && st.ports@[j] == q;
                                    assert(j != k);
                                }
                            }
                            assert(!all_held(specs@, old(st).ports@, phase));
                        }
                        return Err(e);
                    },
                };
                let ghost before = st.ports@;
                st.ports.insert(name.clone(), port);
                proof {
                    let after = st.ports@;
                    assert(after == before.insert(name@, port));
                    assert forall|k: Seq<char>| #[trigger] after.contains_key(k) && !old(st).ports@.contains_key(k) implies {
                        &&& specs@.contains_key(k)
                        &&& after[k] >= specs@[k].base
                        &&& !reserved@.contains(after[k])
                        &&& free.ensures((after[k],), true)
                        &&& forall|j: Seq<char>| after.contains_key(j) && j != k ==> after[j] != #[trigger] after[k]
                    } by {
                        if k == name@ {
                            assert forall|j: Seq<char>| after.contains_key(j) && j != k implies after[j] != #[trigger] after[k] by {
                                assert(before.contains_key(j));
                                assert(taken@.contains(before[j]));
                            }
                        } else {
                            assert(before.contains_key(k));
                            assert forall|j: Seq<char>| after.contains_key(j) && j != k implies after[j] != #[trigger] after[k] by {
                                if j == name@ {
                                    assert(taken@.contains(before[k]));
                                }
                            }
                        }
                    }
                    assert(after.contains_key(name@) && !old(st).ports@.contains_key(name@));
                    assert(keeps(before, after));
                    assert(specs@[name@].base == spec.base);
                    assert forall|k: Seq<char>, q: u16| after.contains_key(k) && !old(st).ports@.contains_key(k) && specs@[k].base <= q < after[k] implies #[trigger] passed_over(after, reserved@, *free, k, q) by {
                        if k == name@ {
                            if taken@.contains(q) && !reserved@.contains(q) {
                                let j = choose|j: Seq<char>| #[trigger] before.contains_key(j) && before[j] == q;
                                assert(after.contains_key(j) && j != k && after[j] == q);
                            }
                        } else {
                            assert(before.contains_key(k));
                            assert(passed_over(before, reserved@, *free, k, q));
                            lemma_passed_over_grows(before, after, reserved@, *free, k, q);
                        }
                    }
                }
                changed = true;
            }
            i += 1;
        }
        proof {
            assert forall|k: Seq<char>| #[trigger] specs@.contains_key(k) && specs@[k].allocate == phase implies st.ports@.contains_key(k) by {
                let t = choose|t: int| 0 <= t < specs.entries().len() && specs.entries()[t].0 == k;
                assert(specs.key_at(t) == k);
            }
        }
        Ok(changed)
    }
}

/// A `[[copy]]` entry's target: `to` when given, the source path otherwise.
pub open spec fn copy_target(c: crate::config::CopySpec) -> Seq<char> {
    match c.to {
        Some(t) => t@,
        None => c.from@,
    }
}

/// Does `pr` stand for `c` made concrete with `vars` for a worktree at `dir` of a
/// repository at `main`?
pub open spec fn is_copy(pr: CopyPlan, c: crate::config::CopySpec, vars: Map<Seq<char>, Seq<char>>, main: Seq<char>, dir: Seq<char>) -> bool {
    &&& pr.from_rel@ == rendered(c.from@, vars)
    &&& pr.to_rel@ == rendered(copy_target(c), vars)
    &&& pr.from@ == joined_path(main, pr.from_rel@)
    &&& pr.to@ == joined_path(dir, pr.to_rel@)
    &&& pr.mode == c.mode
    &&& pr.optional == c.optional
}

/// The name of the shell `wt shell-init` should be set up for: `$SHELL`'s last name when
/// it is bash, zsh or fish, bash otherwise.
pub open spec fn shell_name_of(shell: Option<Seq<char>>) -> Seq<char> {
    match shell {
        Some(s) => match file_name_of(s) {
            Some(n) => if n == "bash"@ || n == "zsh"@ || n == "fish"@ {
                n
            } else {
                "bash"@
            },
            None => "bash"@,
        },
        None => "bash"@,
    }
}

/// The line picked among `count` by the answer typed: a bare ENTER takes the first (the
/// best match, the one aimed at), a number from 1 to `count` picks that one, anything
/// else picks nothing.
pub open spec fn picked(answer: Seq<char>, count: int) -> Option<int> {
    let t = trim(answer);
    if t.len() == 0 {
        Some(0)
    } else {
        match number(t) {
            Some(n) => if 1 <= n <= count {
                Some(n - 1)
            } else {
                None
            },
            None => None,
        }
    }
}

impl App {
    /// Does the worktree exist? Acting on one that does not is refused.
    pub fn existing(&self, slug: &str, dir_exists: bool) -> (r: Result<(), Error>)
        ensures
            r is Ok <==> dir_exists,
            r matches Err(e) ==> e matches Error::MissingWorktree(s) && s@ == slug@,
    {
        if dir_exists {
            Ok(())
        } else {
            Err(Error::MissingWorktree(owned(slug)))
        }
    }

    /// The state a new worktree `slug` starts from, given `--set` options `sets`: no
    /// branch yet, no port, the options. Refused for an invalid slug, then for a
    /// directory already there, then for an option without `=`.
    pub fn cmd_new(&self, slug: &str, sets: &[String], dir_exists: bool) -> (r: Result<WtState, Error>)
        ensures
            !valid_slug(slug@) ==> (r matches Err(e) && e matches Error::InvalidSlug(s) && s@ == slug@),
            valid_slug(slug@) && dir_exists ==> (r matches Err(e) && e matches Error::DirExists(d) && d@ == self.dir_of(slug@)),
            valid_slug(slug@) && !dir_exists && sets_of(strs(sets@)) is None ==> (r matches Err(e) && e matches Error::BadSet(v) && v@ == sets@[first_bad_set(strs(sets@))]@),
            r is Ok <==> valid_slug(slug@) && !dir_exists && sets_of(strs(sets@)) is Some,
            r matches Ok(st) ==> st.branch@.len() == 0 && st.ports@.len() == 0 && st.opts.texts() == sets_of(strs(sets@)).unwrap(),
    {
        match validate_slug(slug) {
            Ok(()) => {},
            Err(e) => return Err(e),
        }
        if dir_exists {
            return Err(Error::DirExists(self.dir(slug)));
        }
        let opts = match parse_sets(sets) {
            Ok(o) => o,
            Err(e) => return Err(e),
        };
        let st = WtState { branch: String::new(), ports: Dict::new(), opts };
        Ok(st)
    }

    /// The branch a new worktree checks out: the one given, or the project's `branch`
    /// template (`wt/{{slug}}` by default) rendered with the worktree's variables.
    pub fn new_branch(&self, slug: &str, given: Option<&str>, st: &WtState) -> (r: String)
        ensures
            given matches Some(b) ==> r@ == b@,
            given is None ==> r@ == rendered(
                match self.project.config.branch {
                    Some(t) => t@,
                    None => "wt/{{slug}}"@,
                },
                self.vars_for(slug@, st),
            ),
    {
        match given {
            Some(b) => owned(b),
            None => {
                let vars = self.vars(slug, st);
                match &self.project.config.branch {
                    Some(t) => render(t.as_str(), &vars),
                    None => render("wt/{{slug}}", &vars),
                }
            },
        }
    }

    /// The directories to create in a new worktree, rendered, under the worktree.
    pub fn dirs(&self, slug: &str, st: &WtState) -> (r: Vec<String>)
        ensures
            r@.len() == self.project.config.dirs@.len(),
            forall|i: int| 0 <= i < r@.len() ==> (#[trigger] r@[i])@ == joined_path(self.dir_of(slug@), rendered(self.project.config.dirs@[i]@, self.vars_for(slug@, st))),
    {
        let vars = self.vars(slug, st);
        let dir = self.dir(slug);
        let ds = &self.project.config.dirs;
        let mut out: Vec<String> = Vec::new();
        let mut i: usize = 0;
        while i < ds.len()
            invariant
                *ds == self.project.config.dirs,
                i <= ds@.len(),
                out@.len() == i,
                vars.texts() == self.vars_for(slug@, st),
                dir@ == self.dir_of(slug@),
                forall|j: int| 0 <= j < i ==> (#[trigger] out@[j])@ == joined_path(self.dir_of(slug@), rendered(ds@[j]@, self.vars_for(slug@, st))),
            decreases ds@.len() - i,
        {
            let rel = render(ds[i].as_str(), &vars);
            out.push(join(dir.as_str(), rel.as_str()));
            i += 1;
        }
        out
    }

    /// The project's `[[copy]]` entries made concrete for worktree `slug` in state `st`.
    pub fn copies(&self, slug: &str, st: &WtState) -> (r: Vec<CopyPlan>)
        ensures
            r@.len() == self.project.config.copies@.len(),
            forall|i: int| 0 <= i < r@.len() ==> is_copy(#[trigger] r@[i], self.project.config.copies@[i], self.vars_for(slug@, st), self.project.main@, self.dir_of(slug@)),
    {
        let vars = self.vars(slug, st);
        let dir = self.dir(slug);
        let cs = &self.project.config.copies;
        let mut out: Vec<CopyPlan> = Vec::new();
        let mut i: usize = 0;
        while i < cs.len()
            invariant
                *cs == self.project.config.copies,
                i <= cs@.len(),
                out@.len() == i,
                vars.texts() == self.vars_for(slug@, st),
                dir@ == self.dir_of(slug@),
                forall|j: int| 0 <= j < i ==> is_copy(#[trigger] out@[j], cs@[j], self.vars_for(slug@, st), self.project.main@, self.dir_of(slug@)),
            decreases cs@.len() - i,
        {
            let c = &cs[i];
            let from_rel = render(c.from.as_str(), &vars);
            let to_rel = match &c.to {
                Some(t) => render(t.as_str(), &vars),
                None => render(c.from.as_str(), &vars),
            };
            let from = join(self.project.main.as_str(), from_rel.as_str());
            let to = join(dir.as_str(), to_rel.as_str());
            out.push(CopyPlan { from_rel, to_rel, from, to, mode: c.mode, optional: c.optional });
            i += 1;
        }
        out
    }

    /// Whether to carry out a copy whose source does (`exists`) or does not exist: a
    /// missing optional source is skipped, a missing required one refused.
    pub fn copy_check(&self, c: &CopyPlan, exists: bool) -> (r: Result<bool, Error>)
        ensures
            exists ==> r matches Ok(true),
            !exists && c.optional ==> r matches Ok(false),
            !exists && !c.optional ==> (r matches Err(e) && e matches Error::CopySourceMissing(p) && p@ == c.from@),
    {
        if exists {
            Ok(true)
        } else if c.optional {
            Ok(false)
        } else {
            Err(Error::CopySourceMissing(c.from.clone()))
        }
    }

    /// Starting worktree `slug`: the options `sets` added to the previous ones (a bare
    /// `wt up` repeats the last start, `--set queue=0` only resets that key), the
    /// start-up ports allocated, and the `up` hook to run, when the project has one.
    pub fn cmd_up<F: Fn(u16) -> bool>(&self, slug: &str, st: &mut WtState, sets: &[String], reserved: &Vec<u16>, free: &F) -> (r: Result<Option<Run>, Error>)
        requires
            forall|p: u16| free.requires((p,)),
        ensures
            sets_of(strs(sets@)) is None ==> (r matches Err(e) && e matches Error::BadSet(v) && v@ == sets@[first_bad_set(strs(sets@))]@ && *final(st) == *old(st)),
            r is Ok ==> sets_of(strs(sets@)) is Some,
            r matches Err(e) ==> (e matches Error::BadSet(_) || e matches Error::NoFreePort(_)),
            sets_of(strs(sets@)) is Some && all_held(self.project.config.ports@, old(st).ports@, Allocate::Up) ==> r is Ok,
            r matches Err(Error::NoFreePort(b)) ==> exhausted(self.project.config.ports@, Allocate::Up, old(st).ports@, final(st).ports@, reserved@, *free, b),
            r matches Ok(hook) ==> {
                &&& final(st).branch == old(st).branch
                &&& final(st).opts.texts() == old(st).opts.texts().union_prefer_right(sets_of(strs(sets@)).unwrap())
                &&& keeps(old(st).ports@, final(st).ports@)
                &&& forall|k: Seq<char>| #[trigger] self.project.config.ports@.contains_key(k) && self.project.config.ports@[k].allocate == Allocate::Up ==> final(st).ports@.contains_key(k)
                &&& forall|k: Seq<char>| #[trigger] final(st).ports@.contains_key(k) && !old(st).ports@.contains_key(k) ==> self.project.config.ports@[k].allocate == Allocate::Up
                &&& fresh_ports(self.project.config.ports@, old(st).ports@, final(st).ports@, reserved@, *free)
                &&& (hook is None <==> self.project.config.hooks.up.0@.len() == 0)
                &&& (hook matches Some(run) ==> is_run(run, strs(self.project.config.hooks.up.0@), self.vars_for(slug@, &*final(st)), self.dir_of(slug@)))
            },
    {
        let parsed = match parse_sets(sets) {
            Ok(p) => p,
            Err(e) => return Err(e),
        };
        let ghost before = st.opts.texts();
        st.opts.extend(&parsed);
        assert(st.opts.texts() =~= before.union_prefer_right(parsed.texts()));
        match self.allocate_ports(st, Allocate::Up, reserved, free) {
            Ok(_) => {},
            Err(e) => return Err(e),
        }
        if !self.has_up() {
            return Ok(None);
        }
        Ok(Some(self.run_hook(&self.project.config.hooks.up, slug, st, Cwd::Worktree, true)))
    }

    /// Stopping worktree `slug` in state `st`: the `down` hook to run, when the project
    /// has one.
    pub fn cmd_down(&self, slug: &str, st: &WtState) -> (r: Option<Run>)
        ensures
            r is None <==> self.project.config.hooks.down.0@.len() == 0,
            r matches Some(run) ==> is_run(run, strs(self.project.config.hooks.down.0@), self.vars_for(slug@, st), self.dir_of(slug@)),
    {
        if !self.has_down() {
            return None;
        }
        Some(self.run_hook(&self.project.config.hooks.down, slug, st, Cwd::Worktree, true))
    }

    /// The address to open among `links`, the worktree's: the first one without a
    /// target, the target itself when it is a full `http(s)` URL, otherwise the first
    /// whose label or address contains the target. `None` when only listing. Refused when
    /// there is no address at all (a non-web project has nothing to open), or none
    /// matching.
    pub fn cmd_open(&self, slug: &str, links: &Vec<Link>, target: Option<&str>, list: bool) -> (r: Result<Option<String>, Error>)
        ensures
            links@.len() == 0 ==> (r matches Err(e) && e matches Error::NoUrl(p) && p@ == self.project.config_path@),
            links@.len() > 0 && list ==> r matches Ok(None),
            links@.len() > 0 && !list ==> match target {
                None => r matches Ok(Some(u)) && u@ == links@[0].url@,
                Some(t) => if starts_with(t@, "http://"@) || starts_with(t@, "https://"@) {
                    r matches Ok(Some(u)) && u@ == t@
                } else {
                    match r {
                        Ok(Some(u)) => exists|i: int| 0 <= i < links@.len() && (contains(links@[i].label@, t@) || contains(links@[i].url@, t@)) && u@ == links@[i].url@
                            && forall|j: int| 0 <= j < i ==> !(contains((#[trigger] links@[j]).label@, t@) || contains(links@[j].url@, t@)),
                        Err(e) => (e matches Error::NoMatchingUrl { target: tt, slug: ss } && tt@ == t@ && ss@ == slug@)
                            && forall|j: int| 0 <= j < links@.len() ==> !(contains((#[trigger] links@[j]).label@, t@) || contains(links@[j].url@, t@)),
                        Ok(None) => false,
                    }
                },
            },
    {
        if links.len() == 0 {
            return Err(Error::NoUrl(self.project.config_path.clone()));
        }
        if list {
            return Ok(None);
        }
        let t = match target {
            None => return Ok(Some(links[0].url.clone())),
            Some(t) => t,
        };
        let tc = chars_of(t);
        let http = chars_of("http://");
        let https = chars_of("https://");
        if has_prefix(&tc, &http) || has_prefix(&tc, &https) {
            return Ok(Some(owned(t)));
        }
        assert(!starts_with(t@, "http://"@) && !starts_with(t@, "https://"@));
        let mut i: usize = 0;
        while i < links.len()
            invariant
                i <= links@.len(),
                links@.len() > 0,
                !list,
                target == Some(t),
                !starts_with(t@, "http://"@) && !starts_with(t@, "https://"@),
                tc@ == t@,
                forall|j: int| 0 <= j < i ==> !(contains((#[trigger] links@[j]).label@, t@) || contains(links@[j].url@, t@)),
            decreases links@.len() - i,
        {
            let label = chars_of(links[i].label.as_str());
            let url = chars_of(links[i].url.as_str());
            if has(&label, &tc) || has(&url, &tc) {
                return Ok(Some(links[i].url.clone()));
            }
            i += 1;
        }
        Err(Error::NoMatchingUrl { target: owned(t), slug: owned(slug) })
    }

    /// The worktrees `pattern` designates among `slugs` (the worktrees on disk, in list
    /// order), best first: all of them with no pattern, only the one literally so
    /// named when there is one, otherwise those the pattern fuzzily matches, best
    /// first, ties in list order. One left is the answer; several are asked about.
    /// Refused when there is no worktree at all, or none matching.
    pub fn choose_slug(&self, slugs: &Vec<String>, pattern: Option<&str>) -> (r: Result<Vec<String>, Error>)
        requires
            match pattern {
                Some(p) => !strs(slugs@).contains(p@) ==> scorable(strs(slugs@), p@),
                None => true,
            },
        ensures
            slugs@.len() == 0 ==> (r matches Err(e) && e matches Error::NoWorktrees(p) && p@ == self.root@),
            slugs@.len() > 0 && candidates(strs(slugs@), opt_str(pattern)).len() == 0 ==> (r matches Err(e) && e matches Error::UnknownWorktree(p) && p@ == match pattern {
                Some(x) => x@,
                None => Seq::<char>::empty(),
            }),
            r is Ok <==> slugs@.len() > 0 && candidates(strs(slugs@), opt_str(pattern)).len() > 0,
            r matches Ok(v) ==> strs(v@) == candidates(strs(slugs@), opt_str(pattern)),
    {
        if slugs.len() == 0 {
            return Err(Error::NoWorktrees(self.root.clone()));
        }
        let found = match pattern {
            None => {
                let mut out: Vec<String> = Vec::new();
                let mut i: usize = 0;
                while i < slugs.len()
                    invariant
                        i <= slugs@.len(),
                        out@ == slugs@.take(i as int),
                    decreases slugs@.len() - i,
                {
                    out.push(slugs[i].clone());
                    i += 1;
                    assert(out@ =~= slugs@.take(i as int));
                }
                assert(slugs@.take(slugs@.len() as int) =~= slugs@);
                out
            },
            Some(p) => if is_listed(slugs, p) {
                only(slugs, p)
            } else {
                rank(slugs, p)
            },
        };
        if found.len() == 0 {
            return Err(Error::UnknownWorktree(match pattern {
                Some(p) => owned(p),
                None => String::new(),
            }));
        }
        Ok(found)
    }

    /// The worktree `pattern` designates among `slugs`, as [`App::choose_slug`] finds
    /// it, when `can_ask` says whether someone is there to choose among several. One
    /// candidate left is the answer; several are handed back to be asked about, or, with
    /// nobody to ask, refused naming every one of them: never a guess. They come best
    /// first whenever the slugs can be scored against the pattern; past the scored sizes
    /// (slugs of tens of millions of characters) the same candidates come in list order.
    pub fn settle_slug(&self, slugs: &Vec<String>, pattern: Option<&str>, can_ask: bool) -> (r: Result<Vec<String>, Error>)
        ensures
            slugs@.len() == 0 ==> (r matches Err(e) && e matches Error::NoWorktrees(p) && p@ == self.root@),
            slugs@.len() > 0 && candidates(strs(slugs@), opt_str(pattern)).len() == 0 ==> (r matches Err(e) && e matches Error::UnknownWorktree(p) && p@ == match pattern {
                Some(x) => x@,
                None => Seq::<char>::empty(),
            }),
            slugs@.len() > 0 && candidates(strs(slugs@), opt_str(pattern)).len() > 1 && !can_ask ==> (r matches Err(e) && e matches Error::Ambiguous(v)
                && same_candidates(strs(v@), strs(slugs@), opt_str(pattern))),
            r is Ok <==> slugs@.len() > 0 && (candidates(strs(slugs@), opt_str(pattern)).len() == 1 || (candidates(strs(slugs@), opt_str(pattern)).len() > 1 && can_ask)),
            r matches Ok(v) ==> same_candidates(strs(v@), strs(slugs@), opt_str(pattern)),
            candidates(strs(slugs@), opt_str(pattern)).len() == 1 ==> (r matches Ok(v) && strs(v@) == candidates(strs(slugs@), opt_str(pattern))),
    {
        if slugs.len() == 0 {
            return Err(Error::NoWorktrees(self.root.clone()));
        }
        if let Some(p) = pattern {
            if !is_listed(slugs, p) && !can_rank(slugs, p) {
                let found = matching_slugs(slugs, p);
                let ghost cand = candidates(strs(slugs@), opt_str(pattern));
                proof {
                    law_a_typed_name_designates(strs(slugs@), p@);
                    assert(cand == ranked(scored(strs(slugs@), p@)).map_values(|x: (int, Seq<char>)| x.1));
                }
                if found.len() == 0 {
                    return Err(Error::UnknownWorktree(owned(p)));
                }
                if found.len() == 1 {
                    proof {
                        assert(cand.to_set().contains(cand[0]));
                        assert(strs(found@).to_set().contains(cand[0]));
                        assert(strs(found@)[0] == cand[0]);
                        assert(strs(found@) =~= cand);
                    }
                    return Ok(found);
                }
                if can_ask {
                    return Ok(found);
                }
                return Err(Error::Ambiguous(found));
            }
        }
        let found = match self.choose_slug(slugs, pattern) {
            Ok(v) => v,
            Err(e) => return Err(e),
        };
        if found.len() > 1 && !can_ask {
            return Err(Error::Ambiguous(found));
        }
        Ok(found)
    }

    /// Is worktree `wt` started? What the `[status] up` command says, run in
    /// the worktree (or the main repository when its directory is gone). `None` when the
    /// project has no such command: the notion of "started" does not exist then, which
    /// is not the same as stopped.
    pub fn is_up(&self, wt: &Worktree, dir_exists: bool) -> (r: Option<Probe>)
        ensures
            match self.project.config.status.up {
                None => r is None,
                Some(c) => r matches Some(pr) && is_probe(pr, c@, self.vars_for(wt.slug@, &wt.state), work_dir(self.project.main@, wt.path@, dir_exists)),
            },
    {
        match &self.project.config.status.up {
            None => None,
            Some(c) => {
                let vars = self.vars(wt.slug.as_str(), &wt.state);
                let cwd = if dir_exists { wt.path.clone() } else { self.project.main.clone() };
                Some(App::probe(c.as_str(), vars, cwd))
            },
        }
    }

    /// The main address to show for worktree `slug`, when it is complete: right after
    /// `wt new`, ports allocated at start-up do not exist yet, and a URL full of holes
    /// teaches nothing.
    pub fn endpoint_url(&self, slug: &str, st: &WtState) -> (r: Option<String>)
        ensures
            self.main_link(slug@, st).len() == 0 ==> r is None,
            self.main_link(slug@, st).len() > 0 ==> (r matches Some(u) && u@ == self.main_link(slug@, st)[0].0),
    {
        match self.url(slug, st) {
            Some(u) => {
                let templated = has(&chars_of(u.as_str()), &chars_of("{{"));
                if templated {
                    None
                } else {
                    Some(u)
                }
            },
            None => None,
        }
    }

    /// The shell opened in a worktree: `$WT_TERMINAL`, then `[editor] terminal`, then
    /// `$SHELL`, then `sh`.
    pub fn shell_command(&self, wt_terminal: Option<String>, shell: Option<String>) -> (r: String)
        ensures
            r@ == match wt_terminal {
                Some(t) => t@,
                None => match self.project.config.editor.terminal {
                    Some(t) => t@,
                    None => match shell {
                        Some(s) => s@,
                        None => "sh"@,
                    },
                },
            },
    {
        match wt_terminal {
            Some(t) => t,
            None => match &self.project.config.editor.terminal {
                Some(t) => t.clone(),
                None => match shell {
                    Some(s) => s,
                    None => owned("sh"),
                },
            },
        }
    }

    /// Does the chosen editor live in the current terminal?
    pub fn editor_is_terminal(&self, editor: &str) -> (r: bool)
        ensures
            r == terminal_editor(editor@),
    {
        is_terminal_editor(editor)
    }
}

/// The pieces of `s` between occurrences of `sep` (`str::split` on a text): with an
/// empty separator, each character is a piece of its own (the empty pieces `split`
/// also yields around them are left out here, as every caller drops them).
pub open spec fn split_on(s: Seq<char>, sep: Seq<char>) -> Seq<Seq<char>>
    decreases s.len(),
{
    if sep.len() == 0 {
        s.map_values(|c: char| seq![c])
    } else {
        match find_from(s, sep, 0) {
            None => seq![s],
            Some(i) => if i + sep.len() <= s.len() && sep.len() > 0 {
                proof {
                    lemma_find_from(s, sep, 0);
                }
                seq![s.take(i)] + split_on(s.skip(i + sep.len()), sep)
            } else {
                seq![s]
            },
        }
    }
}

/// The pieces trimmed, the empty ones left out.
pub open spec fn kept_values(pieces: Seq<Seq<char>>) -> Seq<Seq<char>>
    decreases pieces.len(),
{
    if pieces.len() == 0 {
        Seq::empty()
    } else {
        kept_values(pieces.drop_last()) + if trim(pieces.last()).len() > 0 {
            seq![trim(pieces.last())]
        } else {
            Seq::<Seq<char>>::empty()
        }
    }
}

/// The values a `multi` answer (or default) holds: split on the separator, trimmed,
/// empty ones left out.
pub open spec fn values_of(value: Seq<char>, sep: Seq<char>) -> Seq<Seq<char>> {
    kept_values(split_on(value, sep))
}

/// Keeping values distributes over concatenation.
proof fn lemma_kept_values_add(a: Seq<Seq<char>>, b: Seq<Seq<char>>)
    ensures
        kept_values(a + b) == kept_values(a) + kept_values(b),
    decreases b.len(),
{
    if b.len() == 0 {
        assert(a + b =~= a);
        assert(kept_values(b) =~= Seq::<Seq<char>>::empty());
        assert(kept_values(a) + kept_values(b) =~= kept_values(a));
    } else {
        assert((a + b).drop_last() =~= a + b.drop_last());
        assert((a + b).last() == b.last());
        lemma_kept_values_add(a, b.drop_last());
        assert(kept_values(a) + kept_values(b) =~= kept_values(a) + kept_values(b.drop_last()) + if trim(b.last()).len() > 0 {
            seq![trim(b.last())]
        } else {
            Seq::<Seq<char>>::empty()
        });
    }
}

/// The values a `multi` answer holds: `value` split on `sep`, trimmed, empty ones left
/// out.
pub fn split_values(value: &str, sep: &str) -> (r: Vec<String>)
    ensures
        strs(r@) == values_of(value@, sep@),
{
    let v = chars_of(value);
    let p = chars_of(sep);
    let mut out: Vec<String> = Vec::new();
    if p.len() == 0 {
        let ghost pieces = v@.map_values(|c: char| seq![c]);
        let mut i: usize = 0;
        while i < v.len()
            invariant
                i <= v@.len(),
                p@.len() == 0,
                pieces == v@.map_values(|c: char| seq![c]),
                strs(out@) == kept_values(pieces.take(i as int)),
            decreases v@.len() - i,
        {
            let one = vec![v[i]];
            assert(pieces.take(i + 1).drop_last() =~= pieces.take(i as int));
            assert(pieces.take(i + 1).last() == one@);
            let t = trimmed(&one);
            let ghost before = out@;
            if t.len() > 0 {
                out.push(string_of(&t));
                assert(strs(out@) =~= strs(before).push(t@));
            }
            i += 1;
        }
        assert(pieces.take(v@.len() as int) =~= pieces);
        return out;
    }
    let mut rest = v;
    assert(strs(out@) + kept_values(split_on(rest@, p@)) =~= values_of(value@, sep@));
    loop
        invariant
            p@ == sep@,
            p@.len() > 0,
            strs(out@) + kept_values(split_on(rest@, p@)) == values_of(value@, sep@),
        decreases rest@.len(),
    {
        let n = rest.len();
        match find(&rest, &p, 0) {
            Some(i) => {
                proof {
                    lemma_find_from(rest@, p@, 0);
                }
                let head = slice(&rest, 0, i);
                let tail = slice(&rest, i + p.len(), n);
                assert(head@ =~= rest@.take(i as int));
                assert(tail@ =~= rest@.skip(i + p@.len()));
                proof {
                    lemma_kept_values_add(seq![head@], split_on(tail@, p@));
                    assert(split_on(rest@, p@) == seq![head@] + split_on(tail@, p@));
                    assert(kept_values(seq![head@]) =~= if trim(head@).len() > 0 {
                        seq![trim(head@)]
                    } else {
                        Seq::<Seq<char>>::empty()
                    }) by {
                        reveal_with_fuel(kept_values, 2);
                        assert(seq![head@].drop_last() =~= Seq::<Seq<char>>::empty());
                    }
                }
                let t = trimmed(&head);
                let ghost before = out@;
                if t.len() > 0 {
                    out.push(string_of(&t));
                    assert(strs(out@) =~= strs(before).push(t@));
                }
                rest = tail;
            },
            None => {
                proof {
                    assert(split_on(rest@, p@) == seq![rest@]);
                    assert(seq![rest@].drop_last() =~= Seq::<Seq<char>>::empty());
                    reveal_with_fuel(kept_values, 2);
                }
                let t = trimmed(&rest);
                let ghost before = out@;
                if t.len() > 0 {
                    out.push(string_of(&t));
                    assert(strs(out@) =~= strs(before).push(t@));
                } else {
                    assert(strs(out@) =~= strs(before) + Seq::<Seq<char>>::empty());
                }
                return out;
            },
        }
    }
}

/// The arguments a task's answers give, in the order of its questions: each answered
/// question's values.
pub open spec fn task_values(prompts: Seq<Prompt>, answers: Map<Seq<char>, Seq<char>>) -> Seq<Seq<char>>
    decreases prompts.len(),
{
    if prompts.len() == 0 {
        Seq::empty()
    } else {
        let p = prompts.last();
        task_values(prompts.drop_last(), answers) + if answers.contains_key(p.name@) {
            values_of(answers[p.name@], p.separator@)
        } else {
            Seq::<Seq<char>>::empty()
        }
    }
}

/// Answers as `--set` arguments, `name=value`, in name order.
pub fn set_args(answers: &Dict<String>) -> (r: Vec<String>)
    ensures
        strs(r@) == assignments(answers.entries()),
{
    let mut out: Vec<String> = Vec::new();
    let n = answers.len();
    let mut j: usize = 0;
    assert(answers.entries().take(0) =~= Seq::<(Seq<char>, String)>::empty());
    while j < n
        invariant
            n == answers.size(),
            j <= n,
            strs(out@) == assignments(answers.entries().take(j as int)),
        decreases n - j,
    {
        let k = answers.key(j);
        let v = answers.value(j);
        let a = concat(concat(k.as_str(), "=").as_str(), v.as_str());
        let ghost before = out@;
        out.push(a);
        proof {
            assert(strs(out@) =~= strs(before).push(a@));
            assert(assignments(answers.entries().take(j + 1)) =~= assignments(answers.entries().take(j as int)).push(answers.entries()[j as int].0 + "="@ + answers.entries()[j as int].1@));
        }
        j += 1;
    }
    assert(answers.entries().take(n as int) =~= answers.entries());
    out
}

impl App {
    /// The arguments task `task` gets from the answers to its questions.
    pub fn task_args(&self, task: &str, answers: &Dict<String>) -> (r: Vec<String>)
        ensures
            self.project.config.tasks@.contains_key(task@) ==> strs(r@) == task_values(listed(self.project.config.prompts@, strs(self.project.config.tasks@[task@].prompt@)), answers.texts()),
            !self.project.config.tasks@.contains_key(task@) ==> r@.len() == 0,
    {
        let ps = self.task_prompts(task);
        let ghost want = if self.project.config.tasks@.contains_key(task@) {
            listed(self.project.config.prompts@, strs(self.project.config.tasks@[task@].prompt@))
        } else {
            Seq::<Prompt>::empty()
        };
        let mut out: Vec<String> = Vec::new();
        let mut i: usize = 0;
        while i < ps.len()
            invariant
                i <= ps@.len(),
                same_prompts(ps@, want),
                strs(out@) == task_values(want.take(i as int), answers.texts()),
            decreases ps@.len() - i,
        {
            let p = &ps[i];
            assert(want.take(i + 1).drop_last() =~= want.take(i as int));
            assert(want.take(i + 1).last() == want[i as int]);
            assert(p.same_as(&want[i as int]));
            let ghost before = out@;
            match answers.get(p.name.as_str()) {
                Some(value) => {
                    let mut vals = split_values(value.as_str(), p.separator.as_str());
                    out.append(&mut vals);
                    assert(strs(out@) =~= strs(before) + values_of(answers.texts()[p.name@], p.separator@));
                },
                None => {
                    assert(strs(out@) =~= strs(before) + Seq::<Seq<char>>::empty());
                },
            }
            i += 1;
        }
        assert(want.take(ps@.len() as int) =~= want);
        out
    }

    /// The actions a worktree offers, by key: start (and start with options) when the
    /// project has an `up` hook, stop when it has a `down` hook, shell and editor always,
    /// browser when it declares an address, tasks when it has some, removal always.
    pub fn actions(&self) -> (r: Vec<String>)
        ensures
            strs(r@) == (if self.project.config.hooks.up.0@.len() > 0 { seq!["up"@, "up-opts"@] } else { Seq::empty() })
                + (if self.project.config.hooks.down.0@.len() > 0 { seq!["down"@] } else { Seq::empty() })
                + seq!["shell"@, "ide"@]
                + (if self.project.config.open.url is Some { seq!["open"@] } else { Seq::empty() })
                + (if self.project.config.tasks.size() > 0 { seq!["task"@] } else { Seq::empty() })
                + seq!["rm"@],
    {
        let mut out: Vec<String> = Vec::new();
        if self.has_up() {
            out.push(owned("up"));
            out.push(owned("up-opts"));
        }
        let ghost a = strs(out@);
        if self.has_down() {
            out.push(owned("down"));
        }
        let ghost b = strs(out@);
        out.push(owned("shell"));
        out.push(owned("ide"));
        let ghost c = strs(out@);
        if self.has_open() {
            out.push(owned("open"));
        }
        let ghost d = strs(out@);
        if self.has_tasks() {
            out.push(owned("task"));
        }
        let ghost e = strs(out@);
        out.push(owned("rm"));
        assert(a =~= if self.project.config.hooks.up.0@.len() > 0 { seq!["up"@, "up-opts"@] } else { Seq::empty() });
        assert(b =~= a + if self.project.config.hooks.down.0@.len() > 0 { seq!["down"@] } else { Seq::empty() });
        assert(c =~= b + seq!["shell"@, "ide"@]);
        assert(d =~= c + if self.project.config.open.url is Some { seq!["open"@] } else { Seq::empty() });
        assert(e =~= d + if self.project.config.tasks.size() > 0 { seq!["task"@] } else { Seq::empty() });
        assert(strs(out@) =~= e + seq!["rm"@]);
        out
    }
}

/// The words a preview shows before its values, in the interface's language.
#[derive(Debug)]
pub struct PreviewLabels {
    pub path: String,
    pub branch: String,
    pub commit: String,
    pub state: String,
    pub started: String,
    pub stopped: String,
    pub url: String,
    pub git_changes: String,
}

/// A preview line: the name in a 9-character column, then the value.
pub open spec fn field_line(name: Seq<char>, value: Seq<char>) -> Seq<char> {
    crate::menu::padded(name, 9) + ": "@ + value
}

/// One line per port.
pub open spec fn port_lines(e: Seq<(Seq<char>, u16)>) -> Seq<Seq<char>> {
    e.map_values(|p: (Seq<char>, u16)| field_line(p.0, decimal(p.1 as nat)))
}

/// One line per option.
pub open spec fn opt_lines(e: Seq<(Seq<char>, String)>) -> Seq<Seq<char>> {
    e.map_values(|p: (Seq<char>, String)| field_line(p.0, p.1@))
}

/// The probes' answers, one line per `[status.info]` entry that has one.
pub open spec fn info_lines(e: Seq<(Seq<char>, String)>, answers: Seq<Seq<char>>) -> Seq<Seq<char>> {
    Seq::new(if e.len() < answers.len() { e.len() } else { answers.len() }, |i: int| field_line(e[i].0, answers[i]))
}

/// What `git status --short` adds to a preview: nothing when clean, otherwise a blank
/// line, a heading, and its first 20 lines.
pub open spec fn change_lines(heading: Seq<char>, changes: Seq<char>) -> Seq<Seq<char>> {
    if changes.len() == 0 {
        Seq::empty()
    } else {
        seq![Seq::<char>::empty(), "── "@ + heading + " ──"@] + lines(changes).take(if lines(changes).len() < 20 { lines(changes).len() as int } else { 20 })
    }
}

/// The text in a 9-character column, then `: ` and the value.
fn field(name: &str, value: &str) -> (r: String)
    ensures
        r@ == field_line(name@, value@),
{
    let mut t = chars_of(name);
    let ghost start = t@;
    let mut n = t.len();
    while n < 9
        invariant
            t@ == start + crate::picker::spaces(n - start.len()),
            start.len() <= n <= 9 || (n == start.len() && n >= 9),
        decreases 9 - n,
    {
        t.push(' ');
        n += 1;
        assert(t@ =~= start + crate::picker::spaces(n - start.len()));
    }
    assert(t@ =~= crate::menu::padded(start, 9));
    let mut rest = chars_of(": ");
    t.append(&mut rest);
    let mut v = chars_of(value);
    t.append(&mut v);
    string_of(&t)
}

impl App {
    /// The `[status.info]` probes of worktree `wt`, in name order, run in the worktree.
    pub fn info_probes(&self, wt: &Worktree) -> (r: Vec<Probe>)
        ensures
            r@.len() == self.project.config.status.info.size(),
            forall|i: int| 0 <= i < r@.len() ==> is_probe(#[trigger] r@[i], self.project.config.status.info.entries()[i].1@, self.vars_for(wt.slug@, &wt.state), wt.path@),
    {
        let info = &self.project.config.status.info;
        let n = info.len();
        let mut out: Vec<Probe> = Vec::new();
        let mut i: usize = 0;
        while i < n
            invariant
                *info == self.project.config.status.info,
                n == info.size(),
                i <= n,
                out@.len() == i,
                forall|j: int| 0 <= j < i ==> is_probe(#[trigger] out@[j], info.entries()[j].1@, self.vars_for(wt.slug@, &wt.state), wt.path@),
            decreases n - i,
        {
            let cmd = info.value(i);
            let vars = self.vars(wt.slug.as_str(), &wt.state);
            out.push(App::probe(cmd.as_str(), vars, wt.path.clone()));
            i += 1;
        }
        out
    }

    /// The preview of worktree `wt` (interface and `wt show`): its path, branch and last
    /// commit as git gave them, whether it is started (`up`, when the project can tell),
    /// its ports and options, its address when complete, the `[status.info]` probes'
    /// `answers`, and its uncommitted `changes`.
    #[verifier::rlimit(50)]
    pub fn preview(&self, wt: &Worktree, branch: &str, commit: &str, up: Option<bool>, answers: &Vec<String>, changes: &str, labels: &PreviewLabels) -> (r: Vec<String>)
        ensures
            strs(r@) == seq![
                field_line(labels.path@, wt.path@),
                field_line(labels.branch@, branch@),
                field_line(labels.commit@, commit@),
            ] + match up {
                Some(u) => seq![field_line(labels.state@, if u { labels.started@ } else { labels.stopped@ })],
                None => Seq::empty(),
            } + port_lines(wt.state.ports.entries())
              + opt_lines(wt.state.opts.entries())
              + (if self.main_link(wt.slug@, &wt.state).len() > 0 {
                  seq![field_line(labels.url@, self.main_link(wt.slug@, &wt.state)[0].0)]
              } else {
                  Seq::empty()
              })
              + info_lines(self.project.config.status.info.entries(), strs(answers@))
              + change_lines(labels.git_changes@, changes@),
    {
        let mut out: Vec<String> = Vec::new();
        out.push(field(labels.path.as_str(), wt.path.as_str()));
        out.push(field(labels.branch.as_str(), branch));
        out.push(field(labels.commit.as_str(), commit));
        let ghost a = strs(out@);
        match up {
            Some(u) => {
                let word = if u { labels.started.as_str() } else { labels.stopped.as_str() };
                out.push(field(labels.state.as_str(), word));
            },
            None => {},
        }
        let ghost b = strs(out@);
        assert(b =~= a + match up {
            Some(u) => seq![field_line(labels.state@, if u { labels.started@ } else { labels.stopped@ })],
            None => Seq::<Seq<char>>::empty(),
        });
        let ports = &wt.state.ports;
        let np = ports.len();
        let mut i: usize = 0;
        assert(port_lines(ports.entries().take(0)) =~= Seq::<Seq<char>>::empty());
        while i < np
            invariant
                np == ports.size(),
                i <= np,
                strs(out@) == b + port_lines(ports.entries().take(i as int)),
            decreases np - i,
        {
            let k = ports.key(i);
            let v = ports.value(i);
            let ghost before = out@;
            let line = field(k.as_str(), decimal_string(*v).as_str());
            out.push(line);
            proof {
                lemma_strs_push(before, line);
                assert(ports.entries().take(i + 1) =~= ports.entries().take(i as int).push(ports.entries()[i as int]));
                assert(port_lines(ports.entries().take(i + 1)) =~= port_lines(ports.entries().take(i as int)).push(line@));
                assert(strs(out@) =~= b + port_lines(ports.entries().take(i + 1)));
            }
            i += 1;
        }
        assert(ports.entries().take(np as int) =~= ports.entries());
        assert(b =~= b + port_lines(ports.entries().take(0))) by {
            assert(port_lines(ports.entries().take(0)) =~= Seq::<Seq<char>>::empty());
        }
        let ghost c = strs(out@);
        let opts = &wt.state.opts;
        let no = opts.len();
        let mut j: usize = 0;
        assert(opt_lines(opts.entries().take(0)) =~= Seq::<Seq<char>>::empty());
        while j < no
            invariant
                no == opts.size(),
                j <= no,
                strs(out@) == c + opt_lines(opts.entries().take(j as int)),
            decreases no - j,
        {
            let k = opts.key(j);
            let v = opts.value(j);
            let ghost before = out@;
            let line = field(k.as_str(), v.as_str());
            out.push(line);
            proof {
                lemma_strs_push(before, line);
                assert(opts.entries().take(j + 1) =~= opts.entries().take(j as int).push(opts.entries()[j as int]));
                assert(opt_lines(opts.entries().take(j + 1)) =~= opt_lines(opts.entries().take(j as int)).push(line@));
                assert(strs(out@) =~= c + opt_lines(opts.entries().take(j + 1)));
            }
            j += 1;
        }
        assert(opts.entries().take(no as int) =~= opts.entries());
        let ghost d = strs(out@);
        match self.endpoint_url(wt.slug.as_str(), &wt.state) {
            Some(u) => {
                out.push(field(labels.url.as_str(), u.as_str()));
            },
            None => {},
        }
        let ghost e = strs(out@);
        assert(e =~= d + (if self.main_link(wt.slug@, &wt.state).len() > 0 {
            seq![field_line(labels.url@, self.main_link(wt.slug@, &wt.state)[0].0)]
        } else {
            Seq::<Seq<char>>::empty()
        }));
        let info = &self.project.config.status.info;
        let ni = info.len();
        let mut k: usize = 0;
        assert(info_lines(info.entries().take(0), strs(answers@).take(0)) =~= Seq::<Seq<char>>::empty());
        while k < ni && k < answers.len()
            invariant
                *info == self.project.config.status.info,
                ni == info.size(),
                k <= ni,
                k <= answers@.len(),
                strs(out@) == e + info_lines(info.entries().take(k as int), strs(answers@).take(k as int)),
            decreases ni - k,
        {
            let name = info.key(k);
            let ghost before = out@;
            let line = field(name.as_str(), answers[k].as_str());
            out.push(line);
            proof {
                lemma_strs_push(before, line);
                assert(info_lines(info.entries().take(k + 1), strs(answers@).take(k + 1)) =~= info_lines(info.entries().take(k as int), strs(answers@).take(k as int)).push(line@));
                assert(strs(out@) =~= e + info_lines(info.entries().take(k + 1), strs(answers@).take(k + 1)));
            }
            k += 1;
        }
        assert(info_lines(info.entries().take(k as int), strs(answers@).take(k as int)) =~= info_lines(info.entries(), strs(answers@)));
        let ghost f = strs(out@);
        if !changes.is_empty() {
            out.push(String::new());
            out.push(concat(concat("── ", labels.git_changes.as_str()).as_str(), " ──"));
            let ls = split_lines(&chars_of(changes));
            let mut t: usize = 0;
            let ghost g = strs(out@);
            assert(deep(ls@).take(0) =~= Seq::<Seq<char>>::empty());
            while t < ls.len() && t < 20
                invariant
                    t <= ls@.len(),
                    t <= 20,
                    deep(ls@) == lines(changes@),
                    strs(out@) == g + deep(ls@).take(t as int),
                decreases ls@.len() - t,
            {
                let ghost before = out@;
                let line = string_of(&ls[t]);
                out.push(line);
                proof {
                    lemma_strs_push(before, line);
                    assert(deep(ls@).take(t + 1) =~= deep(ls@).take(t as int).push(line@));
                }
                t += 1;
            }
            assert(changes@.len() > 0);
            assert(strs(out@) =~= f + change_lines(labels.git_changes@, changes@));
        } else {
            assert(changes@.len() == 0);
            assert(strs(out@) =~= f + change_lines(labels.git_changes@, changes@));
        }
        out
    }
}

/// Ports are stable: what one start kept and the next kept again is what the first
/// one gave — a port once given stays through any number of starts.
pub proof fn law_ports_stay_across_starts(first: Map<Seq<char>, u16>, second: Map<Seq<char>, u16>, third: Map<Seq<char>, u16>)
    requires
        keeps(first, second),
        keeps(second, third),
    ensures
        keeps(first, third),
{
    assert forall|k: Seq<char>| #[trigger] first.contains_key(k) implies third.contains_key(k) && third[k] == first[k] by {
        assert(second.contains_key(k));
    }
}

/// A port handed out to worktree `slug` (with `reserved` computed from the worktrees on
/// disk) is held by no other worktree of the project, stopped ones included.
pub proof fn law_a_new_port_is_no_other_worktrees<F: Fn(u16) -> bool>(
    specs: Map<Seq<char>, PortSpec>,
    before: Map<Seq<char>, u16>,
    after: Map<Seq<char>, u16>,
    list: Seq<Worktree>,
    slug: Seq<char>,
    free: F,
    k: Seq<char>,
    i: int,
    j: Seq<char>,
)
    requires
        fresh_ports(specs, before, after, crate::state::reserved_in(list, slug), free),
        after.contains_key(k),
        !before.contains_key(k),
        0 <= i < list.len(),
        list[i].slug@ != slug,
        list[i].state.ports@.contains_key(j),
    ensures
        after[k] != list[i].state.ports@[j],
{
    crate::state::law_other_worktrees_ports_are_reserved(list, slug, i, j);
}

/// A bare `wt up` repeats the last start: no `--set` leaves the options as they were.
pub proof fn law_a_bare_start_keeps_the_options(opts: Map<Seq<char>, Seq<char>>)
    ensures
        sets_of(Seq::<Seq<char>>::empty()) == Some(Map::<Seq<char>, Seq<char>>::empty()),
        opts.union_prefer_right(sets_of(Seq::<Seq<char>>::empty()).unwrap()) == opts,
{
    assert(opts.union_prefer_right(Map::<Seq<char>, Seq<char>>::empty()) =~= opts);
}

/// `--set k=v` only resets that key: every other option stays as it was.
pub proof fn law_a_set_only_resets_its_key(opts: Map<Seq<char>, Seq<char>>, k: Seq<char>, v: Seq<char>)
    requires
        forall|i: int| 0 <= i < k.len() ==> k[i] != '=',
    ensures
        opts.union_prefer_right(sets_of(seq![k + "="@ + v]).unwrap()) == opts.insert(trim(k), v),
{
    reveal_strlit("=");
    let s = k + "="@ + v;
    lemma_next_char(s, '=', 0);
    assert(s[k.len() as int] == '=');
    assert(next_char(s, '=', 0) == k.len()) by {
        if next_char(s, '=', 0) < k.len() {
            assert(s[next_char(s, '=', 0)] == k[next_char(s, '=', 0)]);
        }
    }
    assert(s.subrange(0, k.len() as int) =~= k);
    assert(s.subrange(k.len() as int + 1, s.len() as int) =~= v);
    assert(seq![s].drop_last() =~= Seq::<Seq<char>>::empty());
    assert(seq![s].last() == s);
    assert(set_split(s) == Some((trim(k), v)));
    reveal_with_fuel(sets_of, 2);
    assert(sets_of(seq![s]) == Some(Map::<Seq<char>, Seq<char>>::empty().insert(trim(k), v)));
    assert(opts.union_prefer_right(Map::<Seq<char>, Seq<char>>::empty().insert(trim(k), v)) =~= opts.insert(trim(k), v));
}

/// A pattern's characters.
pub open spec fn opt_str(o: Option<&str>) -> Option<Seq<char>> {
    match o {
        Some(s) => Some(s@),
        None => None,
    }
}

/// The user's shell by name, from `$SHELL`, to point at the right `wt shell-init` line.
pub fn current_shell_name(shell: Option<&str>) -> (r: String)
    ensures
        r@ == shell_name_of(opt_str(shell)),
{
    match shell {
        Some(s) => match file_name(s) {
            Some(n) => {
                let x = n.as_str();
                if same_str(x, "bash") || same_str(x, "zsh") || same_str(x, "fish") {
                    n
                } else {
                    owned("bash")
                }
            },
            None => owned("bash"),
        },
        None => owned("bash"),
    }
}

/// Is the editor a Windows executable (its name ends in `.exe`, in any case)? Started
/// from WSL, such an editor needs a Windows path.
pub fn is_windows_exe(editor: &str) -> (r: bool)
    ensures
        r == ends_with(lower_str(editor@), ".exe"@),
        is_ascii_text(editor@) ==> r == ends_with(ascii_lowered(editor@), ".exe"@),
{
    let lower = to_lowercase(editor);
    has_suffix(&chars_of(lower.as_str()), &chars_of(".exe"))
}

/// The path an editor is given: the Windows form `wslpath -w` produced, when it produced
/// one, the worktree's path otherwise.
pub fn ide_path(dir: &str, converted: Option<&str>) -> (r: String)
    ensures
        r@ == match converted {
            Some(c) => if c@.len() > 0 {
                c@
            } else {
                dir@
            },
            None => dir@,
        },
{
    match converted {
        Some(c) => if chars_of(c).len() > 0 {
            owned(c)
        } else {
            owned(dir)
        },
        None => owned(dir),
    }
}

/// The options typed for a start (`key=value …`), one per whitespace-separated word.
pub fn option_words(line: &str) -> (r: Vec<String>)
    ensures
        strs(r@) == words(line@),
{
    let ws = crate::text::split_words(&chars_of(line));
    let mut out: Vec<String> = Vec::new();
    let mut i: usize = 0;
    while i < ws.len()
        invariant
            i <= ws@.len(),
            deep(ws@) == words(line@),
            strs(out@) == deep(ws@).take(i as int),
        decreases ws@.len() - i,
    {
        let w = string_of(&ws[i]);
        let ghost before = out@;
        out.push(w);
        proof {
            lemma_strs_push(before, w);
        }
        assert(deep(ws@).take(i + 1) =~= deep(ws@).take(i as int).push(ws@[i as int]@));
        i += 1;
    }
    assert(deep(ws@).take(ws@.len() as int) =~= deep(ws@));
    out
}

/// Is the answer to a yes/no question a yes (`y` or `o`, in either case)?
pub fn is_yes(answer: &str) -> (r: bool)
    ensures
        r == (trim(answer@) == "y"@ || trim(answer@) == "Y"@ || trim(answer@) == "o"@ || trim(answer@) == "O"@),
{
    let t = trim_str(answer);
    let x = t.as_str();
    same_str(x, "y") || same_str(x, "Y") || same_str(x, "o") || same_str(x, "O")
}

/// The line picked among `count` by the answer typed (see `picked`).
pub fn which_answer(answer: &str, count: usize) -> (r: Option<usize>)
    ensures
        r matches Some(i) ==> picked(answer@, count as int) == Some(i as int),
        r is None ==> picked(answer@, count as int) is None,
{
    let t = trimmed(&chars_of(answer));
    if t.len() == 0 {
        return Some(0);
    }
    let start: usize = if t[0] == '+' { 1 } else { 0 };
    let ghost u = unsigned(t@);
    assert(u =~= t@.subrange(start as int, t@.len() as int));
    if start >= t.len() {
        return None;
    }
    let mut v: usize = 0;
    let mut i: usize = start;
    while i < t.len()
        invariant
            start <= i <= t@.len(),
            u == t@.subrange(start as int, t@.len() as int),
            u == unsigned(t@),
            t@ == trim(answer@),
            t@.len() > 0,
            v == digits_value(u.take(i - start)),
            v <= count,
            forall|j: int| 0 <= j < i - start ==> ascii_digit(#[trigger] u[j]),
        decreases t@.len() - i,
    {
        let c = t[i];
        assert(u[i - start] == c);
        if !('0' <= c && c <= '9') {
            assert(!ascii_digit(u[i - start]));
            proof {
                lemma_not_a_number(t@, (i - start) as int);
            }
            return None;
        }
        let ghost k = i - start + 1;
        assert(u.take(k).drop_last() =~= u.take(i - start));
        assert(u.take(k).last() == c);
        let d = (c as u32 - '0' as u32) as usize;
        assert(digits_value(u.take(k)) == 10 * v + d);
        let next = match v.checked_mul(10) {
            Some(x) => x.checked_add(d),
            None => None,
        };
        match next {
            Some(x) => {
                if x > count {
                    proof {
                        lemma_digits_grow(u, k);
                        if all_digits(u) {
                            assert(number(t@) == Some(digits_value(u)));
                        }
                    }
                    return None;
                }
                v = x;
            },
            None => {
                proof {
                    lemma_digits_grow(u, k);
                    if all_digits(u) {
                        assert(number(t@) == Some(digits_value(u)));
                    }
                }
                return None;
            },
        }
        i += 1;
    }
    assert(u.take(i - start) =~= u);
    if v == 0 {
        return None;
    }
    Some(v - 1)
}


/// Every port in `reserved`, then every port `ports` holds.
fn taken_ports(reserved: &Vec<u16>, ports: &Dict<u16>) -> (r: Vec<u16>)
    ensures
        forall|p: u16| reserved@.contains(p) ==> r@.contains(p),
        forall|k: Seq<char>| #[trigger] ports@.contains_key(k) ==> r@.contains(ports@[k]),
        forall|p: u16| #[trigger] r@.contains(p) ==> reserved@.contains(p) || exists|k: Seq<char>| #[trigger] ports@.contains_key(k) && ports@[k] == p,
{
    let mut r: Vec<u16> = Vec::new();
    let mut i: usize = 0;
    while i < reserved.len()
        invariant
            i <= reserved@.len(),
            r@ == reserved@.take(i as int),
        decreases reserved@.len() - i,
    {
        r.push(reserved[i]);
        i += 1;
        assert(r@ =~= reserved@.take(i as int));
    }
    assert(reserved@.take(reserved@.len() as int) =~= reserved@);
    let m = reserved.len();
    let n = ports.len();
    let mut j: usize = 0;
    while j < n
        invariant
            n == ports.size(),
            j <= n,
            r@.len() == m + j,
            r@.take(m as int) == reserved@,
            forall|t: int| 0 <= t < j ==> r@[m + t] == #[trigger] ports.value_at(t),
            forall|t: int| 0 <= t < j ==> ports@[#[trigger] ports.key_at(t)] == ports.value_at(t),
            forall|t: int| 0 <= t < j ==> ports@.contains_key(#[trigger] ports.key_at(t)),
        decreases n - j,
    {
        let v = ports.value(j);
        let ghost before = r@;
        r.push(*v);
        assert(r@.take(m as int) =~= reserved@);
        assert forall|t: int| 0 <= t < j + 1 implies r@[m + t] == #[trigger] ports.value_at(t) by {
            if t < j {
                assert(r@[m + t] == before[m + t]);
            }
        }
        j += 1;
    }
    assert forall|p: u16| reserved@.contains(p) implies r@.contains(p) by {
        let x = choose|x: int| 0 <= x < reserved@.len() && reserved@[x] == p;
        assert(r@.take(m as int)[x] == p);
        assert(r@[x] == p);
    }
    assert forall|k: Seq<char>| #[trigger] ports@.contains_key(k) implies r@.contains(ports@[k]) by {
        let t = choose|t: int| 0 <= t < ports.entries().len() && ports.entries()[t].0 == k;
        assert(ports.key_at(t) == k);
        assert(r@[m + t] == ports@[k]);
    }
    assert forall|p: u16| #[trigger] r@.contains(p) implies reserved@.contains(p) || exists|k: Seq<char>| #[trigger] ports@.contains_key(k) && ports@[k] == p by {
        let x = choose|x: int| 0 <= x < r@.len() && r@[x] == p;
        if x < m {
            assert(r@.take(m as int)[x] == p);
            assert(reserved@[x] == p);
        } else {
            let t = x - m;
            assert(r@[m + t] == ports.value_at(t));
            assert(ports@.contains_key(ports.key_at(t)) && ports@[ports.key_at(t)] == p);
        }
    }
    r
}

/// Is `p` in `ports`?
fn holds(ports: &[u16], p: u16) -> (r: bool)
    ensures
        r == ports@.contains(p),
{
    let mut i: usize = 0;
    while i < ports.len()
        invariant
            i <= ports@.len(),
            forall|j: int| 0 <= j < i ==> ports@[j] != p,
        decreases ports@.len() - i,
    {
        if ports[i] == p {
            return true;
        }
        i += 1;
    }
    false
}

/// The first port from `base` up that is not in `reserved` and that `free` finds free
/// (the application asks the system whether the port can be bound). Fails when every
/// port up to the last one was taken.
pub fn alloc_port<F: Fn(u16) -> bool>(base: u16, reserved: &[u16], free: &F) -> (r: Result<u16, Error>)
    requires
        forall|p: u16| free.requires((p,)),
    ensures
        r matches Ok(p) ==> {
            &&& base <= p
            &&& !reserved@.contains(p)
            &&& free.ensures((p,), true)
            &&& forall|q: u16| base <= q < p ==> reserved@.contains(q) || free.ensures((q,), false)
        },
        r matches Err(e) ==> {
            &&& e matches Error::NoFreePort(b) && b == base
            &&& forall|q: u16| base <= q ==> reserved@.contains(q) || free.ensures((q,), false)
        },
{
    let mut p: u16 = base;
    loop
        invariant
            base <= p,
            forall|q: u16| free.requires((q,)),
            forall|q: u16| base <= q < p ==> reserved@.contains(q) || free.ensures((q,), false),
        decreases u16::MAX - p,
    {
        if !holds(reserved, p) {
            let ok = free(p);
            if ok {
                return Ok(p);
            }
        }
        if p == u16::MAX {
            return Err(Error::NoFreePort(base));
        }
        p += 1;
    }
}

/// The arguments joined by single spaces.
fn join_words(args: &[String]) -> (r: String)
    ensures
        r@ == spaced(strs(args@)),
{
    let mut out: Vec<char> = Vec::new();
    let mut i: usize = 0;
    while i < args.len()
        invariant
            i <= args@.len(),
            out@ == spaced(strs(args@).take(i as int)),
        decreases args@.len() - i,
    {
        let w = chars_of(args[i].as_str());
        assert(strs(args@).take(i + 1).drop_last() =~= strs(args@).take(i as int));
        if i > 0 {
            out.push(' ');
        }
        let mut j: usize = 0;
        let ghost start = out@;
        while j < w.len()
            invariant
                j <= w@.len(),
                out@ == start + w@.take(j as int),
            decreases w@.len() - j,
        {
            out.push(w[j]);
            j += 1;
            assert(out@ =~= start + w@.take(j as int));
        }
        assert(w@.take(w@.len() as int) =~= w@);
        i += 1;
        proof {
            let ws = strs(args@).take(i as int);
            assert(ws.last() == w@);
            if i == 1 {
                assert(out@ =~= ws[0]);
            } else {
                assert(out@ =~= spaced(ws.drop_last()) + seq![' '] + ws.last());
            }
        }
    }
    assert(strs(args@).take(args@.len() as int) =~= strs(args@));
    string_of(&out)
}

/// The choice one line describes.
fn parse_choice(line: &[char]) -> (r: (Vec<char>, Vec<char>, Vec<char>))
    ensures
        r.0@ == choice_of(line@).0,
        r.1@ == choice_of(line@).1,
        r.2@ == choice_of(line@).2,
{
    let (v, l, d) = fields3(line, '\t');
    (trimmed(&v), trimmed(&l), trimmed(&d))
}

/// The choices a `source` command printed.
fn choices_from(output: &str) -> (r: Vec<PromptOption>)
    ensures
        r@.map_values(|o: PromptOption| option_view(o)) == choices_in(lines(output@)),
{
    let cs = chars_of(output);
    let ls = split_lines(&cs);
    let mut out: Vec<PromptOption> = Vec::new();
    let mut i: usize = 0;
    while i < ls.len()
        invariant
            i <= ls@.len(),
            deep(ls@) == lines(output@),
            out@.map_values(|o: PromptOption| option_view(o)) == choices_in(deep(ls@).take(i as int)),
        decreases ls@.len() - i,
    {
        let line = &ls[i];
        proof {
            assert(deep(ls@).take(i + 1).drop_last() =~= deep(ls@).take(i as int));
            assert(deep(ls@).take(i + 1).last() == line@);
        }
        let ghost before = out@;
        if !is_blank(line) {
            let (v, l, d) = parse_choice(line);
            if v.len() > 0 {
                out.push(PromptOption { value: string_of(&v), label: string_of(&l), detail: string_of(&d) });
                assert(out@.map_values(|o: PromptOption| option_view(o)) =~= before.map_values(|o: PromptOption| option_view(o)).push(choice_of(line@)));
            }
        }
        i += 1;
    }
    assert(deep(ls@).take(ls@.len() as int) =~= deep(ls@));
    out
}

/// The link one line describes.
fn parse_link(line: &[char]) -> (r: (Vec<char>, Vec<char>))
    ensures
        r.0@ == link_of(line@).0,
        r.1@ == link_of(line@).1,
{
    let n = line.len();
    let a = index_of(line, '\t', 0);
    proof {
        lemma_next_char(line@, '\t', 0);
    }
    let (url, label) = if a >= n {
        let none: Vec<char> = Vec::new();
        (trimmed(line), trimmed(&none))
    } else {
        let u = slice(line, 0, a);
        let l = slice(line, a + 1, n);
        (trimmed(&u), trimmed(&l))
    };
    if label.len() == 0 {
        let copy = slice(&url, 0, url.len());
        assert(copy@ =~= url@);
        (url, copy)
    } else {
        (url, label)
    }
}

/// The links an `[open] source` command printed.
fn links_from(output: &str) -> (r: Vec<Link>)
    ensures
        r@.map_values(|l: Link| link_view(l)) == links_in(lines(output@)),
{
    let cs = chars_of(output);
    let ls = split_lines(&cs);
    let mut out: Vec<Link> = Vec::new();
    let mut i: usize = 0;
    while i < ls.len()
        invariant
            i <= ls@.len(),
            deep(ls@) == lines(output@),
            out@.map_values(|l: Link| link_view(l)) == links_in(deep(ls@).take(i as int)),
        decreases ls@.len() - i,
    {
        let line = &ls[i];
        proof {
            assert(deep(ls@).take(i + 1).drop_last() =~= deep(ls@).take(i as int));
            assert(deep(ls@).take(i + 1).last() == line@);
        }
        let ghost before = out@;
        if !is_blank(line) {
            let (u, l) = parse_link(line);
            if u.len() > 0 {
                out.push(Link { url: string_of(&u), label: string_of(&l) });
                assert(out@.map_values(|l: Link| link_view(l)) =~= before.map_values(|l: Link| link_view(l)).push(link_of(line@)));
            }
        }
        i += 1;
    }
    assert(deep(ls@).take(ls@.len() as int) =~= deep(ls@));
    out
}

} // verus!
