//! Which worktrees a typed name designates, best first.
//!
//! `wt cd auth` reaches `fix-auth`: a slug is what one types to get somewhere, not an
//! identifier to be transcribed in full. An exact name always wins over a fuzzy match,
//! and fuzzy matches come best first, ties keeping the order they were listed in.

use vstd::prelude::*;

use crate::fuzzy::{terms_match, MAX_SCORED};
use crate::text::{chars_of, same, strs, words};

verus! {

/// The slugs with their score against `pattern`, in list order, those that do not match
/// left out.
pub open spec fn scored(slugs: Seq<Seq<char>>, pattern: Seq<char>) -> Seq<(int, Seq<char>)>
    decreases slugs.len(),
{
    if slugs.len() == 0 {
        Seq::empty()
    } else {
        scored(slugs.drop_last(), pattern) + match terms_match(words(pattern), slugs.last()) {
            Some((s, _)) => seq![(s, slugs.last())],
            None => Seq::empty(),
        }
    }
}

/// Where an entry scoring `score` goes in a list sorted best first: after every entry
/// scoring at least as much, from position `i` on.
pub open spec fn slot(s: Seq<(int, Seq<char>)>, score: int, i: int) -> int
    decreases s.len() - i,
{
    if i < 0 || i >= s.len() {
        s.len() as int
    } else if s[i].0 < score {
        i
    } else {
        slot(s, score, i + 1)
    }
}

/// The entries sorted by score, best first; equal scores keep their order.
pub open spec fn ranked(s: Seq<(int, Seq<char>)>) -> Seq<(int, Seq<char>)>
    decreases s.len(),
{
    if s.len() == 0 {
        Seq::empty()
    } else {
        let r = ranked(s.drop_last());
        r.insert(slot(r, s.last().0, 0), s.last())
    }
}

/// The slugs equal to `name`, in list order.
pub open spec fn equal_to(slugs: Seq<Seq<char>>, name: Seq<char>) -> Seq<Seq<char>>
    decreases slugs.len(),
{
    if slugs.len() == 0 {
        Seq::empty()
    } else {
        equal_to(slugs.drop_last(), name) + if slugs.last() == name {
            seq![name]
        } else {
            Seq::empty()
        }
    }
}

/// The worktrees a pattern leaves, best first: all of them without a pattern, only the
/// one so named when there is one, otherwise those the pattern fuzzily matches.
pub open spec fn candidates(slugs: Seq<Seq<char>>, pattern: Option<Seq<char>>) -> Seq<Seq<char>> {
    match pattern {
        None => slugs,
        Some(p) => if slugs.contains(p) {
            equal_to(slugs, p)
        } else {
            ranked(scored(slugs, p)).map_values(|x: (int, Seq<char>)| x.1)
        },
    }
}

/// The slugs `pattern` fuzzily matches, in list order.
pub open spec fn matching(slugs: Seq<Seq<char>>, pattern: Seq<char>) -> Seq<Seq<char>>
    decreases slugs.len(),
{
    if slugs.len() == 0 {
        Seq::empty()
    } else {
        matching(slugs.drop_last(), pattern) + if terms_match(words(pattern), slugs.last()) is Some {
            seq![slugs.last()]
        } else {
            Seq::empty()
        }
    }
}

/// Every slug can be scored against the pattern without overflow.
pub open spec fn scorable(slugs: Seq<Seq<char>>, pattern: Seq<char>) -> bool {
    forall|i: int| 0 <= i < slugs.len() ==> words(pattern).len() * (#[trigger] slugs[i]).len() <= MAX_SCORED
}

/// Scores sorted best first.
pub open spec fn best_first(s: Seq<(int, Seq<char>)>) -> bool {
    forall|i: int, j: int| 0 <= i < j < s.len() ==> s[i].0 >= s[j].0
}

proof fn lemma_slot(s: Seq<(int, Seq<char>)>, score: int, i: int)
    requires
        0 <= i <= s.len(),
    ensures
        i <= slot(s, score, i) <= s.len(),
        forall|j: int| i <= j < slot(s, score, i) ==> s[j].0 >= score,
        slot(s, score, i) < s.len() ==> s[slot(s, score, i)].0 < score,
    decreases s.len() - i,
{
    if i < s.len() && s[i].0 >= score {
        lemma_slot(s, score, i + 1);
    }
}

/// Inserting at the slot keeps a list sorted best first.
proof fn lemma_insert_best_first(s: Seq<(int, Seq<char>)>, x: (int, Seq<char>))
    requires
        best_first(s),
    ensures
        best_first(s.insert(slot(s, x.0, 0), x)),
{
    lemma_slot(s, x.0, 0);
    let k = slot(s, x.0, 0);
    let t = s.insert(k, x);
    assert forall|i: int, j: int| 0 <= i < j < t.len() implies t[i].0 >= t[j].0 by {
        if j < k {
        } else if j == k {
            assert(t[i] == s[i]);
        } else if i == k {
            assert(t[j] == s[j - 1]);
        } else if i < k {
            assert(t[i] == s[i]);
            assert(t[j] == s[j - 1]);
        } else {
            assert(t[i] == s[i - 1]);
            assert(t[j] == s[j - 1]);
        }
    }
}

/// Ranking sorts best first, and keeps exactly the entries it was given.
pub proof fn law_ranking_is_best_first(s: Seq<(int, Seq<char>)>)
    ensures
        best_first(ranked(s)),
        ranked(s).len() == s.len(),
        forall|x: (int, Seq<char>)| ranked(s).contains(x) <==> s.contains(x),
    decreases s.len(),
{
    if s.len() > 0 {
        let r = ranked(s.drop_last());
        law_ranking_is_best_first(s.drop_last());
        lemma_insert_best_first(r, s.last());
        lemma_slot(r, s.last().0, 0);
        let k = slot(r, s.last().0, 0);
        let t = r.insert(k, s.last());
        assert forall|x: (int, Seq<char>)| t.contains(x) <==> s.contains(x) by {
            if t.contains(x) {
                let i = choose|i: int| 0 <= i < t.len() && t[i] == x;
                if i < k {
                    assert(r[i] == x);
                    assert(r.contains(x));
                    assert(s.drop_last().contains(x));
                    let j = choose|j: int| 0 <= j < s.drop_last().len() && s.drop_last()[j] == x;
                    assert(s[j] == x);
                } else if i == k {
                    assert(s[s.len() - 1] == x);
                } else {
                    assert(r[i - 1] == x);
                    assert(r.contains(x));
                    assert(s.drop_last().contains(x));
                    let j = choose|j: int| 0 <= j < s.drop_last().len() && s.drop_last()[j] == x;
                    assert(s[j] == x);
                }
            }
            if s.contains(x) {
                let j = choose|j: int| 0 <= j < s.len() && s[j] == x;
                if j == s.len() - 1 {
                    assert(t[k] == x);
                } else {
                    assert(s.drop_last()[j] == x);
                    assert(s.drop_last().contains(x));
                    assert(r.contains(x));
                    let i = choose|i: int| 0 <= i < r.len() && r[i] == x;
                    if i < k {
                        assert(t[i] == x);
                    } else {
                        assert(t[i + 1] == x);
                    }
                }
            }
        }
    }
}

proof fn lemma_scored_names(slugs: Seq<Seq<char>>, pattern: Seq<char>)
    ensures
        scored(slugs, pattern).map_values(|x: (int, Seq<char>)| x.1) == matching(slugs, pattern),
    decreases slugs.len(),
{
    if slugs.len() > 0 {
        lemma_scored_names(slugs.drop_last(), pattern);
        let a = scored(slugs.drop_last(), pattern);
        let b: Seq<(int, Seq<char>)> = match terms_match(words(pattern), slugs.last()) {
            Some((s, _)) => seq![(s, slugs.last())],
            None => Seq::empty(),
        };
        assert((a + b).map_values(|x: (int, Seq<char>)| x.1) =~= a.map_values(|x: (int, Seq<char>)| x.1) + b.map_values(|x: (int, Seq<char>)| x.1));
        assert(b.map_values(|x: (int, Seq<char>)| x.1) =~= if terms_match(words(pattern), slugs.last()) is Some {
            seq![slugs.last()]
        } else {
            Seq::<Seq<char>>::empty()
        });
    }
}

proof fn lemma_matching_members(slugs: Seq<Seq<char>>, pattern: Seq<char>)
    ensures
        forall|x: Seq<char>| #[trigger] matching(slugs, pattern).contains(x) <==> slugs.contains(x) && terms_match(words(pattern), x) is Some,
    decreases slugs.len(),
{
    if slugs.len() > 0 {
        let init = slugs.drop_last();
        lemma_matching_members(init, pattern);
        let m0 = matching(init, pattern);
        let tail: Seq<Seq<char>> = if terms_match(words(pattern), slugs.last()) is Some {
            seq![slugs.last()]
        } else {
            Seq::empty()
        };
        assert forall|x: Seq<char>| #[trigger] matching(slugs, pattern).contains(x) <==> slugs.contains(x) && terms_match(words(pattern), x) is Some by {
            let m = matching(slugs, pattern);
            assert(m == m0 + tail);
            if m.contains(x) {
                let i = choose|i: int| 0 <= i < m.len() && m[i] == x;
                if i < m0.len() {
                    assert(m0[i] == x);
                    assert(m0.contains(x));
                    let j = choose|j: int| 0 <= j < init.len() && init[j] == x;
                    assert(slugs[j] == x);
                } else {
                    assert(tail[i - m0.len()] == x);
                    assert(slugs[slugs.len() - 1] == x);
                }
            }
            if slugs.contains(x) && terms_match(words(pattern), x) is Some {
                let j = choose|j: int| 0 <= j < slugs.len() && slugs[j] == x;
                if j < slugs.len() - 1 {
                    assert(init[j] == x);
                    assert(m0.contains(x));
                    let i = choose|i: int| 0 <= i < m0.len() && m0[i] == x;
                    assert(m[i] == x);
                } else {
                    assert(m[m0.len() as int] == x);
                }
            }
        }
    }
}

proof fn lemma_equal_to(slugs: Seq<Seq<char>>, name: Seq<char>)
    ensures
        forall|i: int| 0 <= i < equal_to(slugs, name).len() ==> #[trigger] equal_to(slugs, name)[i] == name,
        slugs.contains(name) ==> equal_to(slugs, name).len() >= 1,
    decreases slugs.len(),
{
    if slugs.len() > 0 {
        lemma_equal_to(slugs.drop_last(), name);
        let e0 = equal_to(slugs.drop_last(), name);
        let e = equal_to(slugs, name);
        assert forall|i: int| 0 <= i < e.len() implies #[trigger] e[i] == name by {
            if i < e0.len() {
                assert(e[i] == e0[i]);
            }
        }
        if slugs.contains(name) && slugs.last() != name {
            let j = choose|j: int| 0 <= j < slugs.len() && slugs[j] == name;
            assert(slugs.drop_last()[j] == name);
        }
    }
}

/// Which worktrees a typed name designates: every one with nothing typed; with the
/// exact name of one, that one only; otherwise the worktrees the name fuzzily matches
/// (every term of it a subsequence of the slug, ignoring case), each exactly once,
/// none other, best first.
pub proof fn law_a_typed_name_designates(slugs: Seq<Seq<char>>, p: Seq<char>)
    ensures
        candidates(slugs, None) == slugs,
        slugs.contains(p) ==> candidates(slugs, Some(p)).len() >= 1
            && forall|i: int| 0 <= i < candidates(slugs, Some(p)).len() ==> #[trigger] candidates(slugs, Some(p))[i] == p,
        !slugs.contains(p) ==> candidates(slugs, Some(p)).len() == matching(slugs, p).len()
            && candidates(slugs, Some(p)).to_set() == matching(slugs, p).to_set(),
        forall|x: Seq<char>| #[trigger] matching(slugs, p).contains(x) <==> slugs.contains(x) && terms_match(words(p), x) is Some,
        best_first(ranked(scored(slugs, p))),
{
    lemma_equal_to(slugs, p);
    lemma_matching_members(slugs, p);
    lemma_scored_names(slugs, p);
    let sc = scored(slugs, p);
    let r = ranked(sc);
    law_ranking_is_best_first(sc);
    if !slugs.contains(p) {
        let names = r.map_values(|x: (int, Seq<char>)| x.1);
        let m = sc.map_values(|x: (int, Seq<char>)| x.1);
        assert(names.to_set() =~= m.to_set()) by {
            assert forall|x: Seq<char>| names.to_set().contains(x) <==> m.to_set().contains(x) by {
                if names.contains(x) {
                    let i = choose|i: int| 0 <= i < names.len() && names[i] == x;
                    assert(r.contains(r[i]));
                    assert(sc.contains(r[i]));
                    let j = choose|j: int| 0 <= j < sc.len() && sc[j] == r[i];
                    assert(m[j] == x);
                }
                if m.contains(x) {
                    let j = choose|j: int| 0 <= j < m.len() && m[j] == x;
                    assert(sc.contains(sc[j]));
                    assert(r.contains(sc[j]));
                    let i = choose|i: int| 0 <= i < r.len() && r[i] == sc[j];
                    assert(names[i] == x);
                }
            }
        }
    }
}

/// Can every slug be scored against `pattern`? (Only a pattern of millions of words over
/// slugs of millions of characters cannot.)
pub fn can_rank(slugs: &Vec<String>, pattern: &str) -> (r: bool)
    ensures
        r == scorable(strs(slugs@), pattern@),
{
    let n = crate::text::split_words(&chars_of(pattern)).len();
    let mut i: usize = 0;
    while i < slugs.len()
        invariant
            i <= slugs@.len(),
            n == words(pattern@).len(),
            forall|j: int| 0 <= j < i ==> words(pattern@).len() * (#[trigger] strs(slugs@)[j]).len() <= MAX_SCORED,
        decreases slugs@.len() - i,
    {
        let h = chars_of(slugs[i].as_str()).len();
        assert(strs(slugs@)[i as int] == slugs@[i as int]@);
        let fits = match (n as u128).checked_mul(h as u128) {
            Some(p) => p <= MAX_SCORED as u128,
            None => false,
        };
        if !fits {
            return false;
        }
        i += 1;
    }
    true
}

/// The slugs fuzzily matching `pattern`, best first.
pub fn rank(slugs: &Vec<String>, pattern: &str) -> (r: Vec<String>)
    requires
        scorable(strs(slugs@), pattern@),
    ensures
        strs(r@) == ranked(scored(strs(slugs@), pattern@)).map_values(|x: (int, Seq<char>)| x.1),
{
    let ghost all = strs(slugs@);
    let mut sorted: Vec<(i32, usize)> = Vec::new();
    let mut i: usize = 0;
    while i < slugs.len()
        invariant
            i <= slugs@.len(),
            all == strs(slugs@),
            scorable(all, pattern@),
            sorted@.len() == ranked(scored(all.take(i as int), pattern@)).len(),
            forall|j: int| 0 <= j < sorted@.len() ==> {
                let e = ranked(scored(all.take(i as int), pattern@))[j];
                &&& (#[trigger] sorted@[j]).0 == e.0
                &&& sorted@[j].1 < slugs@.len()
                &&& all[sorted@[j].1 as int] == e.1
            },
        decreases slugs@.len() - i,
    {
        assert(all.take(i + 1).drop_last() =~= all.take(i as int));
        assert(all.take(i + 1).last() == all[i as int]);
        assert(words(pattern@).len() * all[i as int].len() <= MAX_SCORED);
        let ghost before = ranked(scored(all.take(i as int), pattern@));
        match crate::fuzzy::matches(pattern, slugs[i].as_str()) {
            Some(m) => {
                let x = (m.score, i);
                let ghost gx = (m.score as int, all[i as int]);
                let mut k: usize = 0;
                while k < sorted.len()
                    invariant_except_break
                        gx.0 == m.score as int,
                        k <= sorted@.len(),
                        sorted@.len() == before.len(),
                        forall|j: int| 0 <= j < sorted@.len() ==> (#[trigger] sorted@[j]).0 == before[j].0,
                        slot(before, gx.0, 0) == slot(before, gx.0, k as int),
                    ensures
                        k <= sorted@.len(),
                        slot(before, gx.0, 0) == k,
                    decreases sorted@.len() - k,
                {
                    if sorted[k].0 < m.score {
                        break;
                    }
                    k += 1;
                }
                let ghost old_sorted = sorted@;
                sorted.insert(k, x);
                proof {
                    let after = ranked(scored(all.take(i + 1), pattern@));
                    assert(scored(all.take(i + 1), pattern@) =~= scored(all.take(i as int), pattern@).push(gx));
                    assert(scored(all.take(i + 1), pattern@).drop_last() =~= scored(all.take(i as int), pattern@));
                    assert(after =~= before.insert(k as int, gx));
                    assert forall|j: int| 0 <= j < sorted@.len() implies {
                        let e = after[j];
                        &&& (#[trigger] sorted@[j]).0 == e.0
                        &&& sorted@[j].1 < slugs@.len()
                        &&& all[sorted@[j].1 as int] == e.1
                    } by {
                        if j < k {
                            assert(sorted@[j] == old_sorted[j]);
                        } else if j > k {
                            assert(sorted@[j] == old_sorted[j - 1]);
                        }
                    }
                }
            },
            None => {
                assert(scored(all.take(i + 1), pattern@) =~= scored(all.take(i as int), pattern@));
            },
        }
        i += 1;
    }
    assert(all.take(slugs@.len() as int) =~= all);
    let ghost fin = ranked(scored(all, pattern@));
    let mut out: Vec<String> = Vec::new();
    let mut j: usize = 0;
    while j < sorted.len()
        invariant
            j <= sorted@.len(),
            sorted@.len() == fin.len(),
            all == strs(slugs@),
            forall|t: int| 0 <= t < sorted@.len() ==> (#[trigger] sorted@[t]).1 < slugs@.len() && all[sorted@[t].1 as int] == fin[t].1,
            strs(out@) == fin.take(j as int).map_values(|x: (int, Seq<char>)| x.1),
        decreases sorted@.len() - j,
    {
        let idx = sorted[j].1;
        let ghost before = out@;
        let name = slugs[idx].clone();
        assert(name@ == fin[j as int].1);
        out.push(name);
        assert(strs(out@) =~= strs(before).push(fin[j as int].1));
        assert(fin.take(j + 1).map_values(|x: (int, Seq<char>)| x.1) =~= fin.take(j as int).map_values(|x: (int, Seq<char>)| x.1).push(fin[j as int].1));
        j += 1;
        assert(strs(out@) =~= fin.take(j as int).map_values(|x: (int, Seq<char>)| x.1));
    }
    assert(fin.take(fin.len() as int) =~= fin);
    out
}

/// The slugs `pattern` fuzzily matches, in list order. Any size of slug or pattern is
/// answered: whether a slug matches needs no score.
pub fn matching_slugs(slugs: &Vec<String>, pattern: &str) -> (r: Vec<String>)
    ensures
        strs(r@) == matching(strs(slugs@), pattern@),
{
    let ghost all = strs(slugs@);
    let mut out: Vec<String> = Vec::new();
    let mut i: usize = 0;
    while i < slugs.len()
        invariant
            i <= slugs@.len(),
            all == strs(slugs@),
            strs(out@) == matching(all.take(i as int), pattern@),
        decreases slugs@.len() - i,
    {
        assert(all.take(i + 1).drop_last() =~= all.take(i as int));
        assert(all.take(i + 1).last() == all[i as int]);
        assert(all[i as int] == slugs@[i as int]@);
        if crate::fuzzy::matches(pattern, slugs[i].as_str()).is_some() {
            out.push(slugs[i].clone());
        }
        i += 1;
        assert(strs(out@) =~= matching(all.take(i as int), pattern@));
    }
    assert(all.take(slugs@.len() as int) =~= all);
    out
}

/// The slugs equal to `name`.
pub fn only(slugs: &Vec<String>, name: &str) -> (r: Vec<String>)
    ensures
        strs(r@) == equal_to(strs(slugs@), name@),
{
    let ghost all = strs(slugs@);
    let n = chars_of(name);
    let mut out: Vec<String> = Vec::new();
    let mut i: usize = 0;
    while i < slugs.len()
        invariant
            i <= slugs@.len(),
            all == strs(slugs@),
            n@ == name@,
            strs(out@) == equal_to(all.take(i as int), name@),
        decreases slugs@.len() - i,
    {
        assert(all.take(i + 1).drop_last() =~= all.take(i as int));
        let ghost before = out@;
        if same(&chars_of(slugs[i].as_str()), &n) {
            out.push(slugs[i].clone());
        }
        i += 1;
        assert(strs(out@) =~= equal_to(all.take(i as int), name@));
    }
    assert(all.take(slugs@.len() as int) =~= all);
    out
}

/// Is `name` one of the slugs?
pub fn is_listed(slugs: &Vec<String>, name: &str) -> (r: bool)
    ensures
        r == strs(slugs@).contains(name@),
{
    let ghost all = strs(slugs@);
    let n = chars_of(name);
    let mut i: usize = 0;
    while i < slugs.len()
        invariant
            i <= slugs@.len(),
            all == strs(slugs@),
            n@ == name@,
            forall|j: int| 0 <= j < i ==> all[j] != name@,
        decreases slugs@.len() - i,
    {
        if same(&chars_of(slugs[i].as_str()), &n) {
            assert(all[i as int] == name@);
            return true;
        }
        i += 1;
    }
    false
}

} // verus!
