//! A picker: every choice, plus the fzf-style filter narrowing it down.
//!
//! A list of tenants or of branches is long enough that scrolling to the right row is
//! the slow part; typing is what makes it quick. The query runs against what is
//! displayed — label *and* detail joined — so `acme prod` finds the tenant whose
//! environment only shows in the second column.

use vstd::prelude::*;

use crate::fuzzy::{strictly_increasing, terms_match, Match, MAX_SCORED};
use crate::text::{blank, chars_of, is_blank, is_whitespace, string_of, trim_end, trimmed_end, white_space, words};
use crate::ansi::{adding, add_modifier, with_fg, Color, Span, Style, BOLD, UNDERLINED};

verus! {

/// One item of a picker: the key is the returned value, the label is displayed.
#[derive(Debug)]
pub struct Choice {
    pub key: String,
    pub label: String,
    pub detail: String,
    pub disabled: bool,
    pub checked: bool,
}

/// One row of a picker's filtered view.
#[derive(Debug)]
pub struct Hit {
    /// Index of the choice in the picker's items.
    pub idx: usize,
    pub score: i32,
    /// Character positions the filter matched, in the label and in the detail — what
    /// the interface highlights.
    pub label: Vec<usize>,
    pub detail: Vec<usize>,
}

/// A picker over `items`, for a purpose of kind `K`.
#[derive(Debug)]
pub struct Picker<K> {
    pub title: String,
    pub items: Vec<Choice>,
    /// What the filter leaves, in display order. Rebuilt on every keystroke.
    pub view: Vec<Hit>,
    /// Row of `view` under the cursor.
    pub sel: usize,
    pub kind: K,
    /// Multiple selection: TAB toggles, ENTER confirms the set.
    pub multi: bool,
    pub filter: String,
}

/// What the filter runs against: the label and the detail, joined by a space.
pub open spec fn hay(c: Choice) -> Seq<char> {
    c.label@ + seq![' '] + c.detail@
}

/// Every choice can be scored against `filter` without overflow.
pub open spec fn scorable(items: Seq<Choice>, filter: Seq<char>) -> bool {
    forall|i: int| 0 <= i < items.len() ==> words(filter).len() * hay(#[trigger] items[i]).len() <= MAX_SCORED
}

/// Does choice `c` pass `filter`?
pub open spec fn passes(c: Choice, filter: Seq<char>) -> bool {
    terms_match(words(filter), hay(c)) is Some
}

#[verifier::opaque]
/// `h` is choice `items[h.idx]` matched by `filter`: its score, and the matched positions
/// split back over the two columns (the joining space belongs to neither; detail
/// positions count from the detail's start), each list ascending.
pub open spec fn is_hit(h: Hit, items: Seq<Choice>, filter: Seq<char>) -> bool {
    h.idx < items.len() && {
        let c = items[h.idx as int];
        let cut = c.label@.len();
        match terms_match(words(filter), hay(c)) {
            Some((s, p)) => {
                &&& h.score == s
                &&& strictly_increasing(h.label@)
                &&& strictly_increasing(h.detail@)
                &&& h.label@.to_set() == p.to_set().filter(|x: usize| x < cut)
                &&& h.detail@.to_set() == p.to_set().filter(|x: usize| x > cut).map(|x: usize| (x - cut - 1) as usize)
            },
            None => false,
        }
    }
}

/// The first position a hit highlights, 0 when none.
pub open spec fn first(h: Hit) -> usize {
    if h.label@.len() > 0 {
        h.label@[0]
    } else if h.detail@.len() > 0 {
        h.detail@[0]
    } else {
        0
    }
}

/// Display order: best score first; on a tie the earliest match, then the declared
/// order — `acme-prod` before `prod-acme` for the query `acme`.
pub open spec fn before(a: Hit, b: Hit) -> bool {
    ||| a.score > b.score
    ||| a.score == b.score && first(a) < first(b)
    ||| a.score == b.score && first(a) == first(b) && a.idx < b.idx
}

/// The view a filter leaves over `items`: with a blank filter every choice, in declared
/// order; otherwise one hit per choice the filter passes, in display order.
pub open spec fn filtered(view: Seq<Hit>, items: Seq<Choice>, filter: Seq<char>) -> bool {
    if blank(filter) {
        &&& view.len() == items.len()
        &&& forall|i: int| 0 <= i < view.len() ==> {
            &&& (#[trigger] view[i]).idx == i
            &&& view[i].score == 0
            &&& view[i].label@.len() == 0
            &&& view[i].detail@.len() == 0
        }
    } else {
        &&& forall|i: int| 0 <= i < view.len() ==> is_hit(#[trigger] view[i], items, filter)
        &&& forall|i: int, j: int| 0 <= i < j < view.len() ==> before(view[i], view[j])
        &&& forall|k: int| 0 <= k < items.len() ==> (passes(#[trigger] items[k], filter) <==> exists|i: int| 0 <= i < view.len() && view[i].idx == k)
    }
}

/// The label positions: those before the cut.
fn label_part(ps: &Vec<usize>, cut: usize) -> (r: Vec<usize>)
    requires
        strictly_increasing(ps@),
    ensures
        strictly_increasing(r@),
        r@.to_set() == ps@.to_set().filter(|x: usize| x < cut),
{
    let mut out: Vec<usize> = Vec::new();
    let mut k: usize = 0;
    while k < ps.len()
        invariant
            k <= ps@.len(),
            strictly_increasing(ps@),
            strictly_increasing(out@),
            forall|j: int| 0 <= j < out@.len() ==> exists|t: int| 0 <= t < k && ps@[t] == #[trigger] out@[j],
            forall|x: usize| out@.contains(x) <==> (exists|t: int| 0 <= t < k && ps@[t] == x && x < cut),
        decreases ps@.len() - k,
    {
        let p = ps[k];
        if p < cut {
            proof {
                assert forall|j: int| 0 <= j < out@.len() implies out@[j] < p by {
                    let t = choose|t: int| 0 <= t < k && ps@[t] == out@[j];
                }
            }
            let ghost old_out = out@;
            out.push(p);
            proof {
                assert forall|x: usize| out@.contains(x) <==> (exists|t: int| 0 <= t < k + 1 && ps@[t] == x && x < cut) by {
                    if out@.contains(x) {
                        let j = choose|j: int| 0 <= j < out@.len() && out@[j] == x;
                        if j < old_out.len() {
                            assert(old_out.contains(x));
                        }
                    }
                    if exists|t: int| 0 <= t < k + 1 && ps@[t] == x && x < cut {
                        let t = choose|t: int| 0 <= t < k + 1 && ps@[t] == x && x < cut;
                        if t < k {
                            assert(old_out.contains(x));
                            let j = choose|j: int| 0 <= j < old_out.len() && old_out[j] == x;
                            assert(out@[j] == x);
                        } else {
                            assert(out@[old_out.len() as int] == x);
                        }
                    }
                }
                assert forall|j: int| 0 <= j < out@.len() implies exists|t: int| 0 <= t < k + 1 && ps@[t] == #[trigger] out@[j] by {
                    if j == old_out.len() {
                        assert(ps@[k as int] == out@[j]);
                    } else {
                        assert(out@[j] == old_out[j]);
                    }
                }
            }
        } else {
            proof {
                assert forall|x: usize| out@.contains(x) <==> (exists|t: int| 0 <= t < k + 1 && ps@[t] == x && x < cut) by {
                    if exists|t: int| 0 <= t < k + 1 && ps@[t] == x && x < cut {
                        let t = choose|t: int| 0 <= t < k + 1 && ps@[t] == x && x < cut;
                        assert(t < k);
                    }
                }
            }
        }
        k += 1;
    }
    proof {
        assert forall|x: usize| #[trigger] out@.to_set().contains(x) <==> ps@.to_set().filter(|x: usize| x < cut).contains(x) by {
            if ps@.to_set().filter(|x: usize| x < cut).contains(x) {
                assert(ps@.contains(x));
                let t = choose|t: int| 0 <= t < ps@.len() && ps@[t] == x;
                assert(out@.contains(x));
            }
            if out@.contains(x) {
                let t = choose|t: int| 0 <= t < ps@.len() && ps@[t] == x && x < cut;
                assert(ps@.contains(x));
            }
        }
        assert(out@.to_set() =~= ps@.to_set().filter(|x: usize| x < cut));
    }
    out
}

/// `y` is a detail position among the first `k` positions.
pub open spec fn detail_among(ps: Seq<usize>, k: int, cut: usize, y: usize) -> bool {
    exists|t: int| 0 <= t < k && ps[t] > cut && ps[t] - cut - 1 == y
}

/// The detail positions: those past the cut and its space, counted from the detail.
fn detail_part(ps: &Vec<usize>, cut: usize) -> (r: Vec<usize>)
    requires
        strictly_increasing(ps@),
    ensures
        strictly_increasing(r@),
        r@.to_set() == ps@.to_set().filter(|x: usize| x > cut).map(|x: usize| (x - cut - 1) as usize),
{
    let mut out: Vec<usize> = Vec::new();
    let mut k: usize = 0;
    while k < ps.len()
        invariant
            k <= ps@.len(),
            strictly_increasing(ps@),
            strictly_increasing(out@),
            forall|y: usize| out@.contains(y) <==> detail_among(ps@, k as int, cut, y),
        decreases ps@.len() - k,
    {
        let p = ps[k];
        let ghost old_out = out@;
        if p > cut {
            let y = p - cut - 1;
            proof {
                assert forall|j: int| 0 <= j < out@.len() implies out@[j] < y by {
                    assert(out@.contains(out@[j]));
                    let t = choose|t: int| 0 <= t < k && ps@[t] > cut && ps@[t] - cut - 1 == out@[j];
                }
            }
            out.push(y);
            proof {
                assert forall|z: usize| out@.contains(z) <==> detail_among(ps@, k + 1, cut, z) by {
                    if out@.contains(z) {
                        let j = choose|j: int| 0 <= j < out@.len() && out@[j] == z;
                        if j < old_out.len() {
                            assert(old_out.contains(z));
                            let t = choose|t: int| 0 <= t < k && ps@[t] > cut && ps@[t] - cut - 1 == z;
                            assert(0 <= t < k + 1 && ps@[t] > cut && ps@[t] - cut - 1 == z);
                        } else {
                            assert(0 <= k < k + 1 && ps@[k as int] > cut && ps@[k as int] - cut - 1 == z);
                        }
                    }
                    if detail_among(ps@, k + 1, cut, z) {
                        let t = choose|t: int| 0 <= t < k + 1 && ps@[t] > cut && ps@[t] - cut - 1 == z;
                        if t < k {
                            assert(detail_among(ps@, k as int, cut, z));
                            assert(old_out.contains(z));
                            let j = choose|j: int| 0 <= j < old_out.len() && old_out[j] == z;
                            assert(out@[j] == z);
                        } else {
                            assert(out@[old_out.len() as int] == z);
                        }
                    }
                }
            }
        } else {
            proof {
                assert forall|z: usize| out@.contains(z) <==> detail_among(ps@, k + 1, cut, z) by {
                    if out@.contains(z) {
                        let t = choose|t: int| 0 <= t < k && ps@[t] > cut && ps@[t] - cut - 1 == z;
                        assert(0 <= t < k + 1 && ps@[t] > cut && ps@[t] - cut - 1 == z);
                    }
                    if detail_among(ps@, k + 1, cut, z) {
                        let t = choose|t: int| 0 <= t < k + 1 && ps@[t] > cut && ps@[t] - cut - 1 == z;
                        assert(t < k);
                        assert(detail_among(ps@, k as int, cut, z));
                    }
                }
            }
        }
        k += 1;
    }
    proof {
        let fs = ps@.to_set().filter(|x: usize| x > cut);
        let target = fs.map(|x: usize| (x - cut - 1) as usize);
        assert forall|y: usize| #[trigger] out@.to_set().contains(y) <==> target.contains(y) by {
            if target.contains(y) {
                let x = choose|x: usize| #[trigger] fs.contains(x) && (x - cut - 1) as usize == y;
                assert(ps@.contains(x));
                let t = choose|t: int| 0 <= t < ps@.len() && ps@[t] == x;
                assert(ps@[t] > cut && ps@[t] - cut - 1 == y);
                assert(detail_among(ps@, ps@.len() as int, cut, y));
                assert(out@.contains(y));
            }
            if out@.contains(y) {
                let t = choose|t: int| 0 <= t < ps@.len() && ps@[t] > cut && ps@[t] - cut - 1 == y;
                let x = ps@[t];
                assert(ps@.contains(x));
                assert(fs.contains(x));
                assert((x - cut - 1) as usize == y);
            }
        }
        assert(out@.to_set() =~= target);
    }
    out
}

/// The characters of a choice as the filter sees them.
fn hay_of(c: &Choice) -> (r: String)
    ensures
        r@ == hay(*c),
{
    let mut h = chars_of(c.label.as_str());
    h.push(' ');
    let mut d = chars_of(c.detail.as_str());
    h.append(&mut d);
    string_of(&h)
}

impl<K> Picker<K> {
    /// A picker over `items`, with no filter yet.
    pub fn new(title: String, items: Vec<Choice>, kind: K, multi: bool) -> (r: Self)
        ensures
            r.title == title,
            r.items@ == items@,
            r.kind == kind,
            r.multi == multi,
            r.filter@.len() == 0,
            r.sel == 0,
            filtered(r.view@, r.items@, r.filter@),
    {
        let mut p = Picker { title, items, view: Vec::new(), sel: 0, kind, multi, filter: String::new() };
        proof {
            assert(words(p.filter@) =~= Seq::<Seq<char>>::empty()) by {
                crate::text::lemma_blank_trim(p.filter@);
            }
        }
        p.refilter();
        p
    }

    /// Rebuilds the view from the filter, and puts the cursor back on the top row:
    /// after a keystroke the best match is the one the user is after, and ENTER must
    /// never confirm a row that scrolled out of the query.
    pub fn refilter(&mut self)
        requires
            scorable(old(self).items@, old(self).filter@),
        ensures
            final(self).items@ == old(self).items@,
            final(self).filter == old(self).filter,
            final(self).title == old(self).title,
            final(self).kind == old(self).kind,
            final(self).multi == old(self).multi,
            final(self).sel == 0,
            filtered(final(self).view@, final(self).items@, final(self).filter@),
    {
        let f = chars_of(self.filter.as_str());
        if is_blank(&f) {
            let mut view: Vec<Hit> = Vec::new();
            let mut i: usize = 0;
            while i < self.items.len()
                invariant
                    i <= self.items@.len(),
                    view@.len() == i,
                    forall|j: int| 0 <= j < i ==> {
                        &&& (#[trigger] view@[j]).idx == j
                        &&& view@[j].score == 0
                        &&& view@[j].label@.len() == 0
                        &&& view@[j].detail@.len() == 0
                    },
                decreases self.items@.len() - i,
            {
                view.push(Hit { idx: i, score: 0, label: Vec::new(), detail: Vec::new() });
                i += 1;
            }
            self.view = view;
            self.sel = 0;
            return;
        }
        let ghost items = self.items@;
        let ghost filter = self.filter@;
        let mut view: Vec<Hit> = Vec::new();
        let mut i: usize = 0;
        while i < self.items.len()
            invariant
                items == self.items@,
                filter == self.filter@,
                !blank(filter),
                scorable(items, filter),
                i <= items.len(),
                forall|j: int| 0 <= j < view@.len() ==> is_hit(#[trigger] view@[j], items, filter),
                forall|j: int| 0 <= j < view@.len() ==> (#[trigger] view@[j]).idx < i,
                forall|a: int, b: int| 0 <= a < b < view@.len() ==> before(view@[a], view@[b]),
                forall|k: int| 0 <= k < i ==> (passes(#[trigger] items[k], filter) <==> exists|j: int| 0 <= j < view@.len() && view@[j].idx == k),
            decreases items.len() - i,
        {
            let c = &self.items[i];
            let h = hay_of(c);
            assert(words(filter).len() * hay(items[i as int]).len() <= MAX_SCORED);
            let found = crate::fuzzy::matches(self.filter.as_str(), h.as_str());
            match found {
                Some(m) => {
                    let cut = chars_of(c.label.as_str()).len();
                    let label = label_part(&m.positions, cut);
                    let detail = detail_part(&m.positions, cut);
                    let hit = Hit { idx: i, score: m.score, label, detail };
                    assert(is_hit(hit, items, filter)) by {
                        reveal(is_hit);
                    }
                    let ghost old_view = view@;
                    let k = slot_for(&view, &hit);
                    let ghost h = hit;
                    view.insert(k, hit);
                    proof {
                        lemma_order_insert(old_view, view@, k as int, h);
                        lemma_rows_insert(old_view, view@, k as int, h, items, filter, i as int);
                    }
                },
                None => {
                    proof {
                        assert forall|q: int| 0 <= q < i + 1 implies (passes(#[trigger] items[q], filter) <==> exists|j: int| 0 <= j < view@.len() && view@[j].idx == q) by {
                            if q == i {
                                assert(!passes(items[q], filter));
                                if exists|j: int| 0 <= j < view@.len() && view@[j].idx == q {
                                    let j = choose|j: int| 0 <= j < view@.len() && view@[j].idx == q;
                                    assert(view@[j].idx < i);
                                }
                            }
                        }
                    }
                },
            }
            i += 1;
        }
        self.view = view;
        self.sel = 0;
    }

    /// Can the choices be scored against `filter`? (Only a filter of millions of words
    /// over choices of millions of characters cannot.)
    pub fn can_filter(&self, filter: &str) -> (r: bool)
        ensures
            r == scorable(self.items@, filter@),
    {
        let n = crate::text::split_words(&chars_of(filter)).len();
        let mut i: usize = 0;
        while i < self.items.len()
            invariant
                i <= self.items@.len(),
                n == words(filter@).len(),
                forall|j: int| 0 <= j < i ==> words(filter@).len() * hay(#[trigger] self.items@[j]).len() <= MAX_SCORED,
            decreases self.items@.len() - i,
        {
            let h = chars_of(hay_of(&self.items[i]).as_str()).len();
            let fits = match (n as u128).checked_mul(h as u128) {
                Some(p) => p <= MAX_SCORED as u128,
                None => false,
            };
            if !fits {
                return false;
            }
            i += 1;
        }
        true
    }

    /// Sets the filter to `filter` and rebuilds the view.
    pub fn set_filter(&mut self, filter: String)
        requires
            scorable(old(self).items@, filter@),
        ensures
            final(self).items@ == old(self).items@,
            final(self).filter == filter,
            final(self).multi == old(self).multi,
            final(self).sel == 0,
            filtered(final(self).view@, final(self).items@, final(self).filter@),
    {
        self.filter = filter;
        self.refilter();
    }

    /// Edits the filter with `f` (a keystroke) and rebuilds the view.
    pub fn edit_filter<F: FnOnce(String) -> String>(&mut self, f: F)
        requires
            f.requires((old(self).filter,)),
            forall|out: String| f.ensures((old(self).filter,), out) ==> scorable(old(self).items@, out@),
        ensures
            f.ensures((old(self).filter,), final(self).filter),
            final(self).items@ == old(self).items@,
            final(self).multi == old(self).multi,
            final(self).sel == 0,
            filtered(final(self).view@, final(self).items@, final(self).filter@),
    {
        let mut current = String::new();
        std::mem::swap(&mut current, &mut self.filter);
        let next = f(current);
        self.filter = next;
        self.refilter();
    }

    /// The choice under the cursor, if any row is left.
    pub fn current_index(&self) -> (r: Option<usize>)
        ensures
            self.sel < self.view@.len() ==> r == Some(self.view@[self.sel as int].idx),
            self.sel >= self.view@.len() ==> r is None,
    {
        if self.sel < self.view.len() {
            Some(self.view[self.sel].idx)
        } else {
            None
        }
    }

    /// Puts the cursor on choice `idx` (a question's `default`), when the view shows it.
    pub fn select(&mut self, idx: usize)
        ensures
            final(self).items@ == old(self).items@,
            final(self).view@ == old(self).view@,
            final(self).filter == old(self).filter,
            final(self).multi == old(self).multi,
            (exists|j: int| 0 <= j < old(self).view@.len() && old(self).view@[j].idx == idx) ==> {
                &&& final(self).sel < final(self).view@.len()
                &&& final(self).view@[final(self).sel as int].idx == idx
                &&& forall|j: int| 0 <= j < final(self).sel ==> (#[trigger] old(self).view@[j]).idx != idx
            },
            !(exists|j: int| 0 <= j < old(self).view@.len() && old(self).view@[j].idx == idx) ==> final(self).sel == old(self).sel,
    {
        let mut j: usize = 0;
        while j < self.view.len()
            invariant
                j <= self.view@.len(),
                self.items@ == old(self).items@,
                self.view@ == old(self).view@,
                self.filter == old(self).filter,
                self.multi == old(self).multi,
                self.sel == old(self).sel,
                forall|t: int| 0 <= t < j ==> (#[trigger] self.view@[t]).idx != idx,
            decreases self.view@.len() - j,
        {
            if self.view[j].idx == idx {
                self.sel = j;
                return;
            }
            j += 1;
        }
    }

    /// Moves the cursor by `delta` rows, staying inside the view.
    pub fn move_by(&mut self, delta: isize)
        ensures
            final(self).items@ == old(self).items@,
            final(self).view@ == old(self).view@,
            final(self).filter == old(self).filter,
            final(self).multi == old(self).multi,
            old(self).view@.len() == 0 ==> final(self).sel == old(self).sel,
            old(self).view@.len() > 0 ==> final(self).sel == clamped(old(self).sel + delta, old(self).view@.len() - 1),
    {
        if self.view.len() == 0 {
            return;
        }
        let last = self.view.len() - 1;
        let v: i128 = self.sel as i128 + delta as i128;
        let top: i128 = last as i128;
        let moved: i128 = if v < 0 { 0 } else if v > top { top } else { v };
        self.sel = moved as usize;
    }

    /// Ticks or unticks the choice under the cursor, in a multiple choice.
    pub fn toggle(&mut self)
        ensures
            final(self).view@ == old(self).view@,
            final(self).sel == old(self).sel,
            final(self).filter == old(self).filter,
            final(self).multi == old(self).multi,
            final(self).items@.len() == old(self).items@.len(),
            forall|k: int| 0 <= k < old(self).items@.len() ==> {
                let c = #[trigger] final(self).items@[k];
                let o = old(self).items@[k];
                &&& c.key == o.key
                &&& c.label == o.label
                &&& c.detail == o.detail
                &&& c.disabled == o.disabled
                &&& c.checked == if old(self).multi && old(self).sel < old(self).view@.len() && old(self).view@[old(self).sel as int].idx == k {
                    !o.checked
                } else {
                    o.checked
                }
            },
    {
        if !self.multi {
            return;
        }
        match self.current_index() {
            Some(idx) => {
                if idx < self.items.len() {
                    let c = self.items.remove(idx);
                    let flipped = Choice { checked: !c.checked, ..c };
                    self.items.insert(idx, flipped);
                }
            },
            None => {},
        }
    }
}

/// A hit inserted at its slot keeps a view in display order.
proof fn lemma_order_insert(old_view: Seq<Hit>, view: Seq<Hit>, k: int, hit: Hit)
    requires
        0 <= k <= old_view.len(),
        view == old_view.insert(k, hit),
        forall|a: int, b: int| 0 <= a < b < old_view.len() ==> before(old_view[a], old_view[b]),
        forall|j: int| 0 <= j < k ==> before(#[trigger] old_view[j], hit),
        k < old_view.len() ==> before(hit, old_view[k]),
    ensures
        forall|a: int, b: int| 0 <= a < b < view.len() ==> before(view[a], view[b]),
{
    assert forall|a: int, b: int| 0 <= a < b < view.len() implies before(view[a], view[b]) by {
        if b < k {
            assert(view[a] == old_view[a]);
            assert(view[b] == old_view[b]);
        } else if b == k {
            assert(view[a] == old_view[a]);
        } else if a == k {
            assert(view[b] == old_view[b - 1]);
            if b - 1 > k {
                assert(before(old_view[k], old_view[b - 1]));
            }
        } else if a < k {
            assert(view[a] == old_view[a]);
            assert(view[b] == old_view[b - 1]);
        } else {
            assert(view[a] == old_view[a - 1]);
            assert(view[b] == old_view[b - 1]);
        }
    }
}

/// A hit for choice `i` inserted in a view of the choices before `i` gives a view of
/// the choices up to `i`, one row per passing choice.
proof fn lemma_rows_insert(old_view: Seq<Hit>, view: Seq<Hit>, k: int, hit: Hit, items: Seq<Choice>, filter: Seq<char>, i: int)
    requires
        0 <= k <= old_view.len(),
        view == old_view.insert(k, hit),
        0 <= i < items.len(),
        hit.idx == i,
        is_hit(hit, items, filter),
        passes(items[i], filter),
        forall|j: int| 0 <= j < old_view.len() ==> is_hit(#[trigger] old_view[j], items, filter),
        forall|j: int| 0 <= j < old_view.len() ==> (#[trigger] old_view[j]).idx < i,
        forall|q: int| 0 <= q < i ==> (passes(#[trigger] items[q], filter) <==> exists|j: int| 0 <= j < old_view.len() && old_view[j].idx == q),
    ensures
        forall|j: int| 0 <= j < view.len() ==> is_hit(#[trigger] view[j], items, filter),
        forall|j: int| 0 <= j < view.len() ==> (#[trigger] view[j]).idx < i + 1,
        forall|q: int| 0 <= q < i + 1 ==> (passes(#[trigger] items[q], filter) <==> exists|j: int| 0 <= j < view.len() && view[j].idx == q),
{
    assert forall|j: int| 0 <= j < view.len() implies is_hit(#[trigger] view[j], items, filter) && view[j].idx < i + 1 by {
        if j < k {
            assert(view[j] == old_view[j]);
        } else if j > k {
            assert(view[j] == old_view[j - 1]);
        }
    }
    assert forall|q: int| 0 <= q < i + 1 implies (passes(#[trigger] items[q], filter) <==> exists|j: int| 0 <= j < view.len() && view[j].idx == q) by {
        if q < i {
            if passes(items[q], filter) {
                let j = choose|j: int| 0 <= j < old_view.len() && old_view[j].idx == q;
                if j < k {
                    assert(view[j] == old_view[j]);
                } else {
                    assert(view[j + 1] == old_view[j]);
                }
            }
            if exists|j: int| 0 <= j < view.len() && view[j].idx == q {
                let j = choose|j: int| 0 <= j < view.len() && view[j].idx == q;
                if j < k {
                    assert(view[j] == old_view[j]);
                } else if j > k {
                    assert(view[j] == old_view[j - 1]);
                }
            }
        } else {
            assert(view[k].idx == q);
        }
    }
}

/// `s` cut to `max` characters, an ellipsis standing for what was cut.
pub open spec fn truncated(s: Seq<char>, max: int) -> Seq<char> {
    if s.len() <= max {
        s
    } else {
        s.take(if max > 0 { max - 1 } else { 0 }) + seq!['…']
    }
}

/// `s` cut to `max` characters, its last one an ellipsis when anything was cut.
pub fn truncate(s: &str, max: usize) -> (r: String)
    ensures
        r@ == truncated(s@, max as int),
{
    let cs = chars_of(s);
    if cs.len() <= max {
        return string_of(&cs);
    }
    let keep = if max > 0 { max - 1 } else { 0 };
    let mut out = crate::text::slice(&cs, 0, keep);
    out.push('…');
    string_of(&out)
}

/// Index of the last whitespace character of `s`, -1 without one.
pub open spec fn last_white(s: Seq<char>) -> int
    decreases s.len(),
{
    if s.len() == 0 {
        -1
    } else if white_space(s.last()) {
        s.len() - 1
    } else {
        last_white(s.drop_last())
    }
}

/// A search without its last word, `^W`-style: trailing spaces dropped, then everything
/// after the last space left.
pub open spec fn without_last_word(q: Seq<char>) -> Seq<char> {
    let t = trim_end(q);
    t.take(last_white(t) + 1)
}

proof fn lemma_last_white(s: Seq<char>, i: int)
    requires
        0 <= i <= s.len(),
        forall|j: int| i <= j < s.len() ==> !white_space(#[trigger] s[j]),
    ensures
        last_white(s) == last_white(s.take(i)),
    decreases s.len() - i,
{
    if i < s.len() {
        assert(s.drop_last().take(i) =~= s.take(i));
        lemma_last_white(s.drop_last(), i);
    } else {
        assert(s.take(i) =~= s);
    }
}

/// Drops the last word of a search, `^W`-style. The cut lands on a character, never
/// inside one.
pub fn drop_last_word(query: &mut String)
    ensures
        final(query)@ == without_last_word(old(query)@),
{
    let t = trimmed_end(&chars_of(query.as_str()));
    let mut i: usize = t.len();
    while i > 0
        invariant
            i <= t@.len(),
            forall|j: int| i <= j < t@.len() ==> !white_space(#[trigger] t@[j]),
        ensures
            i <= t@.len(),
            forall|j: int| i <= j < t@.len() ==> !white_space(#[trigger] t@[j]),
            i > 0 ==> white_space(t@[i - 1]),
        decreases i,
    {
        if is_whitespace(t[i - 1]) {
            break;
        }
        i -= 1;
    }
    proof {
        lemma_last_white(t@, i as int);
        if i > 0 {
            assert(t@.take(i as int).last() == t@[i - 1]);
        } else {
            assert(t@.take(0) =~= Seq::<char>::empty());
        }
    }
    let kept = crate::text::slice(&t, 0, i);
    assert(kept@ == without_last_word(old(query)@));
    *query = string_of(&kept);
}

/// The highlighted style of a cell: yellow, bold and underlined.
pub open spec fn highlighted(base: Style) -> Style {
    adding(with_fg(base, Color::Yellow), BOLD | UNDERLINED)
}

/// The characters of `cs` from `i` on, after `acc`, split into maximal runs of
/// highlighted (positions in `hits`) and plain characters; `run` is the current run,
/// highlighted when `on`.
pub open spec fn runs_from(cs: Seq<char>, hits: Seq<usize>, i: int, on: bool, run: Seq<char>, acc: Seq<(Seq<char>, bool)>) -> Seq<(Seq<char>, bool)>
    decreases cs.len() - i,
{
    if i < 0 || i >= cs.len() {
        if run.len() > 0 {
            acc.push((run, on))
        } else {
            acc
        }
    } else {
        let h = hits.contains(i as usize);
        if h != on {
            runs_from(cs, hits, i + 1, h, seq![cs[i]], if run.len() > 0 { acc.push((run, on)) } else { acc })
        } else {
            runs_from(cs, hits, i + 1, on, run.push(cs[i]), acc)
        }
    }
}

/// A run as a segment.
pub open spec fn run_span(r: (Seq<char>, bool), base: Style) -> (Seq<char>, Style) {
    (r.0, if r.1 { highlighted(base) } else { base })
}

/// The segments of a list of spans.
pub open spec fn spans_view(v: Seq<Span>) -> Seq<(Seq<char>, Style)> {
    v.map_values(|s: Span| crate::ansi::span_view(s))
}

/// The segments of a list of runs.
pub open spec fn runs_view(acc: Seq<(Seq<char>, bool)>, base: Style) -> Seq<(Seq<char>, Style)> {
    acc.map_values(|r: (Seq<char>, bool)| run_span(r, base))
}

/// Adding a span for one more run keeps the spans standing for the runs.
proof fn lemma_push_run(before: Seq<Span>, sp: Span, acc: Seq<(Seq<char>, bool)>, r: (Seq<char>, bool), base: Style)
    requires
        spans_view(before) == runs_view(acc, base),
        crate::ansi::span_view(sp) == run_span(r, base),
    ensures
        spans_view(before.push(sp)) == runs_view(acc.push(r), base),
{
    assert(spans_view(before).len() == before.len());
    assert(runs_view(acc, base).len() == acc.len());
    assert(spans_view(before.push(sp)).len() == before.len() + 1);
    assert(runs_view(acc.push(r), base).len() == acc.len() + 1);
    assert forall|j: int| 0 <= j < before.len() + 1 implies spans_view(before.push(sp))[j] == runs_view(acc.push(r), base)[j] by {
        if j < before.len() {
            assert(spans_view(before)[j] == runs_view(acc, base)[j]);
        }
    }
    assert(spans_view(before.push(sp)) =~= runs_view(acc.push(r), base));
}

/// `n` spaces.
pub open spec fn spaces(n: int) -> Seq<char> {
    Seq::new(if n > 0 { n as nat } else { 0 }, |i: int| ' ')
}

/// The segments of a picker cell showing `text` in a column `width` wide.
pub open spec fn cell_spans(text: Seq<char>, hits: Seq<usize>, base: Style, width: int, pad: bool) -> Seq<(Seq<char>, Style)> {
    let cut = text.len() > width;
    let keep = if cut { if width > 0 { width - 1 } else { 0 } } else { text.len() as int };
    let body = runs_from(text.take(keep), hits, 0, false, Seq::empty(), Seq::empty()).map_values(|r: (Seq<char>, bool)| run_span(r, base));
    let ell = if cut { seq![(seq!['…'], base)] } else { Seq::empty() };
    let shown = if cut { keep + 1 } else { keep };
    let fill = if pad { seq![(spaces(width - shown), base)] } else { Seq::empty() };
    body + ell + fill
}

/// Is `i` one of the positions?
fn hit_at(hits: &[usize], i: usize) -> (r: bool)
    ensures
        r == hits@.contains(i),
{
    let mut j: usize = 0;
    while j < hits.len()
        invariant
            j <= hits@.len(),
            forall|t: int| 0 <= t < j ==> hits@[t] != i,
        decreases hits@.len() - j,
    {
        if hits[j] == i {
            return true;
        }
        j += 1;
    }
    false
}

/// Segments for one column of a picker row, what the filter matched picked out: the
/// text cut to `width` characters (an ellipsis standing for the rest), and padded to
/// it when `pad` is set so that the next column lines up. Positions past the cut are
/// simply not highlighted.
pub fn cell(text: &str, hits: &[usize], base: Style, width: usize, pad: bool) -> (r: Vec<Span>)
    ensures
        r@.map_values(|s: Span| crate::ansi::span_view(s)) == cell_spans(text@, hits@, base, width as int, pad),
{
    let matched = add_modifier(Style { fg: Some(Color::Yellow), ..base }, BOLD | UNDERLINED);
    let chars = chars_of(text);
    let cut = chars.len() > width;
    let keep = if cut {
        if width > 0 { width - 1 } else { 0 }
    } else {
        chars.len()
    };
    let ghost kept = chars@.take(keep as int);
    let mut runs: Vec<Span> = Vec::new();
    let mut run: Vec<char> = Vec::new();
    let mut on = false;
    let mut i: usize = 0;
    let ghost mut acc: Seq<(Seq<char>, bool)> = Seq::empty();
    assert(spans_view(runs@) =~= runs_view(acc, base));
    while i < keep
        invariant
            keep <= chars@.len(),
            kept == chars@.take(keep as int),
            matched == highlighted(base),
            i <= keep,
            spans_view(runs@) == runs_view(acc, base),
            runs_from(kept, hits@, i as int, on, run@, acc) == runs_from(kept, hits@, 0, false, Seq::empty(), Seq::empty()),
        decreases keep - i,
    {
        let h = hit_at(hits, i);
        let c = chars[i];
        assert(kept[i as int] == c);
        if h != on {
            let ghost acc1 = if run@.len() > 0 { acc.push((run@, on)) } else { acc };
            if run.len() > 0 {
                let content = string_of(&run);
                let ghost before = runs@;
                let sp = Span { content, style: if on { matched } else { base } };
                assert(crate::ansi::span_view(sp) == run_span((run@, on), base));
                runs.push(sp);
                proof {
                    lemma_push_run(before, sp, acc, (run@, on), base);
                }
            }
            proof {
                acc = acc1;
            }
            on = h;
            run = Vec::new();
            run.push(c);
            assert(run@ =~= seq![c]);
        } else {
            run.push(c);
        }
        i += 1;
    }
    if run.len() > 0 {
        let content = string_of(&run);
        let ghost before = runs@;
        let sp = Span { content, style: if on { matched } else { base } };
        assert(crate::ansi::span_view(sp) == run_span((run@, on), base));
        runs.push(sp);
        proof {
            lemma_push_run(before, sp, acc, (run@, on), base);
        }
    }
    let ghost body = runs@.map_values(|s: Span| crate::ansi::span_view(s));
    if cut {
        let mut e: Vec<char> = Vec::new();
        e.push('…');
        runs.push(Span { content: string_of(&e), style: base });
    }
    let ghost with_ell = runs@.map_values(|s: Span| crate::ansi::span_view(s));
    assert(with_ell =~= body + if cut { seq![(seq!['…'], base)] } else { Seq::empty() });
    if pad {
        let shown = if cut { keep + 1 } else { keep };
        let n = if width > shown { width - shown } else { 0 };
        let mut fill: Vec<char> = Vec::new();
        let mut j: usize = 0;
        while j < n
            invariant
                j <= n,
                fill@ == spaces(j as int),
            decreases n - j,
        {
            fill.push(' ');
            j += 1;
            assert(fill@ =~= spaces(j as int));
        }
        assert(spaces(n as int) =~= spaces(width - shown));
        runs.push(Span { content: string_of(&fill), style: base });
        assert(runs@.map_values(|s: Span| crate::ansi::span_view(s)) =~= with_ell + seq![(spaces(width - shown), base)]);
    } else {
        assert(runs@.map_values(|s: Span| crate::ansi::span_view(s)) =~= with_ell + Seq::<(Seq<char>, Style)>::empty());
    }
    runs
}

/// `v` clamped to `0..=last`.
pub open spec fn clamped(v: int, last: int) -> int {
    if v < 0 {
        0
    } else if v > last {
        last
    } else {
        v
    }
}

/// Where a new hit goes in a view sorted in display order: before the first row it
/// comes before.
fn slot_for(view: &Vec<Hit>, hit: &Hit) -> (r: usize)
    requires
        forall|a: int, b: int| 0 <= a < b < view@.len() ==> before(view@[a], view@[b]),
        forall|j: int| 0 <= j < view@.len() ==> (#[trigger] view@[j]).idx < hit.idx,
    ensures
        r <= view@.len(),
        forall|j: int| 0 <= j < r ==> before(#[trigger] view@[j], *hit),
        r < view@.len() ==> before(*hit, view@[r as int]),
{
    let mut k: usize = 0;
    while k < view.len()
        invariant
            k <= view@.len(),
            forall|j: int| 0 <= j < view@.len() ==> (#[trigger] view@[j]).idx < hit.idx,
            forall|j: int| 0 <= j < k ==> before(#[trigger] view@[j], *hit),
        decreases view@.len() - k,
    {
        let h = &view[k];
        let fa = first_of(hit);
        let fb = first_of(h);
        if hit.score > h.score || (hit.score == h.score && fa < fb) {
            return k;
        }
        k += 1;
    }
    k
}

/// The first position a hit highlights.
fn first_of(h: &Hit) -> (r: usize)
    ensures
        r == first(*h),
{
    if h.label.len() > 0 {
        h.label[0]
    } else if h.detail.len() > 0 {
        h.detail[0]
    } else {
        0
    }
}

} // verus!
