//! The dialogues of the interactive interfaces: what confirming a picker leads to, and
//! the rows a question or a branch list offers.
//!
//! The dashboard and the fuzzy menu draw these and carry out what comes next; which
//! row is offered, ticked or under the cursor, and what a confirmation means, is decided
//! here.

use vstd::prelude::*;

use crate::config::{concat, owned, Ask, Prompt, PromptKind, PromptOption};
use crate::dict::Dict;
use crate::git::BranchInfo;
use crate::ops::{asked_at, assignments, same_prompts, set_args, slugified, slugify, split_values, terminal_editor, values_of, App};
use crate::picker::{Choice, Picker};
use crate::text::{chars_of, has_prefix, same_str, slice, starts_with, string_of, strs};

verus! {

/// What a picker is for.
#[derive(Debug)]
pub enum PickKind {
    /// The branch of a new worktree.
    Branch,
    /// Where a branch about to be created starts from.
    BranchBase,
    Task,
    Editor,
    /// An action on the selected worktree.
    Action,
    /// An address to open in the browser.
    OpenLink,
    /// The answer to a wt.toml question; the value feeds `opt.<name>`.
    Prompt { name: String, separator: String },
}

/// What confirming a picker leads to.
#[derive(Debug)]
pub enum Next {
    /// Nothing under the cursor to confirm: the picker stays open.
    Stay,
    /// The answer to a question, for the action waiting on it.
    Answer { name: String, value: String },
    /// The branch picked is checked out in another worktree.
    Taken,
    /// A branch that does not exist yet: where it starts is asked next.
    AskBase,
    /// The slug is asked, for the branch picked or for a new branch from a start point.
    AskSlug { branch: Option<String>, from: Option<String> },
    /// A task on a worktree, in the terminal when it is interactive.
    RunTask { task: String, slug: String, interactive: bool },
    OpenUrl { slug: String, url: String },
    /// An editor on a worktree; a terminal in it is offered next when the editor opens
    /// a window of its own.
    Editor { slug: String, editor: String, offer_terminal: bool },
    /// An action, by key, on the worktree selected (if any).
    Action { key: String, selected: Option<String> },
    /// Nothing to do: no worktree is selected.
    Nothing,
}

/// The parts joined by `sep`.
pub open spec fn sep_joined(parts: Seq<Seq<char>>, sep: Seq<char>) -> Seq<char>
    decreases parts.len(),
{
    if parts.len() == 0 {
        Seq::empty()
    } else if parts.len() == 1 {
        parts[0]
    } else {
        sep_joined(parts.drop_last(), sep) + sep + parts.last()
    }
}

/// The keys of the ticked choices, in order.
pub open spec fn ticked(items: Seq<Choice>) -> Seq<Seq<char>>
    decreases items.len(),
{
    if items.len() == 0 {
        Seq::empty()
    } else {
        ticked(items.drop_last()) + if items.last().checked {
            seq![items.last().key@]
        } else {
            Seq::<Seq<char>>::empty()
        }
    }
}

/// The choice under a picker's cursor, by its index among the choices.
pub open spec fn under_cursor<K>(p: &Picker<K>) -> Option<int> {
    if p.sel < p.view@.len() && p.view@[p.sel as int].idx < p.items@.len() {
        Some(p.view@[p.sel as int].idx as int)
    } else {
        None
    }
}

/// The answer a question's picker gives: in a multiple selection the ticked keys (those
/// ticked under an earlier filter included) joined by the separator; otherwise the key
/// under the cursor, nothing when there is none.
pub open spec fn answer_of(items: Seq<Choice>, at: Option<int>, multi: bool, sep: Seq<char>) -> Seq<char> {
    if multi {
        sep_joined(ticked(items), sep)
    } else {
        match at {
            Some(i) => items[i].key@,
            None => Seq::empty(),
        }
    }
}

/// The text of an optional string.
pub open spec fn opt_text(s: Option<String>) -> Option<Seq<char>> {
    match s {
        Some(x) => Some(x@),
        None => None,
    }
}

/// What confirming choice `c` of a picker of kind `kind` (not a question) leads to,
/// `slug` being the worktree selected, if any.
pub open spec fn leads_to(app: &crate::ops::App, kind: PickKind, c: Choice, slug: Option<Seq<char>>, r: Next) -> bool {
    if c.disabled {
        r is Taken
    } else {
        match kind {
            PickKind::Branch => if c.key@ == "__new__"@ {
                r is AskBase
            } else {
                r matches Next::AskSlug { branch: b, from: f } && opt_text(b) == Some(c.key@) && f is None
            },
            PickKind::BranchBase => r matches Next::AskSlug { branch: b, from: f } && b is None && opt_text(f) == Some(c.key@),
            PickKind::Task => match slug {
                None => r is Nothing,
                Some(s) => r matches Next::RunTask { task: t, slug: w, interactive: i } && t@ == c.key@ && w@ == s
                    && i == (app.project.config.tasks@.contains_key(c.key@) && app.project.config.tasks@[c.key@].interactive),
            },
            PickKind::OpenLink => match slug {
                None => r is Nothing,
                Some(s) => r matches Next::OpenUrl { slug: w, url: u } && w@ == s && u@ == c.key@,
            },
            PickKind::Editor => match slug {
                None => r is Nothing,
                Some(s) => r matches Next::Editor { slug: w, editor: e, offer_terminal: o } && w@ == s && e@ == c.key@
                    && o == !terminal_editor(c.key@),
            },
            PickKind::Action => r matches Next::Action { key: k, selected: w } && k@ == c.key@ && opt_text(w) == slug,
            PickKind::Prompt { .. } => false,
        }
    }
}

/// The ticked keys of `items` joined by `sep`.
fn join_ticked(items: &Vec<Choice>, sep: &str) -> (r: String)
    ensures
        r@ == sep_joined(ticked(items@), sep@),
{
    let s = chars_of(sep);
    let mut out: Vec<char> = Vec::new();
    let mut any = false;
    let mut i: usize = 0;
    while i < items.len()
        invariant
            i <= items@.len(),
            s@ == sep@,
            out@ == sep_joined(ticked(items@.take(i as int)), sep@),
            any == (ticked(items@.take(i as int)).len() > 0),
        decreases items@.len() - i,
    {
        let ghost before = ticked(items@.take(i as int));
        assert(items@.take(i + 1).drop_last() =~= items@.take(i as int));
        assert(items@.take(i + 1).last() == items@[i as int]);
        if items[i].checked {
            let k = &items[i].key;
            let ghost after = before.push(k@);
            assert(ticked(items@.take(i + 1)) =~= after);
            assert(after.drop_last() =~= before);
            if any {
                let mut sp = s.clone();
                out.append(&mut sp);
            }
            let mut kc = chars_of(k.as_str());
            out.append(&mut kc);
            any = true;
        } else {
            assert(ticked(items@.take(i + 1)) =~= before);
        }
        i += 1;
    }
    assert(items@.take(items@.len() as int) =~= items@);
    string_of(&out)
}

/// What confirming picker `p` leads to, `slug` being the worktree selected, if any:
/// - for a question, its answer (see `answer_of`), unless nothing is under the cursor
///   and no box can be ticked, which leaves the picker open;
/// - otherwise the picker stays open with nothing under the cursor, and the choice
///   under it leads where `leads_to` says: a branch checked out elsewhere is refused, a
///   new branch asks where it starts, a branch or a start point asks for the slug, and
///   a task, an address, an editor or an action goes to the worktree selected.
pub fn submit(app: &crate::ops::App, p: &Picker<PickKind>, slug: Option<&str>) -> (r: Next)
    ensures
        match p.kind {
            PickKind::Prompt { name, separator } => if under_cursor(p) is None && !p.multi {
                r is Stay
            } else {
                r matches Next::Answer { name: n, value: v } && n@ == name@
                    && v@ == answer_of(p.items@, under_cursor(p), p.multi, separator@)
            },
            _ => match under_cursor(p) {
                None => r is Stay,
                Some(i) => leads_to(app, p.kind, p.items@[i], match slug {
                    Some(s) => Some(s@),
                    None => None,
                }, r),
            },
        },
{
    let at: Option<usize> = if p.sel < p.view.len() && p.view[p.sel].idx < p.items.len() {
        Some(p.view[p.sel].idx)
    } else {
        None
    };
    if let PickKind::Prompt { name, separator } = &p.kind {
        if at.is_none() && !p.multi {
            return Next::Stay;
        }
        let value = if p.multi {
            join_ticked(&p.items, separator.as_str())
        } else {
            match at {
                Some(i) => p.items[i].key.clone(),
                None => String::new(),
            }
        };
        return Next::Answer { name: name.clone(), value };
    }
    let i = match at {
        Some(i) => i,
        None => return Next::Stay,
    };
    let c = &p.items[i];
    if c.disabled {
        return Next::Taken;
    }
    let key = c.key.clone();
    let owner = match slug {
        Some(s) => Some(owned(s)),
        None => None,
    };
    match &p.kind {
        PickKind::Branch => if same_str(key.as_str(), "__new__") {
            Next::AskBase
        } else {
            Next::AskSlug { branch: Some(key), from: None }
        },
        PickKind::BranchBase => Next::AskSlug { branch: None, from: Some(key) },
        PickKind::Task => match owner {
            Some(s) => {
                let interactive = app.task_is_interactive(key.as_str());
                Next::RunTask { task: key, slug: s, interactive }
            },
            None => Next::Nothing,
        },
        PickKind::OpenLink => match owner {
            Some(s) => Next::OpenUrl { slug: s, url: key },
            None => Next::Nothing,
        },
        PickKind::Editor => match owner {
            Some(s) => {
                let offer_terminal = !app.editor_is_terminal(key.as_str());
                Next::Editor { slug: s, editor: key, offer_terminal }
            },
            None => Next::Nothing,
        },
        PickKind::Action => Next::Action { key, selected: owner },
        PickKind::Prompt { .. } => Next::Stay,
    }
}

/// A choice as plain values: key, label, detail, disabled, ticked.
pub open spec fn row_of(c: Choice) -> (Seq<char>, Seq<char>, Seq<char>, bool, bool) {
    (c.key@, c.label@, c.detail@, c.disabled, c.checked)
}

/// Is `s` among `list`?
fn listed(list: &Vec<String>, s: &str) -> (r: bool)
    ensures
        r == strs(list@).contains(s@),
{
    let mut i: usize = 0;
    while i < list.len()
        invariant
            i <= list@.len(),
            forall|j: int| 0 <= j < i ==> strs(list@)[j] != s@,
        decreases list@.len() - i,
    {
        if same_str(list[i].as_str(), s) {
            assert(strs(list@)[i as int] == s@);
            return true;
        }
        i += 1;
    }
    false
}

/// The values a question's `default` names (several for a multiple selection).
pub open spec fn preset_of(p: Prompt) -> Seq<Seq<char>> {
    match p.default {
        Some(d) => values_of(d@, p.separator@),
        None => Seq::empty(),
    }
}

/// The row offered for option `o` of a question: its label (the value when it has
/// none) and detail, ticked in a multiple selection when the default names it.
pub open spec fn option_row(o: PromptOption, multi: bool, preset: Seq<Seq<char>>) -> (Seq<char>, Seq<char>, Seq<char>, bool, bool) {
    (o.value@, if o.label@.len() == 0 { o.value@ } else { o.label@ }, o.detail@, false, multi && preset.contains(o.value@))
}

/// The first option the default names, for a single choice.
pub open spec fn first_preset(opts: Seq<PromptOption>, preset: Seq<Seq<char>>, i: int) -> bool {
    &&& 0 <= i < opts.len()
    &&& preset.contains(opts[i].value@)
    &&& forall|j: int| 0 <= j < i ==> !preset.contains(#[trigger] opts[j].value@)
}

/// The rows a question offers for its `options`, and for a single choice the row to
/// put the cursor on: the first its `default` names. A `default` ticks (multiple
/// selection) or preselects (single choice) — what lets the common case be confirmed
/// with a single ENTER.
pub fn prompt_rows(prompt: &Prompt, options: Vec<PromptOption>) -> (r: (Vec<Choice>, Option<usize>))
    ensures
        r.0@.len() == options@.len(),
        forall|i: int| 0 <= i < options@.len() ==> row_of(#[trigger] r.0@[i]) == option_row(options@[i], prompt.kind == PromptKind::Multi, preset_of(*prompt)),
        prompt.kind == PromptKind::Multi ==> r.1 is None,
        prompt.kind != PromptKind::Multi ==> match r.1 {
            Some(i) => first_preset(options@, preset_of(*prompt), i as int),
            None => forall|j: int| 0 <= j < options@.len() ==> !preset_of(*prompt).contains(#[trigger] options@[j].value@),
        },
{
    let multi = prompt.kind == PromptKind::Multi;
    let preset: Vec<String> = match &prompt.default {
        Some(d) => split_values(d.as_str(), prompt.separator.as_str()),
        None => Vec::new(),
    };
    assert(strs(preset@) == preset_of(*prompt));
    let mut out: Vec<Choice> = Vec::new();
    let mut sel: Option<usize> = None;
    let n = options.len();
    let mut i: usize = 0;
    while i < n
        invariant
            n == options@.len(),
            i <= n,
            multi == (prompt.kind == PromptKind::Multi),
            strs(preset@) == preset_of(*prompt),
            out@.len() == i,
            forall|j: int| 0 <= j < i ==> row_of(#[trigger] out@[j]) == option_row(options@[j], multi, preset_of(*prompt)),
            multi ==> sel is None,
            !multi ==> match sel {
                Some(k) => first_preset(options@, preset_of(*prompt), k as int),
                None => forall|j: int| 0 <= j < i ==> !preset_of(*prompt).contains(#[trigger] options@[j].value@),
            },
        decreases n - i,
    {
        let o = &options[i];
        let named = listed(&preset, o.value.as_str());
        let label = if o.label.as_str().is_empty() { o.value.clone() } else { o.label.clone() };
        proof {
            if o.label@.len() == 0 {
                assert(o.label@ =~= Seq::<char>::empty());
            }
        }
        out.push(Choice { key: o.value.clone(), label, detail: o.detail.clone(), disabled: false, checked: multi && named });
        if !multi && named && sel.is_none() {
            sel = Some(i);
        }
        i += 1;
    }
    (out, sel)
}

/// The row offered for branch `b` at creation: a branch checked out elsewhere is shown
/// greyed out, with `taken` saying why, as git would refuse a second checkout.
pub open spec fn branch_row(b: BranchInfo, taken: Seq<char>, pad: Seq<char>) -> (Seq<char>, Seq<char>, Seq<char>, bool, bool) {
    if b.used_by is Some {
        (b.name@, "⊘ "@ + b.name@, taken, true, false)
    } else {
        (b.name@, pad + b.name@, b.date@ + " · "@ + b.subject@, false, false)
    }
}

/// The rows of the branch picker: a new branch first (`new_label`, `new_detail`), then
/// the branches git listed, in its order. `pad` goes before the name of a branch that is
/// not marked: spaces lining it up with the marked ones, or nothing.
pub fn branch_rows(branches: &Vec<BranchInfo>, new_label: &str, new_detail: &str, taken: &str, pad: &str) -> (r: Vec<Choice>)
    ensures
        r@.len() == branches@.len() + 1,
        row_of(r@[0]) == ("__new__"@, new_label@, new_detail@, false, false),
        forall|i: int| 0 <= i < branches@.len() ==> row_of(#[trigger] r@[i + 1]) == branch_row(branches@[i], taken@, pad@),
{
    let mut out: Vec<Choice> = Vec::new();
    out.push(Choice { key: owned("__new__"), label: owned(new_label), detail: owned(new_detail), disabled: false, checked: false });
    let mut i: usize = 0;
    while i < branches.len()
        invariant
            i <= branches@.len(),
            out@.len() == i + 1,
            row_of(out@[0]) == ("__new__"@, new_label@, new_detail@, false, false),
            forall|j: int| 0 <= j < i ==> row_of(#[trigger] out@[j + 1]) == branch_row(branches@[j], taken@, pad@),
        decreases branches@.len() - i,
    {
        let b = &branches[i];
        let used = b.used_by.is_some();
        let c = if used {
            Choice { key: b.name.clone(), label: concat("⊘ ", b.name.as_str()), detail: owned(taken), disabled: true, checked: false }
        } else {
            let head = concat(b.date.as_str(), " · ");
            Choice { key: b.name.clone(), label: concat(pad, b.name.as_str()), detail: concat(head.as_str(), b.subject.as_str()), disabled: false, checked: false }
        };
        out.push(c);
        assert(row_of(out@[i + 1]) == branch_row(branches@[i as int], taken@, pad@));
        i += 1;
    }
    out
}

/// The row offered for branch `b` as a start point, `head` being the main repository's
/// branch, marked with `here`. Nothing is greyed out: a branch checked out elsewhere is
/// a perfectly good place to start from.
pub open spec fn base_row(b: BranchInfo, head: Seq<char>, here: Seq<char>, pad: Seq<char>) -> (Seq<char>, Seq<char>, Seq<char>, bool, bool) {
    if b.name@ == head {
        (b.name@, "● "@ + b.name@, here + " · "@ + b.date@ + " · "@ + b.subject@, false, false)
    } else {
        (b.name@, pad + b.name@, b.date@ + " · "@ + b.subject@, false, false)
    }
}

/// The rows of the start-point picker, in git's order, and the row of the main
/// repository's `head` — where the cursor starts, so that ENTER accepts it.
pub fn base_rows(branches: &Vec<BranchInfo>, head: &str, here: &str, pad: &str) -> (r: (Vec<Choice>, Option<usize>))
    ensures
        r.0@.len() == branches@.len(),
        forall|i: int| 0 <= i < branches@.len() ==> row_of(#[trigger] r.0@[i]) == base_row(branches@[i], head@, here@, pad@),
        match r.1 {
            Some(i) => i < branches@.len() && branches@[i as int].name@ == head@
                && forall|j: int| 0 <= j < i ==> (#[trigger] branches@[j]).name@ != head@,
            None => forall|j: int| 0 <= j < branches@.len() ==> (#[trigger] branches@[j]).name@ != head@,
        },
{
    let mut out: Vec<Choice> = Vec::new();
    let mut at: Option<usize> = None;
    let mut i: usize = 0;
    while i < branches.len()
        invariant
            i <= branches@.len(),
            out@.len() == i,
            forall|j: int| 0 <= j < i ==> row_of(#[trigger] out@[j]) == base_row(branches@[j], head@, here@, pad@),
            match at {
                Some(k) => k < i && branches@[k as int].name@ == head@
                    && forall|j: int| 0 <= j < k ==> (#[trigger] branches@[j]).name@ != head@,
                None => forall|j: int| 0 <= j < i ==> (#[trigger] branches@[j]).name@ != head@,
            },
        decreases branches@.len() - i,
    {
        let b = &branches[i];
        let tail = concat(b.date.as_str(), " · ");
        let tail = concat(tail.as_str(), b.subject.as_str());
        let c = if same_str(b.name.as_str(), head) {
            if at.is_none() {
                at = Some(i);
            }
            let h = concat(here, " · ");
            Choice { key: b.name.clone(), label: concat("● ", b.name.as_str()), detail: concat(h.as_str(), tail.as_str()), disabled: false, checked: false }
        } else {
            Choice { key: b.name.clone(), label: concat(pad, b.name.as_str()), detail: tail, disabled: false, checked: false }
        };
        out.push(c);
        proof {
            let r = row_of(out@[i as int]);
            assert(r.2 == base_row(branches@[i as int], head@, here@, pad@).2) by {
                if b.name@ == head@ {
                    assert(here@ + " · "@ + (b.date@ + " · "@ + b.subject@) =~= here@ + " · "@ + b.date@ + " · "@ + b.subject@);
                }
            }
        }
        i += 1;
    }
    (out, at)
}

/// A branch name without its leading `origin/`s.
pub open spec fn without_origin(b: Seq<char>) -> Seq<char>
    decreases b.len(),
{
    if b.len() >= 7 && starts_with(b, "origin/"@) {
        without_origin(b.skip(7))
    } else {
        b
    }
}

/// The slug suggested for a worktree of `branch`: the branch slugified, without the
/// remote's name in front.
pub fn suggested_slug(branch: &str) -> (r: String)
    ensures
        r@ == slugified(without_origin(branch@)),
{
    let prefix = chars_of("origin/");
    proof {
        reveal_strlit("origin/");
    }
    assert(prefix@.len() == 7);
    let mut b = chars_of(branch);
    while b.len() >= 7 && has_prefix(&b, &prefix)
        invariant
            prefix@ == "origin/"@,
            without_origin(b@) == without_origin(branch@),
        decreases b@.len(),
    {
        let n = b.len();
        b = slice(&b, 7, n);
    }
    slugify(string_of(&b).as_str())
}

/// The action the project's questions are asked before.
#[derive(Debug)]
pub enum Deferred {
    /// Creating a worktree on `branch` (the template's when none), a new branch
    /// starting `from` a start point.
    New { branch: Option<String>, from: Option<String> },
    /// Starting a worktree.
    Up,
}

/// The phase an action's questions belong to.
pub open spec fn phase_of(d: Deferred) -> Ask {
    match d {
        Deferred::New { .. } => Ask::New,
        Deferred::Up => Ask::Up,
    }
}

/// An action waiting for the answers to the questions asked before it.
#[derive(Debug)]
pub struct Pending {
    pub action: Deferred,
    pub slug: String,
    /// The answers so far, starting from those remembered from the last start.
    pub opts: Dict<String>,
    /// The questions still to ask, in order.
    pub queue: Vec<Prompt>,
}

impl Pending {
    /// `action` on worktree `slug`, the answers `known` from its last start: the
    /// questions of the action's phase that are still to be asked — an option already
    /// known is not asked again, unless the question says `always`.
    pub fn new(app: &App, action: Deferred, slug: String, known: Dict<String>) -> (r: Pending)
        ensures
            r.action == action,
            r.slug == slug,
            r.opts == known,
            same_prompts(r.queue@, asked_at(app.project.config.prompts@, phase_of(action), known@)),
    {
        let phase = match &action {
            Deferred::New { .. } => Ask::New,
            Deferred::Up => Ask::Up,
        };
        let queue = app.prompts_for(phase, &known);
        Pending { action, slug, opts: known, queue }
    }

    /// The phase the questions are asked for.
    pub fn phase(&self) -> (r: Ask)
        ensures
            r == phase_of(self.action),
    {
        match &self.action {
            Deferred::New { .. } => Ask::New,
            Deferred::Up => Ask::Up,
        }
    }

    /// The next question to ask, taken off the queue; none when all were asked.
    pub fn next_question(&mut self) -> (r: Option<Prompt>)
        ensures
            final(self).action == old(self).action,
            final(self).slug == old(self).slug,
            final(self).opts == old(self).opts,
            old(self).queue@.len() == 0 ==> r is None && final(self).queue@ == old(self).queue@,
            old(self).queue@.len() > 0 ==> r == Some(old(self).queue@[0]) && final(self).queue@ == old(self).queue@.drop_first(),
    {
        if self.queue.len() == 0 {
            return None;
        }
        let p = self.queue.remove(0);
        assert(old(self).queue@.remove(0) =~= old(self).queue@.drop_first());
        Some(p)
    }

    /// Records the answer to question `name`, for the action and for the questions
    /// after it (whose `when` sees it).
    pub fn answer(&mut self, name: String, value: String)
        ensures
            final(self).action == old(self).action,
            final(self).slug == old(self).slug,
            final(self).queue == old(self).queue,
            final(self).opts@ == old(self).opts@.insert(name@, value),
    {
        self.opts.insert(name, value);
    }

    /// The options the action runs with, `key=value` each, in name order.
    pub fn sets(&self) -> (r: Vec<String>)
        ensures
            strs(r@) == assignments(self.opts.entries()),
    {
        set_args(&self.opts)
    }
}

} // verus!
