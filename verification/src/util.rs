//! Stateless building blocks: paths, progress messages, ports.
//!
//! Paths are handled as text with `/` separators, the way a Unix path displays.

use vstd::prelude::*;

use crate::text::{chars_of, same, slice, string_of};

verus! {

/// The pieces of `s` between `/` separators, from index `i` on (empty pieces included).
pub open spec fn segments_from(s: Seq<char>, i: int) -> Seq<Seq<char>>
    decreases s.len() - i,
{
    if i < 0 || i > s.len() {
        Seq::empty()
    } else {
        let e = next_slash(s, i);
        if e >= s.len() {
            seq![s.subrange(i, s.len() as int)]
        } else {
            proof {
                lemma_next_slash(s, i);
            }
            seq![s.subrange(i, e)] + segments_from(s, e + 1)
        }
    }
}

/// First `/` at or after `i` (`s.len()` when none).
pub open spec fn next_slash(s: Seq<char>, i: int) -> int
    decreases s.len() - i,
{
    if i < 0 || i >= s.len() {
        s.len() as int
    } else if s[i] == '/' {
        i
    } else {
        next_slash(s, i + 1)
    }
}

pub proof fn lemma_next_slash(s: Seq<char>, i: int)
    requires
        0 <= i <= s.len(),
    ensures
        i <= next_slash(s, i) <= s.len(),
        next_slash(s, i) < s.len() ==> s[next_slash(s, i)] == '/',
        forall|j: int| i <= j < next_slash(s, i) ==> #[trigger] s[j] != '/',
    decreases s.len() - i,
{
    if i < s.len() && s[i] != '/' {
        lemma_next_slash(s, i + 1);
    }
}

pub open spec fn segments(s: Seq<char>) -> Seq<Seq<char>> {
    segments_from(s, 0)
}

pub open spec fn dot() -> Seq<char> {
    seq!['.']
}

pub open spec fn dot_dot() -> Seq<char> {
    seq!['.', '.']
}

/// The names left after walking the segments: `..` drops the last name (when there is
/// one), `.` and empty segments do nothing, any other segment is a name.
pub open spec fn walk_names(names: Seq<Seq<char>>, segs: Seq<Seq<char>>) -> Seq<Seq<char>>
    decreases segs.len(),
{
    if segs.len() == 0 {
        names
    } else {
        let seg = segs[0];
        let next = if seg == dot_dot() {
            if names.len() > 0 {
                names.drop_last()
            } else {
                names
            }
        } else if seg.len() == 0 || seg == dot() {
            names
        } else {
            names.push(seg)
        };
        walk_names(next, segs.drop_first())
    }
}

/// The names joined by `/`.
pub open spec fn joined(names: Seq<Seq<char>>) -> Seq<char>
    decreases names.len(),
{
    if names.len() == 0 {
        Seq::empty()
    } else if names.len() == 1 {
        names[0]
    } else {
        joined(names.drop_last()) + seq!['/'] + names.last()
    }
}

pub open spec fn is_absolute(s: Seq<char>) -> bool {
    s.len() > 0 && s[0] == '/'
}

/// `path` with `..` and `.` resolved lexically, as `normalize` does.
pub open spec fn normalized(path: Seq<char>) -> Seq<char> {
    let names = walk_names(Seq::empty(), segments(path));
    if is_absolute(path) {
        seq!['/'] + joined(names)
    } else {
        joined(names)
    }
}

/// Resolves `..` and `.` without touching the disk (the path may not exist yet).
pub fn normalize(path: &str) -> (r: String)
    ensures
        r@ == normalized(path@),
{
    let s = chars_of(path);
    let dd = vec!['.', '.'];
    let d = vec!['.'];
    let mut names: Vec<Vec<char>> = Vec::new();
    let mut i: usize = 0;
    let ghost segs = segments(s@);
    proof {
        assert(dd@ =~= dot_dot());
        assert(d@ =~= dot());
        assert(names@.map_values(|v: Vec<char>| v@) =~= Seq::<Seq<char>>::empty());
    }
    loop
        invariant_except_break
            i <= s@.len(),
            s@ == path@,
            dd@ == dot_dot(),
            d@ == dot(),
            segs == segments(s@),
            walk_names(Seq::empty(), segs) == walk_names(
                names@.map_values(|v: Vec<char>| v@),
                segments_from(s@, i as int),
            ),
        ensures
            s@ == path@,
            walk_names(Seq::empty(), segments(s@)) == names@.map_values(|v: Vec<char>| v@),
        decreases s@.len() - i,
    {
        let mut e = i;
        while e < s.len() && s[e] != '/'
            invariant
                i <= e <= s@.len(),
                next_slash(s@, i as int) == next_slash(s@, e as int),
            decreases s@.len() - e,
        {
            e += 1;
        }
        proof {
            lemma_next_slash(s@, i as int);
        }
        let seg = slice(&s, i, e);
        let ghost before = names@.map_values(|v: Vec<char>| v@);
        let ghost rest = if e >= s.len() { Seq::<Seq<char>>::empty() } else { segments_from(s@, e + 1) };
        proof {
            if e >= s.len() {
                assert(segments_from(s@, i as int) =~= seq![seg@]);
            }
            assert(segments_from(s@, i as int).drop_first() =~= rest);
            assert(segments_from(s@, i as int)[0] == seg@);
            assert(segments_from(s@, i as int).len() > 0);
        }
        if same(&seg, &dd) {
            if names.len() > 0 {
                names.pop();
                assert(names@.map_values(|v: Vec<char>| v@) =~= before.drop_last());
            }
        } else if seg.len() == 0 || same(&seg, &d) {
        } else {
            names.push(seg);
            assert(names@.map_values(|v: Vec<char>| v@) =~= before.push(s@.subrange(i as int, e as int)));
        }
        assert(walk_names(before, segments_from(s@, i as int)) == walk_names(names@.map_values(|v: Vec<char>| v@), rest));
        if e >= s.len() {
            assert(walk_names(names@.map_values(|v: Vec<char>| v@), rest) == names@.map_values(|v: Vec<char>| v@));
            break;
        }
        i = e + 1;
    }
    let ghost ns = names@.map_values(|v: Vec<char>| v@);
    let mut out: Vec<char> = Vec::new();
    if s.len() > 0 && s[0] == '/' {
        out.push('/');
    }
    let ghost prefix = out@;
    let mut k: usize = 0;
    while k < names.len()
        invariant
            k <= names@.len(),
            ns == names@.map_values(|v: Vec<char>| v@),
            out@ == prefix + joined(ns.take(k as int)),
        decreases names@.len() - k,
    {
        let ghost before = out@;
        if k > 0 {
            out.push('/');
        }
        let mut m: usize = 0;
        while m < names[k].len()
            invariant
                k < names@.len(),
                m <= names@[k as int]@.len(),
                out@ == before + (if k > 0 { seq!['/'] } else { Seq::empty() }) + names@[k as int]@.take(m as int),
            decreases names@[k as int]@.len() - m,
        {
            out.push(names[k][m]);
            m += 1;
            assert(out@ =~= before + (if k > 0 { seq!['/'] } else { Seq::empty() }) + names@[k as int]@.take(m as int));
        }
        proof {
            assert(names@[k as int]@.take(m as int) =~= names@[k as int]@);
            assert(ns.take(k + 1).drop_last() =~= ns.take(k as int));
            assert(ns.take(k + 1).last() == names@[k as int]@);
            if k == 0 {
                assert(ns.take(1) =~= seq![names@[0]@]);
                assert(joined(ns.take(1)) == names@[0]@);
                assert(out@ =~= prefix + joined(ns.take(k + 1)));
            } else {
                assert(out@ =~= prefix + joined(ns.take(k + 1)));
            }
        }
        k += 1;
    }
    proof {
        assert(ns.take(ns.len() as int) =~= ns);
    }
    string_of(&out)
}

/// `base.join(rel)`: `rel` itself when it is absolute, otherwise appended after a `/`
/// (none is added after an empty base or one already ending in `/`).
pub open spec fn joined_path(base: Seq<char>, rel: Seq<char>) -> Seq<char> {
    if is_absolute(rel) {
        rel
    } else if base.len() == 0 || base.last() == '/' {
        base + rel
    } else {
        base + seq!['/'] + rel
    }
}

/// `Path::join` on text paths.
pub fn join(base: &str, rel: &str) -> (r: String)
    ensures
        r@ == joined_path(base@, rel@),
{
    let b = chars_of(base);
    let mut v = chars_of(rel);
    if v.len() > 0 && v[0] == '/' {
        return string_of(&v);
    }
    let mut out = b;
    if out.len() > 0 && out[out.len() - 1] != '/' {
        out.push('/');
    }
    out.append(&mut v);
    string_of(&out)
}

/// The last name among `segs` (empty segments and `.` are not names).
pub open spec fn last_name(segs: Seq<Seq<char>>) -> Option<Seq<char>>
    decreases segs.len(),
{
    if segs.len() == 0 {
        None
    } else {
        match last_name(segs.drop_first()) {
            Some(x) => Some(x),
            None => if segs[0].len() > 0 && segs[0] != dot() {
                Some(segs[0])
            } else {
                None
            },
        }
    }
}

/// The last name of a path (`Path::file_name`): `None` when the path ends in `..` or has
/// no name at all (`/`, empty).
pub open spec fn file_name_of(path: Seq<char>) -> Option<Seq<char>> {
    match last_name(segments(path)) {
        Some(n) => if n == dot_dot() {
            None
        } else {
            Some(n)
        },
        None => None,
    }
}

pub open spec fn opt_chars(o: Option<Vec<char>>) -> Option<Seq<char>> {
    match o {
        Some(v) => Some(v@),
        None => None,
    }
}

/// `Path::file_name` on text paths.
pub fn file_name(path: &str) -> (r: Option<String>)
    ensures
        r matches Some(n) ==> file_name_of(path@) == Some(n@),
        r is None ==> file_name_of(path@) is None,
{
    let s = chars_of(path);
    let dd = vec!['.', '.'];
    let d = vec!['.'];
    let mut last: Option<Vec<char>> = None;
    let mut i: usize = 0;
    proof {
        assert(dd@ =~= dot_dot());
        assert(d@ =~= dot());
    }
    loop
        invariant_except_break
            i <= s@.len(),
            s@ == path@,
            dd@ == dot_dot(),
            d@ == dot(),
            last_name(segments(s@)) == (match last_name(segments_from(s@, i as int)) {
                Some(x) => Some(x),
                None => opt_chars(last),
            }),
        ensures
            s@ == path@,
            dd@ == dot_dot(),
            last_name(segments(s@)) == opt_chars(last),
        decreases s@.len() - i,
    {
        let mut e = i;
        while e < s.len() && s[e] != '/'
            invariant
                i <= e <= s@.len(),
                next_slash(s@, i as int) == next_slash(s@, e as int),
            decreases s@.len() - e,
        {
            e += 1;
        }
        proof {
            lemma_next_slash(s@, i as int);
        }
        let seg = slice(&s, i, e);
        let ghost rest = if e >= s.len() { Seq::<Seq<char>>::empty() } else { segments_from(s@, e + 1) };
        proof {
            if e >= s.len() {
                assert(segments_from(s@, i as int) =~= seq![seg@]);
            }
            assert(segments_from(s@, i as int).drop_first() =~= rest);
            assert(segments_from(s@, i as int)[0] == seg@);
        }
        if seg.len() > 0 && !same(&seg, &d) {
            last = Some(seg);
        }
        if e >= s.len() {
            assert(last_name(rest) is None);
            break;
        }
        assert(last_name(segments_from(s@, i as int)) == (match last_name(rest) { Some(x) => Some(x), None => if seg@.len() > 0 && seg@ != dot() { Some(seg@) } else { None } }));
        i = e + 1;
    }
    match last {
        Some(v) => if same(&v, &dd) {
            None
        } else {
            Some(string_of(&v))
        },
        None => None,
    }
}

/// A message of a running action.
#[derive(Debug)]
pub enum Msg {
    /// Current step (command started, file copied…).
    Info(String),
    /// A step completed.
    Success(String),
    Warn(String),
    /// Line produced by the command itself.
    Out(String),
    /// End of the action: `Some(error)` when it failed.
    Done(Option<String>),
}

/// Lines kept of an action's output: a test suite or a chatty `docker compose up` must
/// not grow memory without bound.
pub const MAX_LINES: usize = 5000;

/// The output of a running (or finished) action, as shown in a panel: its last
/// `MAX_LINES` lines.
#[derive(Debug)]
pub struct Log {
    lines: Vec<Msg>,
    running: bool,
    failed: bool,
}

/// The last `MAX_LINES` of `lines`.
pub open spec fn last_lines(lines: Seq<Msg>) -> Seq<Msg> {
    if lines.len() > MAX_LINES {
        lines.skip(lines.len() - MAX_LINES)
    } else {
        lines
    }
}

impl Log {
    #[verifier::type_invariant]
    closed spec fn bounded(&self) -> bool {
        self.lines@.len() <= MAX_LINES
    }

    /// The lines kept.
    pub closed spec fn kept(&self) -> Seq<Msg> {
        self.lines@
    }

    /// Is the action still running?
    pub closed spec fn is_running(&self) -> bool {
        self.running
    }

    /// Has the action failed?
    pub closed spec fn has_failed(&self) -> bool {
        self.failed
    }

    /// Is the action still running?
    pub fn running(&self) -> (r: bool)
        ensures
            r == self.is_running(),
    {
        self.running
    }

    /// Has the action failed?
    pub fn failed(&self) -> (r: bool)
        ensures
            r == self.has_failed(),
    {
        self.failed
    }

    /// An empty log of a running action.
    pub fn new() -> (r: Log)
        ensures
            r.kept().len() == 0,
            r.is_running(),
            !r.has_failed(),
    {
        Log { lines: Vec::new(), running: true, failed: false }
    }

    /// The lines kept, oldest first.
    pub fn lines(&self) -> (r: &Vec<Msg>)
        ensures
            r@ == self.kept(),
            r@.len() <= MAX_LINES,
    {
        proof {
            use_type_invariant(self);
        }
        &self.lines
    }

    /// Adds a line, dropping the oldest when the log is full.
    pub fn push(&mut self, line: Msg)
        ensures
            final(self).kept() == last_lines(old(self).kept().push(line)),
            final(self).is_running() == old(self).is_running(),
            final(self).has_failed() == old(self).has_failed(),
    {
        proof {
            use_type_invariant(&*self);
        }
        let mut lines = Vec::new();
        std::mem::swap(&mut lines, &mut self.lines);
        let ghost before = lines@;
        lines.push(line);
        if lines.len() > MAX_LINES {
            lines.remove(0);
            assert(lines@ =~= before.push(line).skip(1));
        }
        self.lines = lines;
    }

    /// The action ended, in failure or not.
    pub fn finish(&mut self, failed: bool)
        ensures
            final(self).kept() == old(self).kept(),
            !final(self).is_running(),
            final(self).has_failed() == (old(self).has_failed() || failed),
    {
        proof {
            use_type_invariant(&*self);
        }
        self.running = false;
        if failed {
            self.failed = true;
        }
    }
}

} // verus!
