//! What is read from `git` and what is asked of it.
//!
//! No libgit2: worktrees are exactly what `git worktree` does. Running git is the
//! application's part; this module reads what git prints and decides which git command
//! a worktree creation takes.

use vstd::prelude::*;

use crate::config::{concat, owned};
use crate::error::Error;
use crate::text::{
    chars_of, deep, fields3, has_prefix, index_of, lemma_next_char, lines, next_char, same,
    slice, split3, split_lines, starts_with, string_of,
};

verus! {

/// A branch offered when creating a worktree.
#[derive(Debug)]
pub struct BranchInfo {
    pub name: String,
    pub date: String,
    pub subject: String,
    /// The worktree (or main repository) that has it checked out already.
    pub used_by: Option<String>,
}

/// Scanning `git worktree list --porcelain` from line `i`, the last worktree seen being
/// `current`: the worktree whose block names `branch`.
pub open spec fn holder_from(ls: Seq<Seq<char>>, i: int, current: Option<Seq<char>>, branch: Seq<char>) -> Option<Seq<char>>
    decreases ls.len() - i,
{
    if i < 0 || i >= ls.len() {
        None
    } else if starts_with(ls[i], "worktree "@) {
        holder_from(ls, i + 1, Some(ls[i].skip(9)), branch)
    } else if ls[i] == "branch refs/heads/"@ + branch {
        current
    } else {
        holder_from(ls, i + 1, current, branch)
    }
}

/// The worktree holding `branch`, from `git worktree list --porcelain`'s output.
pub open spec fn holder(porcelain: Seq<char>, branch: Seq<char>) -> Option<Seq<char>> {
    holder_from(lines(porcelain), 0, None, branch)
}

/// Path of the worktree (or main repository) that already has `branch` checked out,
/// read from `git worktree list --porcelain`'s output. Git refuses two checkouts of the
/// same branch, so this is said before trying.
pub fn branch_worktree(porcelain: &str, branch: &str) -> (r: Option<String>)
    ensures
        r matches Some(p) ==> holder(porcelain@, branch@) == Some(p@),
        r is None ==> holder(porcelain@, branch@) is None,
{
    let ls = split_lines(&chars_of(porcelain));
    let head = chars_of("worktree ");
    proof {
        reveal_strlit("worktree ");
    }
    let wanted = chars_of(concat("branch refs/heads/", branch).as_str());
    let mut current: Option<Vec<char>> = None;
    let mut i: usize = 0;
    while i < ls.len()
        invariant
            i <= ls@.len(),
            deep(ls@) == lines(porcelain@),
            head@ == "worktree "@,
            head@.len() == 9,
            wanted@ == "branch refs/heads/"@ + branch@,
            holder(porcelain@, branch@) == holder_from(deep(ls@), i as int, match current {
                Some(c) => Some(c@),
                None => None,
            }, branch@),
        decreases ls@.len() - i,
    {
        let line = &ls[i];
        assert(deep(ls@)[i as int] == line@);
        if has_prefix(line, &head) {
            current = Some(slice(line, 9, line.len()));
            assert(current.unwrap()@ =~= line@.skip(9));
        } else if same(line, &wanted) {
            return match current {
                Some(c) => Some(string_of(&c)),
                None => None,
            };
        }
        i += 1;
    }
    None
}

/// The branch behind a remote name: what follows the first `/` (`origin/foo` -> `foo`),
/// or the name itself.
pub open spec fn local_name(branch: Seq<char>) -> Seq<char> {
    let i = next_char(branch, '/', 0);
    if i < branch.len() {
        branch.skip(i + 1)
    } else {
        branch
    }
}

/// The local branch a remote branch is checked out as.
pub fn remote_local_name(branch: &str) -> (r: String)
    ensures
        r@ == local_name(branch@),
{
    let b = chars_of(branch);
    let i = index_of(&b, '/', 0);
    proof {
        lemma_next_char(b@, '/', 0);
    }
    if i < b.len() {
        let rest = slice(&b, i + 1, b.len());
        assert(rest@ =~= b@.skip(i + 1));
        string_of(&rest)
    } else {
        owned(branch)
    }
}

/// Is a branch listed by `for-each-ref` worth offering? Not `origin` nor `origin/HEAD`
/// (the remote's HEAD, no branch), nor a remote branch already present locally.
pub open spec fn offered(name: Seq<char>, locals: Seq<Seq<char>>) -> bool {
    &&& name != "origin"@
    &&& name != "origin/HEAD"@
    &&& !(starts_with(name, "origin/"@) && locals.contains(name.skip(7)))
}

/// A branch as its four texts.
pub open spec fn branch_view(b: BranchInfo) -> (Seq<char>, Seq<char>, Seq<char>, Option<Seq<char>>) {
    (b.name@, b.date@, b.subject@, match b.used_by {
        Some(p) => Some(p@),
        None => None,
    })
}

/// The branches offered, from `name|date|subject` lines, with the worktree holding each
/// (when the worktree list could be read).
pub open spec fn offered_branches(ls: Seq<Seq<char>>, locals: Seq<Seq<char>>, porcelain: Option<Seq<char>>) -> Seq<(Seq<char>, Seq<char>, Seq<char>, Option<Seq<char>>)>
    decreases ls.len(),
{
    if ls.len() == 0 {
        Seq::empty()
    } else {
        let rest = offered_branches(ls.drop_last(), locals, porcelain);
        let f = split3(ls.last(), '|');
        if offered(f.0, locals) {
            rest.push((f.0, f.1, f.2, match porcelain {
                Some(p) => holder(p, f.0),
                None => None,
            }))
        } else {
            rest
        }
    }
}

/// Is `name` one of `names`?
fn among(names: &Vec<Vec<char>>, name: &[char]) -> (r: bool)
    ensures
        r == deep(names@).contains(name@),
{
    let mut i: usize = 0;
    while i < names.len()
        invariant
            i <= names@.len(),
            forall|j: int| 0 <= j < i ==> deep(names@)[j] != name@,
        decreases names@.len() - i,
    {
        if same(&names[i], name) {
            assert(deep(names@)[i as int] == name@);
            return true;
        }
        i += 1;
    }
    false
}

/// Branches offered at creation time: local branches first, then remote ones, each
/// group most recent first. `locals` lists the local branches one per line;
/// `local_raw` and `remote_raw` are `git for-each-ref --sort=-committerdate`'s
/// `name|date|subject` lines over `refs/heads` and over `refs/remotes/origin`;
/// `porcelain` is `git worktree list --porcelain`'s output, when it could be read. A
/// remote already present locally is left out as a pointless duplicate.
pub fn branches(locals: &str, local_raw: &str, remote_raw: &str, porcelain: Option<&str>) -> (r: Vec<BranchInfo>)
    ensures
        r@.map_values(|b: BranchInfo| branch_view(b)) == offered_branches(lines(local_raw@) + lines(remote_raw@), lines(locals@), match porcelain {
            Some(p) => Some(p@),
            None => None,
        }),
{
    let local_names = split_lines(&chars_of(locals));
    let mut ls = split_lines(&chars_of(local_raw));
    let mut rs = split_lines(&chars_of(remote_raw));
    let ghost (a, b) = (ls@, rs@);
    ls.append(&mut rs);
    assert(deep(ls@) =~= deep(a) + deep(b));
    let ghost po = match porcelain {
        Some(p) => Some(p@),
        None => None::<Seq<char>>,
    };
    let origin = chars_of("origin");
    let origin_head = chars_of("origin/HEAD");
    let prefix = chars_of("origin/");
    proof {
        reveal_strlit("origin/");
    }
    let mut out: Vec<BranchInfo> = Vec::new();
    let mut i: usize = 0;
    while i < ls.len()
        invariant
            i <= ls@.len(),
            deep(ls@) == lines(local_raw@) + lines(remote_raw@),
            deep(local_names@) == lines(locals@),
            origin@ == "origin"@,
            origin_head@ == "origin/HEAD"@,
            prefix@ == "origin/"@,
            prefix@.len() == 7,
            po == match porcelain {
                Some(p) => Some(p@),
                None => None::<Seq<char>>,
            },
            out@.map_values(|b: BranchInfo| branch_view(b)) == offered_branches(deep(ls@).take(i as int), lines(locals@), po),
        decreases ls@.len() - i,
    {
        let line = &ls[i];
        proof {
            assert(deep(ls@).take(i + 1).drop_last() =~= deep(ls@).take(i as int));
            assert(deep(ls@).take(i + 1).last() == line@);
        }
        let (name, date, subject) = fields3(line, '|');
        let mut keep = !same(&name, &origin) && !same(&name, &origin_head);
        if keep && has_prefix(&name, &prefix) {
            let short = slice(&name, 7, name.len());
            assert(short@ =~= name@.skip(7));
            if among(&local_names, &short) {
                keep = false;
            }
        }
        let ghost before = out@;
        if keep {
            let n = string_of(&name);
            let used_by = match porcelain {
                Some(p) => branch_worktree(p, n.as_str()),
                None => None,
            };
            out.push(BranchInfo { name: n, date: string_of(&date), subject: string_of(&subject), used_by });
            assert(out@.map_values(|b: BranchInfo| branch_view(b)) =~= before.map_values(|b: BranchInfo| branch_view(b)).push(branch_view(out@.last())));
        }
        i += 1;
    }
    assert(deep(ls@).take(ls@.len() as int) =~= deep(ls@));
    out
}

/// The texts of a list of arguments.
pub open spec fn args_view(v: Seq<String>) -> Seq<Seq<char>> {
    v.map_values(|s: String| s@)
}

/// The `git` arguments creating the worktree at `path` for `branch`, by what git said
/// of it:
/// - a local branch (`local_exists`) is checked out as it is, unless a worktree
///   (`holder`) has it already, or a start point is given: a start point cannot rewrite
///   where an existing branch begins;
/// - a remote branch (`remote_exists`, `origin/foo`) becomes a local branch `foo`
///   tracking it, unless a local `foo` exists already (`local_exists_for_remote`), or a
///   start point is given;
/// - any other name is a new branch, started from `from` (the main repository's HEAD
///   without one).
pub fn worktree_add(
    path: &str,
    branch: &str,
    from: Option<&str>,
    local_exists: bool,
    holder: Option<&str>,
    remote_exists: bool,
    local_exists_for_remote: bool,
) -> (r: Result<Vec<String>, Error>)
    ensures
        local_exists ==> match holder {
            Some(h) => r matches Err(e) && e matches Error::BranchInUse { branch: b, path: p } && b@ == branch@ && p@ == h@,
            None => match from {
                Some(_) => r matches Err(e) && e matches Error::BranchExists(b) && b@ == branch@,
                None => r matches Ok(a) && args_view(a@) == seq!["worktree"@, "add"@, path@, branch@],
            },
        },
        !local_exists && remote_exists ==> if local_exists_for_remote {
            r matches Err(e) && e matches Error::LocalBranchExists(b) && b@ == local_name(branch@)
        } else {
            match from {
                Some(_) => r matches Err(e) && e matches Error::BranchExists(b) && b@ == branch@,
                None => r matches Ok(a) && args_view(a@) == seq!["worktree"@, "add"@, path@, "-b"@, local_name(branch@), "--track"@, branch@],
            }
        },
        !local_exists && !remote_exists ==> match from {
            Some(f) => r matches Ok(a) && args_view(a@) == seq!["worktree"@, "add"@, path@, "-b"@, branch@, f@],
            None => r matches Ok(a) && args_view(a@) == seq!["worktree"@, "add"@, path@, "-b"@, branch@],
        },
{
    if local_exists {
        if let Some(h) = holder {
            return Err(Error::BranchInUse { branch: owned(branch), path: owned(h) });
        }
        if from.is_some() {
            return Err(Error::BranchExists(owned(branch)));
        }
        let a = vec![owned("worktree"), owned("add"), owned(path), owned(branch)];
        assert(args_view(a@) =~= seq!["worktree"@, "add"@, path@, branch@]);
        return Ok(a);
    }
    if remote_exists {
        let local = remote_local_name(branch);
        if local_exists_for_remote {
            return Err(Error::LocalBranchExists(local));
        }
        if from.is_some() {
            return Err(Error::BranchExists(owned(branch)));
        }
        let a = vec![owned("worktree"), owned("add"), owned(path), owned("-b"), local, owned("--track"), owned(branch)];
        assert(args_view(a@) =~= seq!["worktree"@, "add"@, path@, "-b"@, local_name(branch@), "--track"@, branch@]);
        return Ok(a);
    }
    match from {
        Some(f) => {
            let a = vec![owned("worktree"), owned("add"), owned(path), owned("-b"), owned(branch), owned(f)];
            assert(args_view(a@) =~= seq!["worktree"@, "add"@, path@, "-b"@, branch@, f@]);
            Ok(a)
        },
        None => {
            let a = vec![owned("worktree"), owned("add"), owned(path), owned("-b"), owned(branch)];
            assert(args_view(a@) =~= seq!["worktree"@, "add"@, path@, "-b"@, branch@]);
            Ok(a)
        },
    }
}

/// Does `git remote`'s answer (one remote per line) name an `origin`?
pub open spec fn names_origin(remotes: Seq<char>) -> bool {
    exists|i: int| 0 <= i < lines(remotes).len() && crate::text::trim(#[trigger] lines(remotes)[i]) == "origin"@
}

/// Whether the repository has an `origin` remote, from `git remote`'s answer.
pub fn has_origin(remotes: &str) -> (r: bool)
    ensures
        r == names_origin(remotes@),
{
    let ls = split_lines(&chars_of(remotes));
    let origin = chars_of("origin");
    let mut i: usize = 0;
    while i < ls.len()
        invariant
            i <= ls@.len(),
            deep(ls@) == lines(remotes@),
            origin@ == "origin"@,
            forall|j: int| 0 <= j < i ==> crate::text::trim(#[trigger] lines(remotes@)[j]) != "origin"@,
        decreases ls@.len() - i,
    {
        let t = crate::text::trimmed(&ls[i]);
        assert(deep(ls@)[i as int] == ls@[i as int]@);
        if same(&t, &origin) {
            return true;
        }
        i += 1;
    }
    false
}

/// The `git config` settings wiring a fresh branch to `origin/<branch>`, so that its
/// first `git push` needs no `-u origin …`: none without an `origin` remote (nothing is
/// invented), nor for a branch that tracks something already (one created from an
/// `origin/…` start point keeps the tracking git set up).
pub fn upstream(branch: &str, has_origin: bool, tracking: bool) -> (r: Vec<(String, String)>)
    ensures
        !(has_origin && !tracking) ==> r@.len() == 0,
        has_origin && !tracking ==> r@.len() == 2
            && r@[0].0@ == "branch."@ + branch@ + ".remote"@ && r@[0].1@ == "origin"@
            && r@[1].0@ == "branch."@ + branch@ + ".merge"@ && r@[1].1@ == "refs/heads/"@ + branch@,
        settings_view(r@) == upstream_of(branch@, has_origin, tracking),
{
    if !has_origin || tracking {
        let v: Vec<(String, String)> = Vec::new();
        assert(settings_view(v@) =~= upstream_of(branch@, has_origin, tracking));
        return v;
    }
    let section = concat("branch.", branch);
    let remote_key = concat(section.as_str(), ".remote");
    let merge_key = concat(section.as_str(), ".merge");
    let merge = concat("refs/heads/", branch);
    let r = vec![(remote_key, owned("origin")), (merge_key, merge)];
    assert(settings_view(r@) =~= upstream_of(branch@, has_origin, tracking));
    r
}

/// The settings `upstream` gives, as pairs of texts.
pub open spec fn upstream_of(branch: Seq<char>, has_origin: bool, tracking: bool) -> Seq<(Seq<char>, Seq<char>)> {
    if has_origin && !tracking {
        seq![("branch."@ + branch + ".remote"@, "origin"@), ("branch."@ + branch + ".merge"@, "refs/heads/"@ + branch)]
    } else {
        Seq::empty()
    }
}

/// Key and value of each setting.
pub open spec fn settings_view(r: Seq<(String, String)>) -> Seq<(Seq<char>, Seq<char>)> {
    r.map_values(|p: (String, String)| (p.0@, p.1@))
}

/// The `git config` settings to apply once `worktree_add`'s command has run for
/// `branch`: only a branch that command created (it existed neither locally nor as a
/// remote-tracking ref) is wired to `origin`, as `upstream` says; a branch that was
/// already there keeps whatever configuration it had.
pub fn new_branch_settings(
    branch: &str,
    local_exists: bool,
    remote_exists: bool,
    has_origin: bool,
    tracking: bool,
) -> (r: Vec<(String, String)>)
    ensures
        settings_view(r@) == if !local_exists && !remote_exists {
            upstream_of(branch@, has_origin, tracking)
        } else {
            Seq::empty()
        },
{
    if local_exists || remote_exists {
        let v: Vec<(String, String)> = Vec::new();
        assert(settings_view(v@) =~= Seq::<(Seq<char>, Seq<char>)>::empty());
        return v;
    }
    upstream(branch, has_origin, tracking)
}

/// The branch checked out in a worktree, from `git rev-parse --abbrev-ref HEAD`'s
/// answer: `?` when git could not say.
pub fn current_branch(answer: Option<String>) -> (r: String)
    ensures
        r@ == match answer {
            Some(b) => b@,
            None => "?"@,
        },
{
    match answer {
        Some(b) => b,
        None => owned("?"),
    }
}

/// The last commit of a worktree (`git log -1 --format=%h %s`'s answer), nothing when
/// git could not say.
pub fn head_commit(answer: Option<String>) -> (r: String)
    ensures
        r@ == match answer {
            Some(c) => c@,
            None => Seq::<char>::empty(),
        },
{
    match answer {
        Some(c) => c,
        None => String::new(),
    }
}

/// The uncommitted changes of a worktree (`git status --short`'s answer), nothing when
/// git could not say.
pub fn status_short(answer: Option<String>) -> (r: String)
    ensures
        r@ == match answer {
            Some(c) => c@,
            None => Seq::<char>::empty(),
        },
{
    match answer {
        Some(c) => c,
        None => String::new(),
    }
}

/// The `git show-ref` arguments asking whether a branch exists: a local one
/// (`refs/heads/<branch>`), or a remote one (`refs/remotes/<branch>`).
pub fn branch_query(branch: &str, remote: bool) -> (r: Vec<String>)
    ensures
        args_view(r@) == seq!["show-ref"@, "--verify"@, "--quiet"@, (if remote { "refs/remotes/"@ } else { "refs/heads/"@ }) + branch@],
{
    let name = if remote { concat("refs/remotes/", branch) } else { concat("refs/heads/", branch) };
    let a = vec![owned("show-ref"), owned("--verify"), owned("--quiet"), name];
    assert(args_view(a@) =~= seq!["show-ref"@, "--verify"@, "--quiet"@, (if remote { "refs/remotes/"@ } else { "refs/heads/"@ }) + branch@]);
    a
}

/// The arguments of the `git` commands that remove the worktree at `path`.
pub open spec fn removal(path: Seq<char>) -> Seq<Seq<Seq<char>>> {
    seq![seq!["worktree"@, "remove"@, "--force"@, path], seq!["worktree"@, "prune"@]]
}

/// The `git` commands removing the worktree at `path`: forcibly (what it holds beyond
/// the branch is the user's to lose, and was asked), then pruning what git keeps of it.
pub fn worktree_remove(path: &str) -> (r: Vec<Vec<String>>)
    ensures
        r@.len() == 2,
        args_view(r@[0]@) == removal(path@)[0],
        args_view(r@[1]@) == removal(path@)[1],
{
    let a = vec![owned("worktree"), owned("remove"), owned("--force"), owned(path)];
    let b = vec![owned("worktree"), owned("prune")];
    assert(args_view(a@) =~= seq!["worktree"@, "remove"@, "--force"@, path@]);
    assert(args_view(b@) =~= seq!["worktree"@, "prune"@]);
    vec![a, b]
}

/// Removing a worktree leaves its branch alone: both commands are `git worktree`
/// subcommands acting on the worktree's directory and git's records of it, and none
/// of them is a `git branch` command.
pub proof fn law_removal_runs_only_worktree_commands(path: Seq<char>)
    ensures
        removal(path).len() == 2,
        forall|i: int| 0 <= i < removal(path).len() ==> (#[trigger] removal(path)[i])[0] == "worktree"@,
        forall|i: int, j: int| 0 <= i < removal(path).len() && 0 <= j < removal(path)[i].len() && j < 2
            ==> (#[trigger] removal(path)[i][j]) != "branch"@,
{
    reveal_strlit("worktree");
    reveal_strlit("branch");
    reveal_strlit("remove");
    reveal_strlit("prune");
    assert("worktree"@[0] == 'w');
    assert("remove"@[0] == 'r');
    assert("branch"@[0] == 'b');
    assert("prune"@[0] == 'p');
}

/// Where the last `/` of `path` is, -1 without one.
pub open spec fn last_slash(path: Seq<char>) -> int
    decreases path.len(),
{
    if path.len() == 0 {
        -1
    } else if path.last() == '/' {
        path.len() - 1
    } else {
        last_slash(path.drop_last())
    }
}

/// The directory holding the entry `path` names (`path` being absolute and clean, as
/// a resolved path is): what comes before its last `/`, the root for an entry of the
/// root; nothing for the root itself or an empty path.
pub open spec fn parent_dir(path: Seq<char>) -> Option<Seq<char>> {
    let k = last_slash(path);
    if path.len() == 0 || path == seq!['/'] {
        None
    } else if k < 0 {
        Some(Seq::empty())
    } else if k == 0 {
        Some(seq!['/'])
    } else {
        Some(path.take(k))
    }
}

/// The repository's common directory as git names it (`git rev-parse --git-common-dir`),
/// made absolute from `start`, the directory git was asked in.
pub fn common_dir(start: &str, answer: &str) -> (r: String)
    ensures
        r@ == crate::util::joined_path(start@, answer@),
{
    crate::util::join(start, answer)
}

/// Root of the main repository, from its common directory once resolved: the directory
/// holding it. Even called from a worktree, `--git-common-dir` points at the original
/// repository's `.git`.
pub fn main_repo(common: &str) -> (r: Result<String, Error>)
    ensures
        parent_dir(common@) is None <==> r is Err,
        r matches Ok(p) ==> parent_dir(common@) == Some(p@),
        r matches Err(e) ==> e matches Error::NoMainRepo,
{
    let c = chars_of(common);
    let n = c.len();
    if n == 0 || (n == 1 && c[0] == '/') {
        if n == 1 {
            assert(c@ =~= seq!['/']);
        }
        return Err(Error::NoMainRepo);
    }
    assert(c@ != seq!['/']) by {
        if n == 1 {
            assert(c@[0] != '/');
        }
    }
    let mut i: usize = n;
    assert(c@.take(n as int) =~= c@);
    while i > 0
        invariant
            i <= c@.len(),
            c@.len() == n,
            last_slash(c@) == last_slash(c@.take(i as int)),
        ensures
            i <= c@.len(),
            last_slash(c@) == last_slash(c@.take(i as int)),
            i > 0 ==> c@[i - 1] == '/',
        decreases i,
    {
        if c[i - 1] == '/' {
            break;
        }
        assert(c@.take(i as int).drop_last() =~= c@.take(i - 1));
        i -= 1;
    }
    if i == 0 {
        assert(c@.take(0) =~= Seq::<char>::empty());
        return Ok(String::new());
    }
    assert(c@.take(i as int).last() == '/');
    assert(last_slash(c@.take(i as int)) == i - 1);
    if i == 1 {
        let root = vec!['/'];
        assert(root@ =~= seq!['/']);
        return Ok(string_of(&root));
    }
    let head = slice(&c, 0, i - 1);
    Ok(string_of(&head))
}

} // verus!
