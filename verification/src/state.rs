//! Persistent per-worktree state: branch, allocated ports, options of the last `up`.
//!
//! Stored in `<root>/.wt/<slug>.toml`, next to the worktrees rather than inside them:
//! the checkout stays clean and the state survives a branch change. Reading and
//! writing that file is the application's part; what it holds, and what the templates
//! and hooks make of it, is here.

use vstd::prelude::*;

use crate::config::{concat, owned, Project};
use crate::dict::{first_keys, lemma_first_keys_all, lemma_first_keys_step, Dict};
use crate::text::{ascii_upper, all_digits, ascii_digit, digits_value, number, unsigned, ascii_uppered, chars_of, find, find_from, is_ascii_text, string_of, to_uppercase, trim, trimmed, slice, upper_str, lemma_find_from, same};
use crate::tmpl::{expand, expanded, law_expand_keeps_computed_values, law_expand_keeps_every_name, Vars};
use crate::util::{join, joined_path, file_name, file_name_of};

verus! {

pub const STATE_DIR: &'static str = ".wt";

#[derive(Debug)]
pub struct WtState {
    pub branch: String,
    /// Ports frozen on first start, so they stay stable across `up`s.
    pub ports: Dict<u16>,
    /// Last set of `--set k=v` options: a bare `wt up` repeats the previous start
    /// instead of falling back to an empty configuration.
    pub opts: Dict<String>,
}

impl WtState {
    /// The state of a worktree nothing is known about yet.
    pub fn new() -> (r: WtState)
        ensures
            r.branch@.len() == 0,
            r.ports@.len() == 0,
            r.opts@.len() == 0,
    {
        WtState { branch: String::new(), ports: Dict::new(), opts: Dict::new() }
    }
}

/// A worktree present on disk.
#[derive(Debug)]
pub struct Worktree {
    pub slug: String,
    pub path: String,
    pub state: WtState,
}

/// `<root>/.wt/<slug>.toml`.
pub open spec fn state_path_of(root: Seq<char>, slug: Seq<char>) -> Seq<char> {
    joined_path(joined_path(root, ".wt"@), slug + ".toml"@)
}

/// Where a worktree's state file lives.
pub fn state_path(root: &str, slug: &str) -> (r: String)
    ensures
        r@ == state_path_of(root@, slug@),
{
    let dir = join(root, STATE_DIR);
    let file = concat(slug, ".toml");
    join(dir.as_str(), file.as_str())
}

/// Ports of the listed worktrees other than `except`, in list then name order.
pub open spec fn reserved_in(list: Seq<Worktree>, except: Seq<char>) -> Seq<u16>
    decreases list.len(),
{
    if list.len() == 0 {
        Seq::empty()
    } else {
        let w = list.last();
        reserved_in(list.drop_last(), except) + if w.slug@ == except {
            Seq::empty()
        } else {
            w.state.ports.entries().map_values(|e: (Seq<char>, u16)| e.1)
        }
    }
}

/// A port another worktree holds — started or stopped — is among those
/// `reserved_ports` lists for `except`.
pub proof fn law_other_worktrees_ports_are_reserved(list: Seq<Worktree>, except: Seq<char>, i: int, k: Seq<char>)
    requires
        0 <= i < list.len(),
        list[i].slug@ != except,
        list[i].state.ports@.contains_key(k),
    ensures
        reserved_in(list, except).contains(list[i].state.ports@[k]),
    decreases list.len(),
{
    if i == list.len() - 1 {
        let d = list[i].state.ports;
        let e = d.entries();
        assert(crate::dict::has_key(e, k));
        let j = crate::dict::index_of(e, k);
        let vals = e.map_values(|x: (Seq<char>, u16)| x.1);
        assert(vals[j] == d@[k]);
        assert(reserved_in(list, except) == reserved_in(list.drop_last(), except) + vals);
        assert((reserved_in(list.drop_last(), except) + vals)[reserved_in(list.drop_last(), except).len() + j] == d@[k]);
    } else {
        law_other_worktrees_ports_are_reserved(list.drop_last(), except, i, k);
        let r = reserved_in(list.drop_last(), except);
        let x = choose|t: int| 0 <= t < r.len() && r[t] == list[i].state.ports@[k];
        assert(reserved_in(list, except)[x] == r[x]);
    }
}

/// Ports already reserved by other worktrees, stopped ones included.
pub fn reserved_ports(list: &Vec<Worktree>, except: &str) -> (r: Vec<u16>)
    ensures
        r@ == reserved_in(list@, except@),
{
    let mut out: Vec<u16> = Vec::new();
    let mut i: usize = 0;
    while i < list.len()
        invariant
            i <= list@.len(),
            out@ == reserved_in(list@.take(i as int), except@),
        decreases list@.len() - i,
    {
        let w = &list[i];
        let ghost before = out@;
        if !same(&chars_of(w.slug.as_str()), &chars_of(except)) {
            let n = w.state.ports.len();
            let mut j: usize = 0;
            while j < n
                invariant
                    n == w.state.ports.size(),
                    j <= n,
                    out@ == before + w.state.ports.entries().take(j as int).map_values(|e: (Seq<char>, u16)| e.1),
                decreases n - j,
            {
                out.push(*w.state.ports.value(j));
                j += 1;
                assert(out@ =~= before + w.state.ports.entries().take(j as int).map_values(|e: (Seq<char>, u16)| e.1));
            }
            assert(w.state.ports.entries().take(n as int) =~= w.state.ports.entries());
        } else {
            assert(out@ =~= before + Seq::<u16>::empty());
        }
        assert(list@.take(i + 1).drop_last() =~= list@.take(i as int));
        i += 1;
    }
    assert(list@.take(list@.len() as int) =~= list@);
    out
}

/// Decimal digits of `n`.
pub open spec fn decimal(n: nat) -> Seq<char>
    decreases n,
{
    if n < 10 {
        seq![digit(n)]
    } else {
        decimal(n / 10) + seq![digit(n % 10)]
    }
}

pub open spec fn digit(d: nat) -> char {
    if d == 0 { '0' } else if d == 1 { '1' } else if d == 2 { '2' } else if d == 3 { '3' } else if d == 4 { '4' }
    else if d == 5 { '5' } else if d == 6 { '6' } else if d == 7 { '7' } else if d == 8 { '8' } else { '9' }
}

/// A number written out reads back as the same number: every character is a decimal
/// digit, standing for its own value, the first one nonzero unless the number is 0.
pub proof fn law_a_written_number_reads_back(n: nat)
    ensures
        all_digits(decimal(n)),
        digits_value(decimal(n)) == n,
        number(decimal(n)) == Some(n as int),
        decimal(n).len() > 1 ==> decimal(n)[0] != '0',
    decreases n,
{
    if n >= 10 {
        law_a_written_number_reads_back(n / 10);
        let s = decimal(n / 10);
        let t = decimal(n);
        assert(t == s + seq![digit(n % 10)]);
        assert(t.drop_last() =~= s);
        assert(t[0] == s[0]);
        if n / 10 < 10 {
            assert(s[0] == digit(n / 10));
        } else {
            assert(decimal(n / 10 / 10).len() >= 1);
            assert(s.len() > 1);
        }
        let d = n % 10;
        assert(digit(d) as int - '0' as int == d);
        assert(t.last() == digit(d));
        assert(digits_value(t) == 10 * digits_value(t.drop_last()) + (t.last() as int - '0' as int));
        assert(n == 10 * (n / 10) + d);
        assert forall|i: int| 0 <= i < t.len() implies ascii_digit(#[trigger] t[i]) by {
            if i < s.len() {
                assert(t[i] == s[i]);
            }
        }
    } else {
        let t = decimal(n);
        assert(digit(n) as int - '0' as int == n);
        assert(t.drop_last() =~= Seq::<char>::empty());
        assert(digits_value(t) == 10 * digits_value(t.drop_last()) + (t.last() as int - '0' as int));
    }
    assert(all_digits(decimal(n)));
    assert(ascii_digit(decimal(n)[0]));
    assert(unsigned(decimal(n)) == decimal(n));
    assert(number(decimal(n)) == Some(digits_value(decimal(n))));
    assert(digits_value(decimal(n)) == n);
    assert(number(decimal(n)) == Some(n as int));
}

fn digit_char(d: u16) -> (r: char)
    requires
        d < 10,
    ensures
        r == digit(d as nat),
{
    if d == 0 { '0' } else if d == 1 { '1' } else if d == 2 { '2' } else if d == 3 { '3' } else if d == 4 { '4' }
    else if d == 5 { '5' } else if d == 6 { '6' } else if d == 7 { '7' } else if d == 8 { '8' } else { '9' }
}

/// A port number written out (`u16::to_string`).
pub fn decimal_string(n: u16) -> (r: String)
    ensures
        r@ == decimal(n as nat),
{
    let mut ds: Vec<char> = Vec::new();
    let mut m = n;
    // Digits from the last one.
    while m >= 10
        invariant
            decimal(n as nat) == decimal(m as nat) + ds@,
        decreases m,
    {
        let d = digit_char(m % 10);
        let ghost before = ds@;
        ds.insert(0, d);
        assert(decimal(m as nat) == decimal((m / 10) as nat) + seq![digit((m % 10) as nat)]);
        assert(ds@ =~= seq![d] + before);
        m = m / 10;
        assert(decimal(n as nat) =~= decimal(m as nat) + ds@);
    }
    let d = digit_char(m);
    ds.insert(0, d);
    assert(ds@ =~= decimal(n as nat));
    string_of(&ds)
}

/// Names following `{{opt.` in `s` from `i` on, each up to its `}}` and trimmed, in the
/// order they appear (empty ones left out).
pub open spec fn opt_names_from(s: Seq<char>, i: int) -> Seq<Seq<char>>
    decreases s.len() - i,
{
    if i < 0 || i > s.len() {
        Seq::empty()
    } else {
        match find_from(s, "{{opt."@, i) {
            None => Seq::empty(),
            Some(p) => {
                proof {
                    lemma_find_from(s, "{{opt."@, i);
                    reveal_strlit("{{opt.");
                }
                let r = p + 6;
                match find_from(s, "}}"@, r) {
                    Some(e) => {
                        let n = trim(s.subrange(r, e));
                        proof {
                            lemma_find_from(s, "}}"@, r);
                        }
                        (if n.len() > 0 {
                            seq![n]
                        } else {
                            Seq::empty()
                        }) + opt_names_from(s, r)
                    },
                    None => opt_names_from(s, r),
                }
            },
        }
    }
}

/// `s` with later repeats left out.
pub open spec fn dedup(s: Seq<Seq<char>>) -> Seq<Seq<char>>
    decreases s.len(),
{
    if s.len() == 0 {
        Seq::empty()
    } else {
        let d = dedup(s.drop_last());
        if d.contains(s.last()) {
            d
        } else {
            d.push(s.last())
        }
    }
}

/// Options mentioned anywhere in the config text, each once, in order of first
/// mention — so missing ones can be blanked out.
pub fn declared_opts(raw: &str) -> (r: Vec<String>)
    ensures
        r@.map_values(|x: String| x@) == dedup(opt_names_from(raw@, 0)),
{
    let s = chars_of(raw);
    let open = chars_of("{{opt.");
    let close = chars_of("}}");
    proof {
        reveal_strlit("{{opt.");
        reveal_strlit("}}");
        assert(open@.len() == 6);
        assert(close@.len() == 2);
    }
    let mut found: Vec<String> = Vec::new();
    let ghost all = opt_names_from(s@, 0);
    let mut i: usize = 0;
    let ghost seen: Seq<Seq<char>> = Seq::empty();
    let slen = s.len();
    loop
        invariant_except_break
            slen == s@.len(),
            i <= s@.len(),
            s@ == raw@,
            open@ == "{{opt."@,
            open@.len() == 6,
            close@.len() == 2,
            close@ == "}}"@,
            all == opt_names_from(s@, 0),
            all == seen + opt_names_from(s@, i as int),
            found@.map_values(|x: String| x@) == dedup(seen),
        ensures
            found@.map_values(|x: String| x@) == dedup(opt_names_from(raw@, 0)),
        decreases s@.len() - i,
    {
        match find(&s, &open, i) {
            None => {
                assert(opt_names_from(s@, i as int) =~= Seq::<Seq<char>>::empty());
                assert(all =~= seen);
                break;
            },
            Some(p) => {
                proof {
                    lemma_find_from(s@, open@, i as int);
                }
                let r = p + 6;
                match find(&s, &close, r) {
                    Some(e) => {
                        proof {
                            lemma_find_from(s@, close@, r as int);
                        }
                        let name = trimmed(&slice(&s, r, e));
                        let ghost step = if name@.len() > 0 { seq![name@] } else { Seq::<Seq<char>>::empty() };
                        assert(opt_names_from(s@, i as int) == step + opt_names_from(s@, r as int));
                        if name.len() > 0 {
                            let mut present = false;
                            let mut k: usize = 0;
                            while k < found.len()
                                invariant
                                    k <= found@.len(),
                                    present == exists|t: int| 0 <= t < k && found@[t]@ == name@,
                                decreases found@.len() - k,
                            {
                                if same(&chars_of(found[k].as_str()), &name) {
                                    present = true;
                                }
                                k += 1;
                            }
                            let ghost before = found@.map_values(|x: String| x@);
                            proof {
                                assert(present == before.contains(name@)) by {
                                    if present {
                                        let t = choose|t: int| 0 <= t < found@.len() && found@[t]@ == name@;
                                        assert(before[t] == name@);
                                    }
                                    if before.contains(name@) {
                                        let t = choose|t: int| 0 <= t < before.len() && before[t] == name@;
                                        assert(found@[t]@ == name@);
                                    }
                                }
                                assert((seen + step).drop_last() =~= seen);
                                assert((seen + step).last() == name@);
                            }
                            if !present {
                                found.push(string_of(&name));
                                assert(found@.map_values(|x: String| x@) =~= before.push(name@));
                            }
                        } else {
                            assert(seen + step =~= seen);
                        }
                        proof {
                            assert(all =~= (seen + step) + opt_names_from(s@, r as int));
                            seen = seen + step;
                        }
                    },
                    None => {
                        assert(opt_names_from(s@, i as int) == opt_names_from(s@, r as int));
                    },
                }
                i = r;
            },
        }
    }
    found
}

/// `prefix` followed by each key of `m`, with `m`'s values.
pub open spec fn prefixed(prefix: Seq<char>, m: Map<Seq<char>, Seq<char>>) -> Map<Seq<char>, Seq<char>> {
    Map::new(
        |k: Seq<char>| k.len() >= prefix.len() && k.take(prefix.len() as int) == prefix && m.contains_key(k.skip(prefix.len() as int)),
        |k: Seq<char>| m[k.skip(prefix.len() as int)],
    )
}

/// The ports written out.
pub open spec fn port_texts(ports: Map<Seq<char>, u16>) -> Map<Seq<char>, Seq<char>> {
    ports.map_values(|p: u16| decimal(p as nat))
}

/// Each declared option, blank.
pub open spec fn blanks(names: Seq<Seq<char>>) -> Map<Seq<char>, Seq<char>> {
    Map::new(|k: Seq<char>| names.contains(k), |k: Seq<char>| Seq::<char>::empty())
}

/// The computed variables, before the project's own: slug, branch, paths, project
/// name, repository directory name, `port.<name>`, `opt.<name>` — and every option the
/// config mentions, blank when it was never given.
pub open spec fn computed_vars(project: &Project, root: Seq<char>, slug: Seq<char>, state: &WtState) -> Map<Seq<char>, Seq<char>> {
    let fixed = Map::<Seq<char>, Seq<char>>::empty()
        .insert("slug"@, slug)
        .insert("branch"@, state.branch@)
        .insert("main"@, project.main@)
        .insert("root"@, root)
        .insert("path"@, joined_path(root, slug))
        .insert("project"@, project.name_of())
        .insert("repo"@, match file_name_of(project.main@) { Some(n) => n, None => Seq::empty() });
    let set = fixed.union_prefer_right(prefixed("port."@, port_texts(state.ports@)))
        .union_prefer_right(prefixed("opt."@, state.opts.texts()));
    prefixed("opt."@, blanks(dedup(opt_names_from(project.source@, 0)))).union_prefer_right(set)
}

/// Every port a worktree holds is offered to its templates as `port.<name>`, written so
/// that it reads back as the same number (`{{port.vite}}` is `5173` for port 5173),
/// unless the project's own `[vars]` define that name; and `{{slug}}` is the slug.
pub proof fn law_ports_reach_templates_as_their_numbers(project: &Project, root: Seq<char>, slug: Seq<char>, state: &WtState, name: Seq<char>)
    requires
        state.ports@.contains_key(name),
        !project.config.vars.texts().contains_key("port."@ + name),
    ensures
        vars_of(project, root, slug, state).contains_key("port."@ + name),
        number(vars_of(project, root, slug, state)["port."@ + name]) == Some(state.ports@[name] as int),
        !project.config.vars.texts().contains_key("slug"@) ==> vars_of(project, root, slug, state)["slug"@] == slug,
{
    let key = "port."@ + name;
    let p = state.ports@[name];
    lemma_prefix_split("port."@, name);
    reveal_strlit("port.");
    reveal_strlit("opt.");
    reveal_strlit("slug");
    let ports = prefixed("port."@, port_texts(state.ports@));
    assert(ports.contains_key(key));
    assert(ports[key] == decimal(p as nat));
    let opts = prefixed("opt."@, state.opts.texts());
    assert(key[0] == 'p');
    assert(!opts.contains_key(key)) by {
        if opts.contains_key(key) {
            assert(key.take(4)[0] == "opt."@[0]);
        }
    }
    let computed = computed_vars(project, root, slug, state);
    assert(computed.contains_key(key));
    assert(computed[key] == decimal(p as nat));
    law_expand_keeps_every_name(computed, project.config.vars.texts());
    law_expand_keeps_computed_values(computed, project.config.vars.texts(), key);
    law_a_written_number_reads_back(p as nat);
    if !project.config.vars.texts().contains_key("slug"@) {
        let sk = "slug"@;
        assert(!ports.contains_key(sk)) by {
            if ports.contains_key(sk) {
                assert(sk.take(5) == "port."@);
                assert(sk.take(5)[1] == "port."@[1]);
            }
        }
        assert(!opts.contains_key(sk)) by {
            if opts.contains_key(sk) {
                assert(sk.take(4)[0] == "opt."@[0]);
            }
        }
        reveal_strlit("branch");
        reveal_strlit("main");
        reveal_strlit("root");
        reveal_strlit("path");
        reveal_strlit("project");
        reveal_strlit("repo");
        assert("branch"@[0] != sk[0]);
        assert("main"@[0] != sk[0]);
        assert("root"@[0] != sk[0]);
        assert("path"@[0] != sk[0]);
        assert("project"@[0] != sk[0]);
        assert("repo"@[0] != sk[0]);
        assert(computed.contains_key(sk));
        assert(computed[sk] == slug);
        law_expand_keeps_computed_values(computed, project.config.vars.texts(), sk);
    }
}

/// Variables available to wt.toml templates.
///
/// Resolution order: computed values first (slug, paths, ports, options), then the
/// project's `[vars]`, which may build on them.
pub open spec fn vars_of(project: &Project, root: Seq<char>, slug: Seq<char>, state: &WtState) -> Map<Seq<char>, Seq<char>> {
    expanded(computed_vars(project, root, slug, state), project.config.vars.texts())
}

proof fn lemma_prefix_split(p: Seq<char>, k: Seq<char>)
    ensures
        (p + k).take(p.len() as int) == p,
        (p + k).skip(p.len() as int) == k,
        (p + k).len() >= p.len(),
{
    assert((p + k).take(p.len() as int) =~= p);
    assert((p + k).skip(p.len() as int) =~= k);
}

proof fn lemma_prefixed_insert(p: Seq<char>, m: Map<Seq<char>, Seq<char>>, k: Seq<char>, v: Seq<char>)
    ensures
        prefixed(p, m.insert(k, v)) == prefixed(p, m).insert(p + k, v),
{
    lemma_prefix_split(p, k);
    assert forall|x: Seq<char>| #[trigger] prefixed(p, m.insert(k, v)).contains_key(x) <==> prefixed(p, m).insert(p + k, v).contains_key(x) by {
        if x.len() >= p.len() && x.take(p.len() as int) == p && x.skip(p.len() as int) == k {
            assert(x =~= p + k);
        }
    }
    assert forall|x: Seq<char>| prefixed(p, m.insert(k, v)).contains_key(x) implies #[trigger] prefixed(p, m.insert(k, v))[x] == prefixed(p, m).insert(p + k, v)[x] by {
        if x.skip(p.len() as int) == k {
            assert(x =~= p + k);
        }
    }
    assert(prefixed(p, m.insert(k, v)) =~= prefixed(p, m).insert(p + k, v));
}

/// The ports of `ports`, each written out.
pub fn port_strings(ports: &Dict<u16>) -> (r: Dict<String>)
    ensures
        r.texts() == port_texts(ports@),
{
    let mut r: Dict<String> = Dict::new();
    let n = ports.len();
    let mut j: usize = 0;
    proof {
        lemma_first_keys_all(ports);
    }
    while j < n
        invariant
            n == ports.size(),
            j <= n,
            r.texts() == port_texts(ports@).restrict(first_keys(ports, j as int)),
        decreases n - j,
    {
        let k = ports.key(j);
        let v = ports.value(j);
        let ghost before = r.texts();
        r.insert(k.clone(), decimal_string(*v));
        proof {
            lemma_first_keys_step(ports, j as int);
            assert(r.texts() =~= before.insert(k@, decimal(*v as nat)));
            assert(port_texts(ports@)[k@] == decimal(*v as nat));
            assert(port_texts(ports@).restrict(first_keys(ports, j as int).insert(k@)) =~= port_texts(ports@).restrict(first_keys(ports, j as int)).insert(k@, decimal(*v as nat)));
            assert(r.texts() =~= port_texts(ports@).restrict(first_keys(ports, j + 1)));
        }
        j += 1;
    }
    proof {
        lemma_first_keys_all(ports);
        assert(port_texts(ports@).restrict(ports@.dom()) =~= port_texts(ports@));
    }
    r
}

/// Adds `prefix` + each key of `m`, with its value.
fn add_prefixed(v: &mut Vars, prefix: &str, m: &Dict<String>)
    ensures
        final(v).texts() == old(v).texts().union_prefer_right(prefixed(prefix@, m.texts())),
{
    let ghost start = v.texts();
    let n = m.len();
    let mut j: usize = 0;
    proof {
        lemma_first_keys_all(m);
        assert(prefixed(prefix@, m.texts().restrict(first_keys(m, 0))) =~= Map::<Seq<char>, Seq<char>>::empty());
        assert(start.union_prefer_right(Map::<Seq<char>, Seq<char>>::empty()) =~= start);
    }
    while j < n
        invariant
            n == m.size(),
            j <= n,
            v.texts() == start.union_prefer_right(prefixed(prefix@, m.texts().restrict(first_keys(m, j as int)))),
        decreases n - j,
    {
        let k = m.key(j);
        let val = m.value(j);
        let ghost before = v.texts();
        v.insert(concat(prefix, k.as_str()), val.clone());
        proof {
            lemma_first_keys_step(m, j as int);
            assert(v.texts() =~= before.insert(prefix@ + k@, val@));
            let mj = m.texts().restrict(first_keys(m, j as int));
            assert(m.texts()[k@] == val@);
            assert(m.texts().restrict(first_keys(m, j as int).insert(k@)) =~= mj.insert(k@, val@));
            lemma_prefixed_insert(prefix@, mj, k@, val@);
            assert(v.texts() =~= start.union_prefer_right(prefixed(prefix@, m.texts().restrict(first_keys(m, j + 1)))));
        }
        j += 1;
    }
    proof {
        lemma_first_keys_all(m);
        assert(m.texts().restrict(m@.dom()) =~= m.texts());
    }
}

/// Gives each `prefix` + name of `names` a blank value, unless it already has one.
fn add_blanks(v: &mut Vars, prefix: &str, names: &Vec<String>)
    ensures
        final(v).texts() == prefixed(prefix@, blanks(names@.map_values(|x: String| x@))).union_prefer_right(old(v).texts()),
{
    let ghost start = v.texts();
    let ghost ns = names@.map_values(|x: String| x@);
    let mut j: usize = 0;
    proof {
        assert(prefixed(prefix@, blanks(ns.take(0))) =~= Map::<Seq<char>, Seq<char>>::empty());
        assert(Map::<Seq<char>, Seq<char>>::empty().union_prefer_right(start) =~= start);
    }
    while j < names.len()
        invariant
            j <= names@.len(),
            ns == names@.map_values(|x: String| x@),
            v.texts() == prefixed(prefix@, blanks(ns.take(j as int))).union_prefer_right(start),
        decreases names@.len() - j,
    {
        let key = concat(prefix, names[j].as_str());
        let ghost before = v.texts();
        proof {
            let a = ns.take(j as int);
            assert(ns.take(j + 1) =~= a.push(ns[j as int]));
            assert forall|x: Seq<char>| #[trigger] a.push(ns[j as int]).contains(x) <==> (a.contains(x) || x == ns[j as int]) by {
                if a.push(ns[j as int]).contains(x) {
                    let t = choose|t: int| 0 <= t < a.len() + 1 && a.push(ns[j as int])[t] == x;
                    if t < a.len() {
                        assert(a[t] == x);
                    }
                }
                if a.contains(x) {
                    let t = choose|t: int| 0 <= t < a.len() && a[t] == x;
                    assert(a.push(ns[j as int])[t] == x);
                }
                if x == ns[j as int] {
                    assert(a.push(ns[j as int])[a.len() as int] == x);
                }
            }
            assert(blanks(ns.take(j + 1)) =~= blanks(ns.take(j as int)).insert(ns[j as int], Seq::<char>::empty()));
            assert(key@ == prefix@ + ns[j as int]);
            lemma_prefixed_insert(prefix@, blanks(ns.take(j as int)), ns[j as int], Seq::<char>::empty());
        }
        if !v.contains_key(key.as_str()) {
            let ghost kk = key@;
            assert(!before.contains_key(kk));
            v.insert(key, String::new());
            assert(v.texts() =~= before.insert(kk, Seq::<char>::empty()));
            let ghost pb = prefixed(prefix@, blanks(ns.take(j as int)));
            assert(prefixed(prefix@, blanks(ns.take(j + 1))) == pb.insert(kk, Seq::<char>::empty()));
            assert(!start.contains_key(kk));
            assert(v.texts() =~= pb.insert(kk, Seq::<char>::empty()).union_prefer_right(start));
            assert(v.texts() =~= prefixed(prefix@, blanks(ns.take(j + 1))).union_prefer_right(start));
        } else {
            proof {
                let pb = prefixed(prefix@, blanks(ns.take(j as int)));
                assert(prefixed(prefix@, blanks(ns.take(j + 1))) == pb.insert(key@, Seq::<char>::empty()));
                assert(before.contains_key(key@));
                if !start.contains_key(key@) {
                    assert(pb.contains_key(key@));
                    assert(pb[key@] == Seq::<char>::empty());
                }
                assert(v.texts() =~= pb.insert(key@, Seq::<char>::empty()).union_prefer_right(start));
                assert(v.texts() =~= prefixed(prefix@, blanks(ns.take(j + 1))).union_prefer_right(start));
            }
        }
        j += 1;
    }
    assert(ns.take(names@.len() as int) =~= ns);
}

/// Variables available to wt.toml templates.
///
/// Resolution order: computed values first (slug, paths, ports, options), then the
/// project's `[vars]`, which may build on them.
pub fn vars(project: &Project, root: &str, slug: &str, state: &WtState) -> (r: Vars)
    ensures
        r.texts() == vars_of(project, root@, slug@, state),
{
    let mut v: Vars = Dict::new();
    v.insert(owned("slug"), owned(slug));
    v.insert(owned("branch"), state.branch.clone());
    v.insert(owned("main"), project.main.clone());
    v.insert(owned("root"), owned(root));
    v.insert(owned("path"), join(root, slug));
    v.insert(owned("project"), project.name());
    v.insert(
        owned("repo"),
        match file_name(project.main.as_str()) {
            Some(n) => n,
            None => String::new(),
        },
    );
    let ports = port_strings(&state.ports);
    add_prefixed(&mut v, "port.", &ports);
    add_prefixed(&mut v, "opt.", &state.opts);
    // An option never provided stays empty rather than showing as `{{opt.tenants}}`,
    // so a hook can reference it without the user having to define it.
    let declared = declared_opts(project.source.as_str());
    add_blanks(&mut v, "opt.", &declared);
    assert(v.texts() =~= computed_vars(project, root@, slug@, state));
    expand(&v, &project.config.vars)
}

/// `.` and `-` turned into `_`.
pub open spec fn underscored(s: Seq<char>) -> Seq<char> {
    s.map_values(|c: char| if c == '.' || c == '-' { '_' } else { c })
}

/// A name in upper case: for an ASCII name, `a`–`z` made `A`–`Z`, as `str::to_uppercase`
/// does there.
pub open spec fn upper_name(k: Seq<char>) -> Seq<char> {
    if is_ascii_text(k) {
        ascii_uppered(k)
    } else {
        upper_str(k)
    }
}

/// The environment variable standing for template variable `k`: `WT_` and the name in
/// upper case, `.` and `-` turned into `_` (`port.vite` -> `WT_PORT_VITE`).
pub open spec fn env_key(k: Seq<char>) -> Seq<char> {
    "WT_"@ + underscored(upper_name(k))
}

/// The environment variable standing for an ASCII template variable: `WT_`, then the
/// name character for character, each letter `a`–`z` in upper case, each `.` and `-`
/// turned into `_`, every other character as it is (`port.vite` is `WT_PORT_VITE`,
/// `slug` is `WT_SLUG`).
pub proof fn law_env_names_of_ascii_variables(k: Seq<char>)
    requires
        is_ascii_text(k),
    ensures
        env_key(k).len() == k.len() + 3,
        env_key(k).take(3) == "WT_"@,
        forall|i: int| 0 <= i < k.len() ==> {
            let c = #[trigger] k[i];
            let e = env_key(k)[i + 3];
            &&& (c == '.' || c == '-') ==> e == '_'
            &&& 'a' <= c <= 'z' ==> e as u32 == c as u32 - 32
            &&& !(c == '.' || c == '-' || 'a' <= c <= 'z') ==> e == c
        },
{
    reveal_strlit("WT_");
    let u = upper_name(k);
    assert(u == ascii_uppered(k));
    let e = env_key(k);
    assert(e.take(3) =~= "WT_"@);
    assert forall|i: int| 0 <= i < k.len() implies ({
        let c = #[trigger] k[i];
        let e = env_key(k)[i + 3];
        &&& (c == '.' || c == '-') ==> e == '_'
        &&& 'a' <= c <= 'z' ==> e as u32 == c as u32 - 32
        &&& !(c == '.' || c == '-' || 'a' <= c <= 'z') ==> e == c
    }) by {
        assert(e[i + 3] == underscored(u)[i]);
        assert(u[i] == ascii_upper(k[i]));
    }
}

/// The environment for these entries, in order: a later name that maps to the same
/// variable wins.
pub open spec fn env_of(e: Seq<(Seq<char>, String)>) -> Map<Seq<char>, Seq<char>>
    decreases e.len(),
{
    if e.len() == 0 {
        Map::empty()
    } else {
        env_of(e.drop_last()).insert(env_key(e.last().0), e.last().1@)
    }
}

fn underscore(s: &str) -> (r: String)
    ensures
        r@ == underscored(s@),
{
    let cs = chars_of(s);
    let mut out: Vec<char> = Vec::new();
    let mut i: usize = 0;
    while i < cs.len()
        invariant
            i <= cs@.len(),
            out@ == underscored(cs@.take(i as int)),
        decreases cs@.len() - i,
    {
        let c = cs[i];
        out.push(if c == '.' || c == '-' { '_' } else { c });
        i += 1;
        assert(out@ =~= underscored(cs@.take(i as int)));
    }
    assert(cs@.take(cs@.len() as int) =~= cs@);
    string_of(&out)
}

/// Same information as the templates, but as environment variables: a longer hook reads
/// better with `$WT_SLUG` than with `{{slug}}` interpolated by wt.
pub fn env(vars: &Vars) -> (r: Dict<String>)
    ensures
        r.texts() == env_of(vars.entries()),
{
    let mut r: Dict<String> = Dict::new();
    let n = vars.len();
    let mut j: usize = 0;
    assert(vars.entries().take(0) =~= Seq::<(Seq<char>, String)>::empty());
    while j < n
        invariant
            n == vars.size(),
            j <= n,
            r.texts() == env_of(vars.entries().take(j as int)),
        decreases n - j,
    {
        let k = vars.key(j);
        let v = vars.value(j);
        let upper = to_uppercase(k.as_str());
        let key = concat("WT_", underscore(upper.as_str()).as_str());
        let ghost before = r.texts();
        r.insert(key, v.clone());
        proof {
            assert(vars.entries().take(j + 1).drop_last() =~= vars.entries().take(j as int));
            assert(vars.entries().take(j + 1).last() == vars.entries()[j as int]);
            assert(r.texts() =~= env_of(vars.entries().take(j + 1)));
        }
        j += 1;
    }
    assert(vars.entries().take(n as int) =~= vars.entries());
    r
}

} // verus!
