//! Minimal template engine: `{{key}}`, nothing else.
//!
//! Deliberately without conditionals or loops — a hook that needs logic is a shell
//! script, and the shell already does that very well.

use vstd::prelude::*;

use crate::dict::Dict;
use crate::text::{chars_of, find, find_from, lemma_find_from, occurs_at, slice, string_of, trim, trimmed};

verus! {

/// Template variables: name to value, in name order.
pub type Vars = Dict<String>;

pub open spec fn closer() -> Seq<char> {
    seq!['}', '}']
}

/// A `{{` opens at `i`.
pub open spec fn opens_at(s: Seq<char>, i: int) -> bool {
    0 <= i && i + 1 < s.len() && s[i] == '{' && s[i + 1] == '{'
}

/// Where the `}}` closing a `{{` that opens at `i` sits, if one does.
pub open spec fn placeholder(s: Seq<char>, i: int) -> Option<int> {
    if opens_at(s, i) {
        find_from(s, closer(), i + 2)
    } else {
        None
    }
}

/// The key written between `{{` at `i` and `}}` at `e`, spaces trimmed.
pub open spec fn key_between(s: Seq<char>, i: int, e: int) -> Seq<char> {
    trim(s.subrange(i + 2, e))
}

/// The end of a `{{…}}` at `i` whose key is one of `vars`.
pub open spec fn known_at(s: Seq<char>, vars: Map<Seq<char>, Seq<char>>, i: int) -> Option<int> {
    match placeholder(s, i) {
        Some(e) => if vars.contains_key(key_between(s, i, e)) {
            Some(e)
        } else {
            None
        },
        None => None,
    }
}

/// `s` from index `i` on, each `{{key}}` whose key is known replaced by its value, the
/// rest copied character for character.
pub open spec fn render_from(s: Seq<char>, vars: Map<Seq<char>, Seq<char>>, i: int) -> Seq<char>
    decreases s.len() - i,
{
    if i < 0 || i >= s.len() {
        Seq::empty()
    } else {
        match known_at(s, vars, i) {
            Some(e) => {
                proof {
                    lemma_find_from(s, closer(), i + 2);
                }
                vars[key_between(s, i, e)] + render_from(s, vars, e + 2)
            },
            None => seq![s[i]] + render_from(s, vars, i + 1),
        }
    }
}

/// What `render` gives for `s`.
pub open spec fn rendered(s: Seq<char>, vars: Map<Seq<char>, Seq<char>>) -> Seq<char> {
    render_from(s, vars, 0)
}

/// Replaces known `{{key}}`s. Unknown keys are left as-is: a command failing while
/// showing `{{port.vite}}` beats one silently missing an argument.
pub fn render(input: &str, vars: &Vars) -> (r: String)
    ensures
        r@ == rendered(input@, vars.texts()),
{
    let s = chars_of(input);
    let close = vec!['}', '}'];
    let ghost m = vars.texts();
    let mut out: Vec<char> = Vec::new();
    let mut i: usize = 0;
    assert(close@ =~= closer());
    while i < s.len()
        invariant
            i <= s@.len(),
            s@ == input@,
            close@ == closer(),
            m == vars.texts(),
            rendered(s@, m) == out@ + render_from(s@, m, i as int),
        decreases s@.len() - i,
    {
        if s[i] == '{' && i + 1 < s.len() && s[i + 1] == '{' {
            if let Some(end) = find(&s, &close, i + 2) {
                proof {
                    lemma_find_from(s@, closer(), i + 2);
                }
                let key = string_of(&trimmed(&slice(&s, i + 2, end)));
                if let Some(value) = vars.get(key.as_str()) {
                    let mut vc = chars_of(value.as_str());
                    assert(known_at(s@, m, i as int) == Some(end as int));
                    assert(m[key@] == vc@);
                    let ghost before = out@;
                    out.append(&mut vc);
                    assert(out@ == before + m[key_between(s@, i as int, end as int)]);
                    i = end + 2;
                    continue;
                }
            }
        }
        assert(known_at(s@, m, i as int) is None);
        out.push(s[i]);
        i += 1;
    }
    string_of(&out)
}

/// Keys of `keys`, rendered against `vars`; every other key unchanged.
pub open spec fn pass(vars: Map<Seq<char>, Seq<char>>, keys: Set<Seq<char>>) -> Map<
    Seq<char>,
    Seq<char>,
> {
    Map::new(
        |k: Seq<char>| vars.contains_key(k),
        |k: Seq<char>|
            if keys.contains(k) {
                rendered(vars[k], vars)
            } else {
                vars[k]
            },
    )
}

pub open spec fn passes(vars: Map<Seq<char>, Seq<char>>, keys: Set<Seq<char>>, n: nat) -> Map<
    Seq<char>,
    Seq<char>,
>
    decreases n,
{
    if n == 0 {
        vars
    } else {
        passes(pass(vars, keys), keys, (n - 1) as nat)
    }
}

/// What `expand` gives: the project's variables laid over the computed ones, then five
/// rounds of each project variable rendered against the previous round.
pub open spec fn expanded(base: Map<Seq<char>, Seq<char>>, user: Map<Seq<char>, Seq<char>>) -> Map<
    Seq<char>,
    Seq<char>,
> {
    passes(base.union_prefer_right(user), user.dom(), 5)
}

proof fn lemma_passes_fixpoint(v: Map<Seq<char>, Seq<char>>, keys: Set<Seq<char>>, n: nat)
    requires
        pass(v, keys) == v,
    ensures
        passes(v, keys, n) == v,
    decreases n,
{
    if n > 0 {
        lemma_passes_fixpoint(v, keys, (n - 1) as nat);
    }
}

proof fn lemma_passes_split(v: Map<Seq<char>, Seq<char>>, keys: Set<Seq<char>>, a: nat, b: nat)
    ensures
        passes(v, keys, a + b) == passes(passes(v, keys, a), keys, b),
    decreases a,
{
    if a > 0 {
        lemma_passes_split(pass(v, keys), keys, (a - 1) as nat, b);
        assert((a + b - 1) as nat == (a - 1) as nat + b);
    }
}

/// The keys of `user` among its first `j` entries.
pub open spec fn first_keys(user: &Dict<String>, j: int) -> Set<Seq<char>> {
    Set::new(|k: Seq<char>| exists|t: int| 0 <= t < j && user.key_at(t) == k)
}

/// One round: each key of `user` re-rendered against a snapshot of `vars`. Returns
/// whether anything changed.
fn one_pass(vars: &mut Vars, user: &Dict<String>) -> (changed: bool)
    requires
        user.texts().dom().subset_of(old(vars).texts().dom()),
    ensures
        final(vars).texts() == pass(old(vars).texts(), user.texts().dom()),
        !changed ==> final(vars).texts() == old(vars).texts(),
{
    let snapshot = vars.duplicate();
    let ghost snap = snapshot.texts();
    let mut changed = false;
    let mut j: usize = 0;
    let n = user.len();
    while j < n
        invariant
            n == user.size(),
            j <= n,
            snap == snapshot.texts(),
            snap == old(vars).texts(),
            user.texts().dom().subset_of(snap.dom()),
            vars.texts() == pass(snap, first_keys(user, j as int)),
            !changed ==> vars.texts() == snap,
        decreases n - j,
    {
        let key = user.key(j);
        let ghost k = key@;
        let current = match snapshot.get(key.as_str()) {
            Some(v) => v.clone(),
            None => String::new(),
        };
        assert(user.texts().dom().contains(k));
        assert(current@ == snap[k]);
        let rendered = render(current.as_str(), &snapshot);
        let ghost before = vars.texts();
        if rendered != current {
            vars.insert(key.clone(), rendered);
            changed = true;
            assert(vars.texts() =~= before.insert(k, rendered@));
        }
        proof {
            assert(rendered@ == crate::tmpl::rendered(snap[k], snap));
            assert(vars.texts() =~= pass(snap, first_keys(user, j + 1))) by {
                assert forall|x: Seq<char>| #[trigger] first_keys(user, j + 1).contains(x) <==> (
                first_keys(user, j as int).contains(x) || x == k) by {
                    if first_keys(user, j + 1).contains(x) {
                        let t = choose|t: int| 0 <= t < j + 1 && user.key_at(t) == x;
                        if t < j {
                            assert(first_keys(user, j as int).contains(x));
                        }
                    }
                    if first_keys(user, j as int).contains(x) {
                        let t = choose|t: int| 0 <= t < j && user.key_at(t) == x;
                        assert(user.key_at(t) == x);
                    }
                    if x == k {
                        assert(user.key_at(j as int) == x);
                    }
                }
            }
        }
        j += 1;
    }
    proof {
        assert(first_keys(user, n as int) =~= user.texts().dom()) by {
            assert forall|x: Seq<char>| #[trigger] first_keys(user, n as int).contains(x)
                <==> user.texts().dom().contains(x) by {
                if user.texts().dom().contains(x) {
                    let t = choose|t: int|
                        0 <= t < user.entries().len() && user.entries()[t].0 == x;
                    assert(user.key_at(t) == x);
                }
            }
        }
    }
    changed
}

/// Resolves the `[vars]` of wt.toml, which may reference one another. Five passes are
/// enough for any reasonable chain and cut cycles short.
pub fn expand(base: &Vars, user: &Dict<String>) -> (r: Vars)
    ensures
        r.texts() == expanded(base.texts(), user.texts()),
{
    let mut vars = base.duplicate();
    let mut j: usize = 0;
    let n = user.len();
    while j < n
        invariant
            n == user.size(),
            j <= n,
            vars.texts() == base.texts().union_prefer_right(
                user.texts().restrict(first_keys(user, j as int)),
            ),
        decreases n - j,
    {
        let ghost before = vars.texts();
        let k = user.key(j);
        let v = user.value(j);
        vars.insert(k.clone(), v.clone());
        proof {
            assert(vars.texts() =~= before.insert(k@, v@));
            assert(vars.texts() =~= base.texts().union_prefer_right(
                user.texts().restrict(first_keys(user, j + 1)),
            )) by {
                assert forall|x: Seq<char>| #[trigger] first_keys(user, j + 1).contains(x) <==> (
                first_keys(user, j as int).contains(x) || x == k@) by {
                    if first_keys(user, j + 1).contains(x) {
                        let t = choose|t: int| 0 <= t < j + 1 && user.key_at(t) == x;
                        if t < j {
                            assert(first_keys(user, j as int).contains(x));
                        }
                    }
                    if first_keys(user, j as int).contains(x) {
                        let t = choose|t: int| 0 <= t < j && user.key_at(t) == x;
                        assert(user.key_at(t) == x);
                    }
                    if x == k@ {
                        assert(user.key_at(j as int) == x);
                    }
                }
            }
        }
        j += 1;
    }
    let ghost start = vars.texts();
    proof {
        assert(first_keys(user, n as int) =~= user.texts().dom()) by {
            assert forall|x: Seq<char>| #[trigger] first_keys(user, n as int).contains(x)
                <==> user.texts().dom().contains(x) by {
                if user.texts().dom().contains(x) {
                    let t = choose|t: int|
                        0 <= t < user.entries().len() && user.entries()[t].0 == x;
                    assert(user.key_at(t) == x);
                }
            }
        }
        assert(user.texts().restrict(user.texts().dom()) =~= user.texts());
        assert(start == base.texts().union_prefer_right(user.texts()));
    }
    let mut round: usize = 0;
    while round < 5
        invariant_except_break
            round <= 5,
            vars.texts() == passes(start, user.texts().dom(), round as nat),
            user.texts().dom().subset_of(vars.texts().dom()),
        ensures
            vars.texts() == passes(start, user.texts().dom(), 5),
        decreases 5 - round,
    {
        let ghost before = vars.texts();
        let changed = one_pass(&mut vars, user);
        proof {
            lemma_passes_split(start, user.texts().dom(), round as nat, 1);
            assert(passes(pass(before, user.texts().dom()), user.texts().dom(), 0) == pass(before, user.texts().dom()));
            assert(passes(before, user.texts().dom(), 1) == pass(before, user.texts().dom()));
        }
        round += 1;
        if !changed {
            proof {
                lemma_passes_fixpoint(before, user.texts().dom(), (5 - round + 1) as nat);
                lemma_passes_split(start, user.texts().dom(), (round - 1) as nat, (5 - round + 1) as nat);
            }
            break;
        }
        assert(user.texts().dom().subset_of(vars.texts().dom()));
    }
    vars
}

proof fn lemma_render_from_plain(s: Seq<char>, vars: Map<Seq<char>, Seq<char>>, i: int)
    requires
        0 <= i <= s.len(),
        forall|j: int| i <= j < s.len() ==> known_at(s, vars, j) is None,
    ensures
        render_from(s, vars, i) == s.skip(i),
    decreases s.len() - i,
{
    if i < s.len() {
        lemma_render_from_plain(s, vars, i + 1);
        assert(s.skip(i) =~= seq![s[i]] + s.skip(i + 1));
    } else {
        assert(s.skip(i) =~= Seq::<char>::empty());
    }
}

/// Text in which no `{{` opens comes out of `render` exactly as it went in — shell
/// braces such as `awk '{print $1}'` included.
pub proof fn law_render_keeps_text_without_placeholders(s: Seq<char>, vars: Map<Seq<char>, Seq<char>>)
    requires
        forall|j: int| !#[trigger] opens_at(s, j),
    ensures
        rendered(s, vars) == s,
{
    lemma_render_from_plain(s, vars, 0);
    assert(s.skip(0) =~= s);
}

/// Text in which no `{{…}}` names a known variable comes out of `render` exactly as it
/// went in, whatever the variables: unknown keys, lone or unclosed braces and every
/// other character are copied as written.
pub proof fn law_render_keeps_text_without_known_keys(s: Seq<char>, vars: Map<Seq<char>, Seq<char>>)
    requires
        forall|j: int| #[trigger] known_at(s, vars, j) is None,
    ensures
        rendered(s, vars) == s,
{
    lemma_render_from_plain(s, vars, 0);
    assert(s.skip(0) =~= s);
}

/// Without any variable, `render` changes nothing: an unknown `{{key}}` is left as it
/// was written.
pub proof fn law_render_leaves_unknown_keys(s: Seq<char>)
    ensures
        rendered(s, Map::<Seq<char>, Seq<char>>::empty()) == s,
{
    lemma_render_from_plain(s, Map::<Seq<char>, Seq<char>>::empty(), 0);
    assert(s.skip(0) =~= s);
}

/// `{{key}}` alone renders to the key's value, the spaces around the key ignored.
pub proof fn law_render_replaces_a_known_key(k: Seq<char>, vars: Map<Seq<char>, Seq<char>>)
    requires
        forall|j: int| 0 <= j < k.len() ==> k[j] != '}',
        vars.contains_key(trim(k)),
    ensures
        rendered(seq!['{', '{'] + k + closer(), vars) == vars[trim(k)],
{
    let s = seq!['{', '{'] + k + closer();
    let e: int = k.len() as int + 2;
    assert(occurs_at(s, closer(), e)) by {
        assert(s.subrange(e, e + 2) =~= closer());
    }
    assert forall|j: int| 2 <= j < e implies !occurs_at(s, closer(), j) by {
        assert(s[j] == k[j - 2]);
        assert(s.subrange(j, j + 2)[0] == s[j]);
    }
    lemma_find_from(s, closer(), 2);
    assert(find_from(s, closer(), 2) == Some(e)) by {
        match find_from(s, closer(), 2) {
            Some(x) => {
                if x < e {
                } else if x > e {
                }
            },
            None => {},
        }
    }
    assert(s.subrange(2, e) =~= k);
    assert(render_from(s, vars, e + 2) =~= Seq::<char>::empty());
    assert(vars[trim(k)] + Seq::<char>::empty() =~= vars[trim(k)]);
}

proof fn lemma_pass_keeps(v: Map<Seq<char>, Seq<char>>, keys: Set<Seq<char>>, n: nat)
    ensures
        passes(v, keys, n).dom() == v.dom(),
        forall|x: Seq<char>| v.contains_key(x) && !keys.contains(x) ==> #[trigger] passes(v, keys, n)[x] == v[x],
    decreases n,
{
    if n > 0 {
        lemma_pass_keeps(pass(v, keys), keys, (n - 1) as nat);
        assert(pass(v, keys).dom() =~= v.dom());
    }
}

/// Expanding keeps every name: the computed ones and the project's, and nothing else.
pub proof fn law_expand_keeps_every_name(base: Map<Seq<char>, Seq<char>>, user: Map<Seq<char>, Seq<char>>)
    ensures
        expanded(base, user).dom() == base.dom().union(user.dom()),
{
    lemma_pass_keeps(base.union_prefer_right(user), user.dom(), 5);
}

/// A computed variable that the project does not redefine comes out as it went in.
pub proof fn law_expand_keeps_computed_values(
    base: Map<Seq<char>, Seq<char>>,
    user: Map<Seq<char>, Seq<char>>,
    k: Seq<char>,
)
    requires
        base.contains_key(k),
        !user.contains_key(k),
    ensures
        expanded(base, user)[k] == base[k],
{
    lemma_pass_keeps(base.union_prefer_right(user), user.dom(), 5);
}

} // verus!
