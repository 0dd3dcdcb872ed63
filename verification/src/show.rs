//! How worktrees are shown in lists: their ports, the columns of `wt ls`, the detail a
//! menu gives next to a slug.

use vstd::prelude::*;

use crate::dict::Dict;
use crate::flow::sep_joined;
use crate::menu::padded;
use crate::picker::spaces;
use crate::state::{decimal, decimal_string};
use crate::text::{chars_of, string_of, trim_end, trimmed_end};

verus! {

/// `name:port`, one per port, in name order.
pub open spec fn port_pairs(e: Seq<(Seq<char>, u16)>) -> Seq<Seq<char>> {
    e.map_values(|p: (Seq<char>, u16)| p.0 + ":"@ + decimal(p.1 as nat))
}

/// A worktree's ports, `name:port` separated by spaces.
pub fn port_summary(ports: &Dict<u16>) -> (r: String)
    ensures
        r@ == sep_joined(port_pairs(ports.entries()), " "@),
{
    let ghost e = ports.entries();
    let n = ports.len();
    let mut out: Vec<char> = Vec::new();
    let mut i: usize = 0;
    while i < n
        invariant
            n == ports.size(),
            e == ports.entries(),
            i <= n,
            out@ == sep_joined(port_pairs(e.take(i as int)), " "@),
        decreases n - i,
    {
        let ghost before = port_pairs(e.take(i as int));
        let k = ports.key(i);
        let v = *ports.value(i);
        let mut item = chars_of(k.as_str());
        item.push(':');
        let mut d = chars_of(decimal_string(v).as_str());
        item.append(&mut d);
        assert(item@ == e[i as int].0 + ":"@ + decimal(e[i as int].1 as nat)) by {
            reveal_strlit(":");
            assert(item@ =~= e[i as int].0 + ":"@ + decimal(e[i as int].1 as nat));
        }
        let ghost after = port_pairs(e.take(i + 1));
        assert(after =~= before.push(item@));
        assert(after.drop_last() =~= before);
        if i > 0 {
            out.push(' ');
        }
        out.append(&mut item);
        proof {
            if i > 0 {
                reveal_strlit(" ");
                assert(out@ =~= sep_joined(before, " "@) + " "@ + after.last());
            } else {
                assert(before.len() == 0);
                assert(out@ =~= after[0]);
            }
        }
        i += 1;
    }
    assert(e.take(n as int) =~= e);
    string_of(&out)
}

/// `text` in a column `width` characters wide.
fn padded_to(text: &str, width: usize) -> (r: Vec<char>)
    ensures
        r@ == padded(text@, width as int),
{
    let mut t = chars_of(text);
    let ghost start = t@;
    let mut n = t.len();
    while n < width
        invariant
            t@ == start + spaces(n - start.len()),
            start.len() <= n,
            n <= width || n == start.len(),
        decreases width - n,
    {
        t.push(' ');
        n += 1;
        assert(t@ =~= start + spaces(n - start.len()));
    }
    assert(t@ =~= padded(start, width as int));
    t
}

/// A line of `wt ls`: the slug in a 20-character column, the branch in a 28-character
/// one, then the state in a 10-character one when the project can tell it, then the
/// ports when the project has any — trailing spaces dropped.
pub open spec fn ls_line(slug: Seq<char>, branch: Seq<char>, state: Option<Seq<char>>, ports: Option<Seq<char>>) -> Seq<char> {
    trim_end(
        padded(slug, 20) + " "@ + padded(branch, 28)
            + match state {
                Some(s) => " "@ + padded(s, 10),
                None => Seq::empty(),
            }
            + match ports {
                Some(p) => " "@ + p,
                None => Seq::empty(),
            },
    )
}

/// A line of `wt ls` (its header too, with the column names): see `ls_line`.
pub fn ls_row(slug: &str, branch: &str, state: Option<&str>, ports: Option<&str>) -> (r: String)
    ensures
        r@ == ls_line(slug@, branch@, match state {
            Some(s) => Some(s@),
            None => None,
        }, match ports {
            Some(p) => Some(p@),
            None => None,
        }),
{
    proof {
        reveal_strlit(" ");
    }
    let mut line = padded_to(slug, 20);
    line.push(' ');
    let mut b = padded_to(branch, 28);
    line.append(&mut b);
    let ghost head = line@;
    assert(head =~= padded(slug@, 20) + " "@ + padded(branch@, 28));
    if let Some(s) = state {
        line.push(' ');
        let mut c = padded_to(s, 10);
        line.append(&mut c);
    }
    let ghost mid = line@;
    assert(mid =~= head + match state {
        Some(s) => " "@ + padded(s@, 10),
        None => Seq::<char>::empty(),
    });
    if let Some(p) = ports {
        line.push(' ');
        let mut c = chars_of(p);
        line.append(&mut c);
    }
    assert(line@ =~= mid + match ports {
        Some(p) => " "@ + p@,
        None => Seq::<char>::empty(),
    });
    string_of(&trimmed_end(&line))
}

/// The detail a menu shows next to a worktree's slug: its branch, then its state when
/// the project can tell it and its ports when it has some, set apart by ` · `.
pub open spec fn detail_line(branch: Seq<char>, state: Option<Seq<char>>, ports: Seq<char>) -> Seq<char> {
    let parts = match state {
        Some(s) => seq![s],
        None => Seq::<Seq<char>>::empty(),
    } + if ports.len() > 0 {
        seq![ports]
    } else {
        Seq::<Seq<char>>::empty()
    };
    if parts.len() == 0 {
        branch
    } else {
        branch + "  ·  "@ + sep_joined(parts, "  ·  "@)
    }
}

/// The detail of a worktree in a menu, `ports` being its port summary: see
/// `detail_line`.
pub fn worktree_detail(branch: &str, state: Option<&str>, ports: &str) -> (r: String)
    ensures
        r@ == detail_line(branch@, match state {
            Some(s) => Some(s@),
            None => None,
        }, ports@),
{
    let sep = chars_of("  ·  ");
    let mut out = chars_of(branch);
    let p = chars_of(ports);
    let ghost parts = match state {
        Some(s) => seq![s@],
        None => Seq::<Seq<char>>::empty(),
    } + if ports@.len() > 0 {
        seq![ports@]
    } else {
        Seq::<Seq<char>>::empty()
    };
    match state {
        Some(s) => {
            let mut a = sep.clone();
            out.append(&mut a);
            let mut sc = chars_of(s);
            out.append(&mut sc);
            if p.len() > 0 {
                let mut b = sep.clone();
                out.append(&mut b);
                let mut pc = p;
                out.append(&mut pc);
                assert(parts =~= seq![s@, ports@]);
                assert(parts.drop_last() =~= seq![s@]);
                assert(out@ =~= branch@ + "  ·  "@ + (sep_joined(parts.drop_last(), "  ·  "@) + "  ·  "@ + parts.last()));
            } else {
                assert(parts =~= seq![s@]);
                assert(out@ =~= branch@ + "  ·  "@ + parts[0]);
            }
        },
        None => {
            if p.len() > 0 {
                let mut b = sep.clone();
                out.append(&mut b);
                let mut pc = p;
                out.append(&mut pc);
                assert(parts =~= seq![ports@]);
                assert(out@ =~= branch@ + "  ·  "@ + parts[0]);
            } else {
                assert(parts =~= Seq::<Seq<char>>::empty());
            }
        },
    }
    string_of(&out)
}

} // verus!
