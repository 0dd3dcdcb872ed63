//! The items of the one-shot fuzzy menus: what is shown and searched, and what is
//! returned, kept apart so that a choice never has to be parsed back out of an aligned,
//! translated display line.

use vstd::prelude::*;

use crate::config::owned;
use crate::picker::spaces;
use crate::text::{chars_of, find, find_from, string_of, slice};

verus! {

/// One menu item.
#[derive(Debug)]
pub struct MenuItem {
    /// What choosing it returns.
    pub key: String,
    /// What is shown and searched.
    pub text: String,
    pub preview: String,
    pub disabled: bool,
}

/// The label padded with spaces to `width` characters.
pub open spec fn padded(label: Seq<char>, width: int) -> Seq<char> {
    label + spaces(width - label.len())
}

/// The line a menu shows: the label alone, or the label in a 30-character column
/// followed by the detail.
pub open spec fn item_text(label: Seq<char>, detail: Seq<char>) -> Seq<char> {
    if detail.len() == 0 {
        label
    } else {
        padded(label, 30) + seq![' '] + detail
    }
}

/// An action's label without the one-key shortcut the dashboard shows before ` · `.
pub open spec fn without_shortcut(label: Seq<char>) -> Seq<char> {
    match find_from(label, " · "@, 0) {
        Some(i) => label.skip(i + 3),
        None => label,
    }
}

impl MenuItem {
    /// An item returning `key`, showing `label` and `detail`.
    pub fn new(key: &str, label: &str, detail: &str) -> (r: MenuItem)
        ensures
            r.key@ == key@,
            r.text@ == item_text(label@, detail@),
            r.preview@.len() == 0,
            !r.disabled,
    {
        let l = chars_of(label);
        let d = chars_of(detail);
        if d.len() == 0 {
            return MenuItem { key: owned(key), text: owned(label), preview: String::new(), disabled: false };
        }
        let mut t = l;
        let mut n = t.len();
        let ghost start = t@;
        while n < 30
            invariant
                t@ == start + spaces(n - start.len()),
                start.len() <= n <= 30 || (n == start.len() && n >= 30),
            decreases 30 - n,
        {
            t.push(' ');
            n += 1;
            assert(t@ =~= start + spaces(n - start.len()));
        }
        assert(t@ =~= padded(start, 30));
        t.push(' ');
        let mut d2 = d;
        t.append(&mut d2);
        MenuItem { key: owned(key), text: string_of(&t), preview: String::new(), disabled: false }
    }

    /// What the menu shows and searches.
    pub fn text(&self) -> (r: &str)
        ensures
            r@ == self.text@,
    {
        self.text.as_str()
    }

    /// What choosing the item returns.
    pub fn output(&self) -> (r: &str)
        ensures
            r@ == self.key@,
    {
        self.key.as_str()
    }
}

/// An action's label without the one-key shortcut it carries in the dashboard
/// (`n · create a worktree`): in the fuzzy menu every printable key feeds the query, so
/// showing it would promise a shortcut that does not exist there.
pub fn action_label(label: &str) -> (r: String)
    ensures
        r@ == without_shortcut(label@),
{
    let l = chars_of(label);
    let n = l.len();
    let sep = chars_of(" · ");
    proof {
        reveal_strlit(" · ");
    }
    match find(&l, &sep, 0) {
        Some(i) => {
            proof {
                crate::text::lemma_find_from(l@, sep@, 0);
                assert(sep@.len() == 3);
                assert(find_from(l@, sep@, 0) == Some(i as int));
                assert(i + sep@.len() <= l@.len());
            }
            let rest = slice(&l, i + 3, n);
            assert(rest@ =~= l@.skip(i + 3));
            string_of(&rest)
        },
        None => owned(label),
    }
}

} // verus!
