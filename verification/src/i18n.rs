//! Locale selection.

use vstd::prelude::*;

use crate::config::owned;
use crate::text::{ascii_lowered, chars_of, is_ascii_char, is_ascii_text, lower_str, same_str, slice, string_of, strs, to_lowercase};

verus! {

/// Where the language part of a locale value ends: at its first `.`, `_` or `@`.
pub open spec fn lang_end(v: Seq<char>, i: int) -> int
    decreases v.len() - i,
{
    if i < 0 || i >= v.len() {
        v.len() as int
    } else if v[i] == '.' || v[i] == '_' || v[i] == '@' {
        i
    } else {
        lang_end(v, i + 1)
    }
}

/// The language a locale value names, in lower case: `fr_BE.UTF-8` and `fr` both name
/// `fr`.
pub open spec fn lang_of(v: Seq<char>) -> Seq<char> {
    lower_str(v.take(lang_end(v, 0)))
}

/// Does a language value name a language? `C` and `POSIX` mean "no localisation".
pub open spec fn names_language(lang: Seq<char>) -> bool {
    lang.len() > 0 && lang != "c"@ && lang != "posix"@
}

/// The language each value names, `None` staying `None`.
pub open spec fn langs_of(values: Seq<Option<Seq<char>>>) -> Seq<Option<Seq<char>>> {
    values.map_values(|o: Option<Seq<char>>| match o {
        Some(v) => Some(lang_of(v)),
        None => None,
    })
}

/// Among languages in decreasing order of intent (`None` for a variable not set), the
/// first that names an available language, English otherwise.
pub open spec fn picked_language(langs: Seq<Option<Seq<char>>>, available: Seq<Seq<char>>) -> Seq<char>
    decreases langs.len(),
{
    if langs.len() == 0 {
        "en"@
    } else {
        match langs[0] {
            Some(l) => if names_language(l) && available.contains(l) {
                l
            } else {
                picked_language(langs.drop_first(), available)
            },
            None => picked_language(langs.drop_first(), available),
        }
    }
}

/// The locale picked from the variables' values, in decreasing order of intent (`WT_LANG`,
/// then `LC_ALL`, `LC_MESSAGES` and `LANG`; `None` for one that is not set): the first
/// that names an available language, English otherwise.
pub open spec fn picked_locale(values: Seq<Option<Seq<char>>>, available: Seq<Seq<char>>) -> Seq<char> {
    picked_language(langs_of(values), available)
}

/// The values as texts.
pub open spec fn opt_texts(values: Seq<Option<String>>) -> Seq<Option<Seq<char>>> {
    values.map_values(|o: Option<String>| match o {
        Some(s) => Some(s@),
        None => None,
    })
}

/// The language part of a locale value, lower-cased.
pub fn language(value: &str) -> (r: String)
    ensures
        r@ == lang_of(value@),
        is_ascii_text(value@) ==> r@ == ascii_lowered(value@.take(lang_end(value@, 0))),
{
    let v = chars_of(value);
    let mut i: usize = 0;
    while i < v.len()
        invariant
            i <= v@.len(),
            lang_end(v@, 0) == lang_end(v@, i as int),
        ensures
            i <= v@.len(),
            lang_end(v@, 0) == i,
        decreases v@.len() - i,
    {
        let c = v[i];
        if c == '.' || c == '_' || c == '@' {
            break;
        }
        i += 1;
    }
    let head = slice(&v, 0, i);
    assert(head@ =~= v@.take(lang_end(v@, 0)));
    proof {
        if is_ascii_text(value@) {
            assert forall|k: int| 0 <= k < head@.len() implies is_ascii_char(#[trigger] head@[k]) by {
                assert(head@[k] == value@[k]);
            }
        }
    }
    to_lowercase(string_of(&head).as_str())
}

/// Is `lang` among the `available` locales?
fn is_available(available: &Vec<String>, lang: &str) -> (r: bool)
    ensures
        r == strs(available@).contains(lang@),
{
    let ghost avail = strs(available@);
    let mut j: usize = 0;
    while j < available.len()
        invariant
            j <= available@.len(),
            avail == strs(available@),
            avail.len() == available@.len(),
            forall|k: int| 0 <= k < j ==> avail[k] != lang@,
        decreases available@.len() - j,
    {
        if same_str(available[j].as_str(), lang) {
            assert(avail[j as int] == lang@);
            return true;
        }
        j += 1;
    }
    false
}

/// Picks, among languages already extracted and lowercased, in decreasing order of
/// intent, the first that names one of the `available` locales; English otherwise.
pub fn pick_language(langs: &Vec<Option<String>>, available: &Vec<String>) -> (r: String)
    ensures
        r@ == picked_language(opt_texts(langs@), strs(available@)),
{
    let ghost avail = strs(available@);
    let mut i: usize = 0;
    assert(opt_texts(langs@).skip(0) =~= opt_texts(langs@));
    while i < langs.len()
        invariant
            i <= langs@.len(),
            avail == strs(available@),
            picked_language(opt_texts(langs@), avail) == picked_language(opt_texts(langs@).skip(i as int), avail),
        decreases langs@.len() - i,
    {
        let ghost rest = opt_texts(langs@).skip(i as int);
        assert(rest.drop_first() =~= opt_texts(langs@).skip(i + 1));
        assert(rest[0] == opt_texts(langs@)[i as int]);
        match &langs[i] {
            Some(lang) => {
                let l = lang.as_str();
                let lc = chars_of(l);
                if lc.len() > 0 && !same_str(l, "c") && !same_str(l, "posix") && is_available(available, l) {
                    return lang.clone();
                }
            },
            None => {},
        }
        i += 1;
    }
    assert(opt_texts(langs@).skip(langs@.len() as int) =~= Seq::<Option<Seq<char>>>::empty());
    owned("en")
}

/// Picks the locale from the values of `WT_LANG`, `LC_ALL`, `LC_MESSAGES` and `LANG`,
/// in that order, among the `available` ones.
pub fn detect(values: &Vec<Option<String>>, available: &Vec<String>) -> (r: String)
    ensures
        r@ == picked_locale(opt_texts(values@), strs(available@)),
{
    let mut langs: Vec<Option<String>> = Vec::new();
    let mut i: usize = 0;
    while i < values.len()
        invariant
            i <= values@.len(),
            langs@.len() == i,
            opt_texts(langs@) == langs_of(opt_texts(values@)).take(i as int),
        decreases values@.len() - i,
    {
        let lang = match &values[i] {
            Some(v) => Some(language(v.as_str())),
            None => None,
        };
        let ghost before = langs@;
        assert(opt_texts(values@)[i as int] == match values@[i as int] {
            Some(v) => Some(v@),
            None => None,
        });
        langs.push(lang);
        proof {
            let want = langs_of(opt_texts(values@));
            assert forall|k: int| 0 <= k <= i implies #[trigger] opt_texts(langs@)[k] == want[k] by {
                if k < i {
                    assert(langs@[k] == before[k]);
                    assert(opt_texts(before)[k] == want.take(i as int)[k]);
                }
            }
        }
        i += 1;
        assert(opt_texts(langs@) =~= langs_of(opt_texts(values@)).take(i as int));
    }
    assert(langs_of(opt_texts(values@)).take(values@.len() as int) =~= langs_of(opt_texts(values@)));
    pick_language(&langs, available)
}

} // verus!
