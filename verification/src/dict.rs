//! A map from text keys, kept in key order — what the configuration's tables, the
//! template variables and the worktree state are.
//!
//! Iteration follows the keys' lexicographic order, so everything listed from one of
//! these (an environment, a port list, a preview) comes out in a stable order.

use vstd::prelude::*;

use crate::text::{chars_of, lemma_text_lt_irreflexive, lemma_text_lt_total, lemma_text_lt_transitive, precedes, same, text_lt};

verus! {

#[derive(Debug)]
pub struct Dict<T> {
    entries: Vec<(String, T)>,
}

/// Keys strictly increasing: in order, and each one once.
pub open spec fn ordered<T>(e: Seq<(Seq<char>, T)>) -> bool {
    forall|i: int, j: int| 0 <= i < j < e.len() ==> text_lt(e[i].0, e[j].0)
}

/// Position of key `k` in `e`, if it is there.
pub open spec fn has_key<T>(e: Seq<(Seq<char>, T)>, k: Seq<char>) -> bool {
    exists|i: int| 0 <= i < e.len() && e[i].0 == k
}

pub open spec fn index_of<T>(e: Seq<(Seq<char>, T)>, k: Seq<char>) -> int {
    choose|i: int| 0 <= i < e.len() && e[i].0 == k
}

/// The map an entry list stands for.
pub open spec fn as_map<T>(e: Seq<(Seq<char>, T)>) -> Map<Seq<char>, T> {
    Map::new(|k: Seq<char>| has_key(e, k), |k: Seq<char>| e[index_of(e, k)].1)
}

/// In an ordered list, a key sits at one position only.
pub proof fn lemma_index_unique<T>(e: Seq<(Seq<char>, T)>, i: int)
    requires
        ordered(e),
        0 <= i < e.len(),
    ensures
        has_key(e, e[i].0),
        index_of(e, e[i].0) == i,
        as_map(e).contains_key(e[i].0),
        as_map(e)[e[i].0] == e[i].1,
{
    let k = e[i].0;
    assert(has_key(e, k));
    let j = index_of(e, k);
    if j < i {
        assert(text_lt(e[j].0, e[i].0));
        lemma_text_lt_irreflexive(k);
    } else if i < j {
        assert(text_lt(e[i].0, e[j].0));
        lemma_text_lt_irreflexive(k);
    }
}

impl<T> Dict<T> {
    /// The entries, in order, keys as character sequences.
    pub closed spec fn entries(&self) -> Seq<(Seq<char>, T)> {
        self.entries@.map_values(|p: (String, T)| (p.0@, p.1))
    }

    #[verifier::type_invariant]
    closed spec fn keys_in_order(&self) -> bool {
        ordered(self.entries())
    }

    pub open spec fn size(&self) -> nat {
        self.entries().len()
    }

    pub open spec fn key_at(&self, i: int) -> Seq<char> {
        self.entries()[i].0
    }

    pub open spec fn value_at(&self, i: int) -> T {
        self.entries()[i].1
    }

    /// An empty map.
    pub fn new() -> (r: Self)
        ensures
            r.size() == 0,
            r@ == Map::<Seq<char>, T>::empty(),
    {
        let r = Dict { entries: Vec::new() };
        assert(r.entries() =~= Seq::<(Seq<char>, T)>::empty());
        assert(as_map(r.entries()) =~= Map::<Seq<char>, T>::empty());
        r
    }

    /// Number of keys.
    pub fn len(&self) -> (r: usize)
        ensures
            r == self.size(),
            r == self@.len(),
    {
        proof {
            use_type_invariant(self);
            self.lemma_len();
        }
        self.entries.len()
    }

    pub fn is_empty(&self) -> (r: bool)
        ensures
            r == (self.size() == 0),
            r == (self@ == Map::<Seq<char>, T>::empty()),
    {
        proof {
            use_type_invariant(self);
            self.lemma_len();
            if self.size() > 0 {
                lemma_index_unique(self.entries(), 0);
                assert(self@.contains_key(self.key_at(0)));
            } else {
                assert(self@ =~= Map::<Seq<char>, T>::empty());
            }
        }
        self.entries.len() == 0
    }

    proof fn lemma_len(&self)
        requires
            ordered(self.entries()),
        ensures
            self@.len() == self.size(),
            self@.dom().finite(),
    {
        let e = self.entries();
        let keys = Seq::new(e.len(), |i: int| e[i].0);
        assert forall|i: int, j: int| 0 <= i < j < keys.len() implies keys[i] != keys[j] by {
            assert(text_lt(e[i].0, e[j].0));
            lemma_text_lt_irreflexive(e[i].0);
        }
        assert(keys.no_duplicates());
        assert forall|key: Seq<char>| #[trigger] self@.dom().contains(key) <==> keys.to_set().contains(key) by {
            if self@.dom().contains(key) {
                let i = choose|i: int| 0 <= i < e.len() && e[i].0 == key;
                assert(keys[i] == key);
            }
            if keys.to_set().contains(key) {
                assert(keys.contains(key));
                let i = choose|i: int| 0 <= i < keys.len() && keys[i] == key;
                assert(e[i].0 == key);
            }
        }
        assert(self@.dom() =~= keys.to_set());
        keys.unique_seq_to_set();
    }

    /// The `i`-th key in order.
    pub fn key(&self, i: usize) -> (r: &String)
        requires
            i < self.size(),
        ensures
            r@ == self.key_at(i as int),
            self@.contains_key(r@),
            self@[r@] == self.value_at(i as int),
    {
        proof {
            use_type_invariant(self);
            lemma_index_unique(self.entries(), i as int);
        }
        &self.entries[i].0
    }

    /// The `i`-th value in key order.
    pub fn value(&self, i: usize) -> (r: &T)
        requires
            i < self.size(),
        ensures
            *r == self.value_at(i as int),
            self@.contains_key(self.key_at(i as int)),
            self@[self.key_at(i as int)] == *r,
    {
        proof {
            use_type_invariant(self);
            lemma_index_unique(self.entries(), i as int);
        }
        &self.entries[i].1
    }

    /// Where `k` sits, if it is a key.
    pub fn position(&self, k: &str) -> (r: Option<usize>)
        ensures
            r matches Some(i) ==> i < self.size() && self.key_at(i as int) == k@,
            r is None ==> !self@.contains_key(k@),
    {
        let kc = chars_of(k);
        let mut i: usize = 0;
        while i < self.entries.len()
            invariant
                i <= self.size(),
                self.size() == self.entries@.len(),
                kc@ == k@,
                forall|j: int| 0 <= j < i ==> self.key_at(j) != k@,
            decreases self.size() - i,
        {
            let ec = chars_of(self.entries[i].0.as_str());
            assert(self.key_at(i as int) == ec@);
            if same(&ec, &kc) {
                return Some(i);
            }
            i += 1;
        }
        assert(!has_key(self.entries(), k@)) by {
            if has_key(self.entries(), k@) {
                let j = choose|j: int| 0 <= j < self.entries().len() && self.entries()[j].0 == k@;
                assert(self.key_at(j) != k@);
            }
        }
        None
    }

    /// The value under `k` (`BTreeMap::get`).
    pub fn get(&self, k: &str) -> (r: Option<&T>)
        ensures
            r matches Some(v) ==> self@.contains_key(k@) && self@[k@] == *v,
            r is None ==> !self@.contains_key(k@),
    {
        match self.position(k) {
            Some(i) => Some(self.value(i)),
            None => None,
        }
    }

    /// Is `k` a key?
    pub fn contains_key(&self, k: &str) -> (r: bool)
        ensures
            r == self@.contains_key(k@),
    {
        match self.position(k) {
            Some(i) => {
                let _ = self.key(i);
                true
            },
            None => false,
        }
    }

    /// Sets `k` to `v` (`BTreeMap::insert`): the key takes its place in order, or keeps
    /// it when it was already there.
    pub fn insert(&mut self, k: String, v: T)
        ensures
            final(self)@ == old(self)@.insert(k@, v),
    {
        proof {
            use_type_invariant(&*self);
        }
        let kc = chars_of(k.as_str());
        let mut i: usize = 0;
        let ghost e = self.entries();
        while i < self.entries.len()
            invariant
                e == self.entries(),
                ordered(e),
                i <= e.len(),
                e.len() == self.entries@.len(),
                kc@ == k@,
                forall|j: int| 0 <= j < i ==> text_lt(#[trigger] e[j].0, k@),
            ensures
                e == self.entries(),
                ordered(e),
                i <= e.len(),
                e.len() == self.entries@.len(),
                kc@ == k@,
                forall|j: int| 0 <= j < i ==> text_lt(#[trigger] e[j].0, k@),
                i < e.len() ==> !text_lt(e[i as int].0, k@),
            decreases e.len() - i,
        {
            let ec = chars_of(self.entries[i].0.as_str());
            assert(e[i as int].0 == ec@);
            if !precedes(&ec, &kc) {
                break;
            }
            i += 1;
        }
        let found = i < self.entries.len() && same(&chars_of(self.entries[i].0.as_str()), &kc);
        assert(found == (i < e.len() && e[i as int].0 == k@));
        let mut es: Vec<(String, T)> = Vec::new();
        std::mem::swap(&mut es, &mut self.entries);
        let ghost e2: Seq<(Seq<char>, T)>;
        if found {
            // The key is there: only its value changes.
            es.set(i, (k, v));
            proof {
                e2 = es@.map_values(|p: (String, T)| (p.0@, p.1));
                assert(e2 =~= e.update(i as int, (kc@, v)));
                assert(ordered(e2)) by {
                    assert forall|a: int, b: int| 0 <= a < b < e2.len() implies text_lt(
                        e2[a].0,
                        e2[b].0,
                    ) by {
                        assert(e2[a].0 == e[a].0);
                        assert(e2[b].0 == e[b].0);
                    }
                }
            }
        } else {
            es.insert(i, (k, v));
            proof {
                e2 = es@.map_values(|p: (String, T)| (p.0@, p.1));
                assert(e2 =~= e.insert(i as int, (kc@, v)));
                if i < e.len() {
                    lemma_text_lt_total(e[i as int].0, kc@);
                }
                assert forall|j: int| i <= j < e.len() implies text_lt(kc@, #[trigger] e[j].0) by {
                    if j > i {
                        lemma_text_lt_transitive(kc@, e[i as int].0, e[j].0);
                    }
                }
                assert(ordered(e2)) by {
                    assert forall|a: int, b: int| 0 <= a < b < e2.len() implies text_lt(
                        e2[a].0,
                        e2[b].0,
                    ) by {
                        if b < i {
                        } else if b == i {
                        } else if a < i {
                            assert(e2[b].0 == e[b - 1].0);
                            lemma_text_lt_transitive(e[a].0, kc@, e[b - 1].0);
                        } else if a == i {
                            assert(e2[b].0 == e[b - 1].0);
                        } else {
                            assert(e2[a].0 == e[a - 1].0);
                            assert(e2[b].0 == e[b - 1].0);
                        }
                    }
                }
            }
        }
        self.entries = es;
        proof {
            if found {
                self.lemma_update_view(e, i as int, kc@, v);
            } else {
                self.lemma_insert_view(e, i as int, kc@, v);
            }
        }
    }

    proof fn lemma_update_view(&self, e: Seq<(Seq<char>, T)>, i: int, k: Seq<char>, v: T)
        requires
            ordered(e),
            0 <= i < e.len(),
            e[i].0 == k,
            self.entries() == e.update(i, (k, v)),
            ordered(self.entries()),
        ensures
            self@ == as_map(e).insert(k, v),
    {
        let e2 = self.entries();
        assert forall|key: Seq<char>| #[trigger] has_key(e2, key) <==> has_key(e, key) by {
            if has_key(e2, key) {
                let j = choose|j: int| 0 <= j < e2.len() && e2[j].0 == key;
                assert(e[j].0 == key);
            }
            if has_key(e, key) {
                let j = choose|j: int| 0 <= j < e.len() && e[j].0 == key;
                assert(e2[j].0 == key);
            }
        }
        assert forall|key: Seq<char>| has_key(e2, key) implies #[trigger] as_map(e2)[key] == (
        if key == k {
            v
        } else {
            as_map(e)[key]
        }) by {
            let j = choose|j: int| 0 <= j < e2.len() && e2[j].0 == key;
            lemma_index_unique(e2, j);
            lemma_index_unique(e, j);
            if j != i {
                assert(e2[j] == e[j]);
                lemma_index_unique(e, i);
            }
        }
        lemma_index_unique(e, i);
        assert(self@ =~= as_map(e).insert(k, v));
    }

    proof fn lemma_insert_view(&self, e: Seq<(Seq<char>, T)>, i: int, k: Seq<char>, v: T)
        requires
            ordered(e),
            0 <= i <= e.len(),
            forall|j: int| 0 <= j < i ==> text_lt(#[trigger] e[j].0, k),
            forall|j: int| i <= j < e.len() ==> text_lt(k, #[trigger] e[j].0),
            self.entries() == e.insert(i, (k, v)),
            ordered(self.entries()),
        ensures
            self@ == as_map(e).insert(k, v),
    {
        let e2 = self.entries();
        assert forall|key: Seq<char>| #[trigger] has_key(e2, key) <==> (has_key(e, key) || key
            == k) by {
            if has_key(e2, key) {
                let j = choose|j: int| 0 <= j < e2.len() && e2[j].0 == key;
                if j < i {
                    assert(e[j].0 == key);
                } else if j > i {
                    assert(e[j - 1].0 == key);
                }
            }
            if has_key(e, key) {
                let j = choose|j: int| 0 <= j < e.len() && e[j].0 == key;
                if j < i {
                    assert(e2[j].0 == key);
                } else {
                    assert(e2[j + 1].0 == key);
                }
            }
            if key == k {
                assert(e2[i].0 == key);
            }
        }
        assert forall|key: Seq<char>| has_key(e2, key) implies #[trigger] as_map(e2)[key] == (
        if key == k {
            v
        } else {
            as_map(e)[key]
        }) by {
            let j = choose|j: int| 0 <= j < e2.len() && e2[j].0 == key;
            lemma_index_unique(e2, j);
            if j < i {
                assert(e2[j] == e[j]);
                lemma_index_unique(e, j);
                if key == k {
                    lemma_text_lt_irreflexive(k);
                }
            } else if j > i {
                assert(e2[j] == e[j - 1]);
                lemma_index_unique(e, j - 1);
                if key == k {
                    lemma_text_lt_irreflexive(k);
                }
            } else {
                assert(e2[j] == (k, v));
            }
        }
        assert(self@ =~= as_map(e).insert(k, v));
    }
}

impl Dict<String> {
    /// Adds every entry of `other`, whose values win (`BTreeMap::extend`).
    pub fn extend(&mut self, other: &Dict<String>)
        ensures
            final(self)@ == old(self)@.union_prefer_right(other@),
    {
        proof {
            use_type_invariant(other);
        }
        let ghost e = other.entries();
        let n = other.entries.len();
        let mut i: usize = 0;
        assert(as_map(e.take(0)) =~= Map::<Seq<char>, String>::empty());
        assert(old(self)@.union_prefer_right(Map::<Seq<char>, String>::empty()) =~= old(self)@);
        while i < n
            invariant
                e == other.entries(),
                ordered(e),
                n == e.len(),
                i <= n,
                self@ == old(self)@.union_prefer_right(as_map(e.take(i as int))),
            decreases n - i,
        {
            let k = other.entries[i].0.clone();
            let v = other.entries[i].1.clone();
            let ghost before = self@;
            self.insert(k, v);
            proof {
                lemma_as_map_step(e, i as int);
                assert(self@ =~= old(self)@.union_prefer_right(as_map(e.take(i + 1))));
            }
            i += 1;
        }
        assert(e.take(n as int) =~= e);
    }

    /// The map with each value taken as its characters.
    pub open spec fn texts(&self) -> Map<Seq<char>, Seq<char>> {
        self@.map_values(|v: String| v@)
    }

    /// A copy, entry for entry.
    pub fn duplicate(&self) -> (r: Self)
        ensures
            r@ == self@,
            r.texts() == self.texts(),
            r.entries() == self.entries(),
    {
        proof {
            use_type_invariant(self);
        }
        let mut es: Vec<(String, String)> = Vec::new();
        let mut i: usize = 0;
        while i < self.entries.len()
            invariant
                i <= self.entries@.len(),
                es@.len() == i,
                forall|j: int| 0 <= j < i ==> #[trigger] es@[j] == self.entries@[j],
            decreases self.entries@.len() - i,
        {
            let k = self.entries[i].0.clone();
            let v = self.entries[i].1.clone();
            es.push((k, v));
            i += 1;
        }
        assert(es@.map_values(|p: (String, String)| (p.0@, p.1)) =~= self.entries());
        let r = Dict { entries: es };
        r
    }
}

/// One more entry, whose key is new, adds that key.
proof fn lemma_as_map_step<T>(e: Seq<(Seq<char>, T)>, i: int)
    requires
        ordered(e),
        0 <= i < e.len(),
    ensures
        as_map(e.take(i + 1)) == as_map(e.take(i)).insert(e[i].0, e[i].1),
{
    let a = e.take(i + 1);
    let b = e.take(i);
    assert(ordered(a));
    assert(ordered(b));
    let m = as_map(b).insert(e[i].0, e[i].1);
    assert forall|k: Seq<char>| #[trigger] as_map(a).contains_key(k) <==> m.contains_key(k) by {
        if has_key(a, k) {
            let j = choose|j: int| 0 <= j < a.len() && a[j].0 == k;
            if j < i {
                assert(b[j].0 == k);
            }
        }
        if has_key(b, k) {
            let j = choose|j: int| 0 <= j < b.len() && b[j].0 == k;
            assert(a[j].0 == k);
        }
        if k == e[i].0 {
            assert(a[i].0 == k);
        }
    }
    assert forall|k: Seq<char>| as_map(a).contains_key(k) implies #[trigger] as_map(a)[k] == m[k] by {
        let j = choose|j: int| 0 <= j < a.len() && a[j].0 == k;
        lemma_index_unique(a, j);
        if j < i {
            assert(b[j] == a[j]);
            lemma_index_unique(b, j);
            assert(k != e[i].0) by {
                assert(text_lt(a[j].0, a[i].0));
                lemma_text_lt_irreflexive(k);
            }
        }
    }
    assert(as_map(a) =~= m);
}

/// The keys among the first `j` entries.
pub open spec fn first_keys<T>(d: &Dict<T>, j: int) -> Set<Seq<char>> {
    Set::new(|k: Seq<char>| exists|t: int| 0 <= t < j && d.key_at(t) == k)
}

/// One more entry adds its key.
pub proof fn lemma_first_keys_step<T>(d: &Dict<T>, j: int)
    requires
        0 <= j < d.size(),
    ensures
        first_keys(d, j + 1) == first_keys(d, j).insert(d.key_at(j)),
{
    assert forall|x: Seq<char>| #[trigger] first_keys(d, j + 1).contains(x) <==> first_keys(d, j).insert(d.key_at(j)).contains(x) by {
        if first_keys(d, j + 1).contains(x) {
            let t = choose|t: int| 0 <= t < j + 1 && d.key_at(t) == x;
            if t < j {
                assert(first_keys(d, j).contains(x));
            }
        }
        if first_keys(d, j).contains(x) {
            let t = choose|t: int| 0 <= t < j && d.key_at(t) == x;
            assert(d.key_at(t) == x);
        }
        if x == d.key_at(j) {
            assert(d.key_at(j) == x);
        }
    }
    assert(first_keys(d, j + 1) =~= first_keys(d, j).insert(d.key_at(j)));
}

/// All the entries give all the keys.
pub proof fn lemma_first_keys_all<T>(d: &Dict<T>)
    ensures
        first_keys(d, d.size() as int) == d@.dom(),
        first_keys(d, 0) == Set::<Seq<char>>::empty(),
{
    assert forall|x: Seq<char>| #[trigger] first_keys(d, d.size() as int).contains(x) <==> d@.dom().contains(x) by {
        if d@.dom().contains(x) {
            let t = choose|t: int| 0 <= t < d.entries().len() && d.entries()[t].0 == x;
            assert(d.key_at(t) == x);
        }
    }
    assert(first_keys(d, d.size() as int) =~= d@.dom());
    assert(first_keys(d, 0) =~= Set::<Seq<char>>::empty());
}

impl<T> View for Dict<T> {
    type V = Map<Seq<char>, T>;

    open spec fn view(&self) -> Map<Seq<char>, T> {
        as_map(self.entries())
    }
}

} // verus!
