use vstd::prelude::*;

use crate::text::bytes_equal;

verus! {

/// Whether an entry list has an entry under key `k`.
pub open spec fn has_key<T>(es: Seq<(Seq<u8>, T)>, k: Seq<u8>) -> bool {
    exists|i: int| 0 <= i < es.len() && #[trigger] es[i].0 == k
}

/// Position of the entry under key `k` (meaningful when there is one).
pub open spec fn key_index<T>(es: Seq<(Seq<u8>, T)>, k: Seq<u8>) -> int {
    choose|i: int| 0 <= i < es.len() && #[trigger] es[i].0 == k
}

/// The value under key `k`, if any.
pub open spec fn lookup<T>(es: Seq<(Seq<u8>, T)>, k: Seq<u8>) -> Option<T> {
    if has_key(es, k) {
        Some(es[key_index(es, k)].1)
    } else {
        None
    }
}

/// No two entries share a key.
pub open spec fn distinct_keys<T>(es: Seq<(Seq<u8>, T)>) -> bool {
    forall|i: int, j: int| 0 <= i < j < es.len() ==> es[i].0 != es[j].0
}

/// The entries after setting key `k` to `v` as a PDF dictionary does:
/// an entry under `k` is removed and the new entry goes last.
pub open spec fn set_entry<T>(es: Seq<(Seq<u8>, T)>, k: Seq<u8>, v: T) -> Seq<(Seq<u8>, T)> {
    if has_key(es, k) {
        es.remove(key_index(es, k)).push((k, v))
    } else {
        es.push((k, v))
    }
}

/// The entries after setting every entry of `over`, in order.
pub open spec fn set_all<T>(es: Seq<(Seq<u8>, T)>, over: Seq<(Seq<u8>, T)>) -> Seq<(Seq<u8>, T)>
    decreases over.len(),
{
    if over.len() == 0 {
        es
    } else {
        let before = set_all(es, over.drop_last());
        set_entry(before, over.last().0, over.last().1)
    }
}

/// With distinct keys, the entry found under `k` is the one at `i`.
pub proof fn lemma_key_index_unique<T>(es: Seq<(Seq<u8>, T)>, k: Seq<u8>, i: int)
    requires
        distinct_keys(es),
        0 <= i < es.len(),
        es[i].0 == k,
    ensures
        has_key(es, k),
        key_index(es, k) == i,
        lookup(es, k) == Some(es[i].1),
{
    assert(has_key(es, k));
    let j = key_index(es, k);
    if j != i {
        if j < i {
            assert(es[j].0 != es[i].0);
        } else {
            assert(es[i].0 != es[j].0);
        }
    }
}

/// Setting an entry keeps keys distinct.
pub proof fn lemma_set_entry_distinct<T>(es: Seq<(Seq<u8>, T)>, k: Seq<u8>, v: T)
    requires
        distinct_keys(es),
    ensures
        distinct_keys(set_entry(es, k, v)),
        has_key(set_entry(es, k, v), k),
        lookup(set_entry(es, k, v), k) == Some(v),
{
    let r = set_entry(es, k, v);
    if has_key(es, k) {
        let idx = key_index(es, k);
        let rem = es.remove(idx);
        assert forall|a: int, b: int| 0 <= a < b < r.len() implies r[a].0 != r[b].0 by {
            if b == r.len() - 1 {
                let ia = if a < idx { a } else { a + 1 };
                assert(rem[a] == es[ia]);
                assert(ia != idx);
                if es[ia].0 == k {
                    if ia < idx {
                        assert(es[ia].0 != es[idx].0);
                    } else {
                        assert(es[idx].0 != es[ia].0);
                    }
                }
            } else {
                let ia = if a < idx { a } else { a + 1 };
                let ib = if b < idx { b } else { b + 1 };
                assert(rem[a] == es[ia]);
                assert(rem[b] == es[ib]);
                assert(ia < ib);
            }
        }
    } else {
        assert forall|a: int, b: int| 0 <= a < b < r.len() implies r[a].0 != r[b].0 by {
            if b == r.len() - 1 {
                assert(r[a] == es[a]);
            }
        }
    }
    lemma_key_index_unique(r, k, r.len() - 1);
}


/// Applying `f` to every value keeps keys, so it commutes with finding,
/// looking up and setting entries.
pub proof fn lemma_map_values_entries<T, U>(es: Seq<(Seq<u8>, T)>, f: spec_fn(T) -> U, k: Seq<u8>, v: T)
    requires
        distinct_keys(es),
    ensures
        distinct_keys(es.map_values(|e: (Seq<u8>, T)| (e.0, f(e.1)))),
        has_key(es.map_values(|e: (Seq<u8>, T)| (e.0, f(e.1))), k) == has_key(es, k),
        has_key(es, k) ==> key_index(es.map_values(|e: (Seq<u8>, T)| (e.0, f(e.1))), k) == key_index(es, k),
        lookup(es.map_values(|e: (Seq<u8>, T)| (e.0, f(e.1))), k) == match lookup(es, k) {
            Some(x) => Some(f(x)),
            None => None,
        },
        set_entry(es, k, v).map_values(|e: (Seq<u8>, T)| (e.0, f(e.1))) == set_entry(
            es.map_values(|e: (Seq<u8>, T)| (e.0, f(e.1))),
            k,
            f(v),
        ),
{
    let m = es.map_values(|e: (Seq<u8>, T)| (e.0, f(e.1)));
    assert forall|i: int, j: int| 0 <= i < j < m.len() implies m[i].0 != m[j].0 by {
        assert(m[i].0 == es[i].0);
        assert(m[j].0 == es[j].0);
    }
    if has_key(es, k) {
        let i = key_index(es, k);
        assert(m[i].0 == k);
        lemma_key_index_unique(m, k, i);
        assert(set_entry(es, k, v).map_values(|e: (Seq<u8>, T)| (e.0, f(e.1))) =~= set_entry(m, k, f(v)));
    } else {
        if has_key(m, k) {
            let i = key_index(m, k);
            assert(es[i].0 == k);
        }
        assert(set_entry(es, k, v).map_values(|e: (Seq<u8>, T)| (e.0, f(e.1))) =~= set_entry(m, k, f(v)));
    }
}

/// Setting a key after taking out its entry is setting it.
pub proof fn lemma_set_after_remove<T>(es: Seq<(Seq<u8>, T)>, k: Seq<u8>, v: T)
    requires
        distinct_keys(es),
        has_key(es, k),
    ensures
        set_entry(es.remove(key_index(es, k)), k, v) == set_entry(es, k, v),
{
    let idx = key_index(es, k);
    let rem = es.remove(idx);
    if has_key(rem, k) {
        let j = key_index(rem, k);
        let ij = if j < idx { j } else { j + 1 };
        assert(rem[j] == es[ij]);
        if ij < idx {
            assert(es[ij].0 != es[idx].0);
        } else {
            assert(es[idx].0 != es[ij].0);
        }
    }
}


/// Looking up any key after setting one entry.
pub proof fn lemma_lookup_set_entry<T>(es: Seq<(Seq<u8>, T)>, k: Seq<u8>, v: T, k2: Seq<u8>)
    requires
        distinct_keys(es),
    ensures
        lookup(set_entry(es, k, v), k2) == if k2 == k {
            Some(v)
        } else {
            lookup(es, k2)
        },
        has_key(set_entry(es, k, v), k2) == (k2 == k || has_key(es, k2)),
{
    lemma_set_entry_distinct(es, k, v);
    let r = set_entry(es, k, v);
    if k2 != k {
        if has_key(es, k2) {
            let i = key_index(es, k2);
            lemma_key_index_unique(es, k2, i);
            if has_key(es, k) {
                let idx = key_index(es, k);
                assert(i != idx);
                let j = if i < idx { i } else { i - 1 };
                assert(r[j] == es[i]);
                lemma_key_index_unique(r, k2, j);
            } else {
                assert(r[i] == es[i]);
                lemma_key_index_unique(r, k2, i);
            }
        } else {
            if has_key(r, k2) {
                let j = key_index(r, k2);
                if has_key(es, k) {
                    let idx = key_index(es, k);
                    let i = if j < idx { j } else { j + 1 };
                    if j < r.len() - 1 {
                        assert(r[j] == es[i]);
                    }
                } else {
                    if j < r.len() - 1 {
                        assert(r[j] == es[j]);
                    }
                }
            }
        }
    }
}

/// An ordered dictionary with distinct keys, whose setting follows PDF
/// dictionaries: a set entry goes last.
pub struct Entries<T> {
    items: Vec<(Vec<u8>, T)>,
}

impl<T> Entries<T> {
    /// The entries, in order, keys as bytes.
    pub closed spec fn view(&self) -> Seq<(Seq<u8>, T)> {
        self.items@.map_values(|e: (Vec<u8>, T)| (e.0@, e.1))
    }

    /// No two entries share a key.
    pub open spec fn wf(&self) -> bool {
        distinct_keys(self.view())
    }

    /// No entries.
    pub fn new() -> (r: Entries<T>)
        ensures
            r.view() == Seq::<(Seq<u8>, T)>::empty(),
            r.wf(),
    {
        let r = Entries { items: Vec::new() };
        assert(r.view() =~= Seq::<(Seq<u8>, T)>::empty());
        r
    }

    /// The number of entries.
    pub fn len(&self) -> (r: usize)
        ensures
            r == self.view().len(),
    {
        self.items.len()
    }

    /// Position of the entry under key `k`.
    pub fn find(&self, k: &[u8]) -> (r: Option<usize>)
        requires
            self.wf(),
        ensures
            match r {
                Some(i) => i < self.view().len() && self.view()[i as int].0 == k@ && key_index(
                    self.view(),
                    k@,
                ) == i,
                None => !has_key(self.view(), k@),
            },
    {
        let mut i: usize = 0;
        while i < self.items.len()
            invariant
                i <= self.items@.len(),
                self.wf(),
                self.view().len() == self.items@.len(),
                forall|j: int| 0 <= j < i ==> self.view()[j].0 != k@,
            decreases self.items.len() - i,
        {
            assert(self.view()[i as int].0 == self.items@[i as int].0@);
            if bytes_equal(self.items[i].0.as_slice(), k) {
                proof {
                    lemma_key_index_unique(self.view(), k@, i as int);
                }
                return Some(i);
            }
            i = i + 1;
        }
        None
    }

    /// The value of the entry at position `i`.
    pub fn value_at(&self, i: usize) -> (r: &T)
        requires
            i < self.view().len(),
        ensures
            *r == self.view()[i as int].1,
    {
        &self.items[i].1
    }

    /// Whether there is an entry under key `k`.
    pub fn contains(&self, k: &[u8]) -> (r: bool)
        requires
            self.wf(),
        ensures
            r == has_key(self.view(), k@),
    {
        self.find(k).is_some()
    }

    /// Sets key `k` to `v`: an entry under `k` is removed and the new
    /// entry goes last.
    pub fn set(&mut self, k: Vec<u8>, v: T)
        requires
            old(self).wf(),
        ensures
            final(self).wf(),
            final(self).view() == set_entry(old(self).view(), k@, v),
    {
        let ghost before = self.view();
        match self.find(k.as_slice()) {
            Some(i) => {
                self.items.remove(i);
                assert(self.view() =~= before.remove(i as int));
            },
            None => {},
        }
        let ghost mid = self.view();
        self.items.push((k, v));
        assert(self.view() =~= mid.push((k@, v)));
        proof {
            lemma_set_entry_distinct(before, k@, v);
        }
    }

    /// Takes out the value under key `k`, if any.
    pub fn remove(&mut self, k: &[u8]) -> (r: Option<T>)
        requires
            old(self).wf(),
        ensures
            final(self).wf(),
            r == lookup(old(self).view(), k@),
            final(self).view() == if has_key(old(self).view(), k@) {
                old(self).view().remove(key_index(old(self).view(), k@))
            } else {
                old(self).view()
            },
    {
        let ghost before = self.view();
        match self.find(k) {
            Some(i) => {
                let (_, v) = self.items.remove(i);
                assert(self.view() =~= before.remove(i as int));
                assert forall|a: int, b: int| 0 <= a < b < self.view().len() implies self.view()[a].0
                    != self.view()[b].0 by {
                    let ia = if a < i { a } else { a + 1 };
                    let ib = if b < i { b } else { b + 1 };
                    assert(self.view()[a] == before[ia]);
                    assert(self.view()[b] == before[ib]);
                }
                Some(v)
            },
            None => None,
        }
    }

    /// The entries, in order.
    pub fn into_vec(self) -> (r: Vec<(Vec<u8>, T)>)
        ensures
            r@.map_values(|e: (Vec<u8>, T)| (e.0@, e.1)) == self.view(),
    {
        self.items
    }
}

} // verus!
