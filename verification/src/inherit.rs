use vstd::prelude::*;

use crate::dict::{
    distinct_keys, has_key, key_index, lemma_map_values_entries, lemma_set_after_remove,
    lemma_set_entry_distinct, lemma_key_index_unique, lemma_lookup_set_entry, lookup, set_all, set_entry, Entries,
};

verus! {

/// A value of a resource dictionary (a resource category such as `Font`
/// or `XObject`), as the inheritance logic sees it. `V` is a PDF object,
/// carried through unread.
pub enum ResValue<V> {
    /// A dictionary written out in place, with its entries.
    Inline(Entries<V>),
    /// A value as the document holds it, with the entries of the
    /// dictionary that it is or refers to, when it is or refers to one.
    Stored(V, Option<Entries<V>>),
}

/// A resource value with its dictionaries' entries as sequences.
pub enum CategoryView<V> {
    Inline(Seq<(Seq<u8>, V)>),
    Stored(V, Option<Seq<(Seq<u8>, V)>>),
}

/// The view of a resource value.
pub open spec fn cat_view<V>(rv: ResValue<V>) -> CategoryView<V> {
    match rv {
        ResValue::Inline(c) => CategoryView::Inline(c.view()),
        ResValue::Stored(v, d) => CategoryView::Stored(
            v,
            match d {
                Some(c) => Some(c.view()),
                None => None,
            },
        ),
    }
}

/// The dictionaries inside a resource value have distinct keys.
pub open spec fn cat_wf<V>(rv: ResValue<V>) -> bool {
    match rv {
        ResValue::Inline(c) => c.wf(),
        ResValue::Stored(_, Some(c)) => c.wf(),
        ResValue::Stored(_, None) => true,
    }
}

/// The entries of the dictionary that a resource value is or refers to.
pub open spec fn deref_view<V>(c: CategoryView<V>) -> Option<Seq<(Seq<u8>, V)>> {
    match c {
        CategoryView::Inline(es) => Some(es),
        CategoryView::Stored(_, d) => d,
    }
}

/// The view of a resource dictionary's entries.
pub open spec fn res_view<V>(es: Seq<(Seq<u8>, ResValue<V>)>) -> Seq<(Seq<u8>, CategoryView<V>)> {
    es.map_values(|e: (Seq<u8>, ResValue<V>)| (e.0, cat_view(e.1)))
}

/// A resource dictionary has distinct keys, in it and in its categories.
pub open spec fn resources_wf<V>(r: &Entries<ResValue<V>>) -> bool {
    &&& r.wf()
    &&& forall|i: int| 0 <= i < r.view().len() ==> cat_wf(#[trigger] r.view()[i].1)
}

/// A category of an overlay dictionary laid over the parent's value
/// under the same key: when the overlay's value is not a dictionary, it
/// replaces the parent's; when both are dictionaries, the overlay's
/// entries are set over the parent's, written out in place; otherwise the
/// overlay's dictionary is written out in place.
pub open spec fn merged_category<V>(base: Option<CategoryView<V>>, over: CategoryView<V>) -> CategoryView<V> {
    match deref_view(over) {
        None => over,
        Some(od) => match base {
            Some(b) => match deref_view(b) {
                Some(bd) => CategoryView::Inline(set_all(bd, od)),
                None => CategoryView::Inline(od),
            },
            None => CategoryView::Inline(od),
        },
    }
}

/// A resource dictionary after laying the overlay's entries over it, in
/// the overlay's order.
pub open spec fn merge_entries<V>(
    base: Seq<(Seq<u8>, CategoryView<V>)>,
    over: Seq<(Seq<u8>, CategoryView<V>)>,
) -> Seq<(Seq<u8>, CategoryView<V>)>
    decreases over.len(),
{
    if over.len() == 0 {
        base
    } else {
        let before = merge_entries(base, over.drop_last());
        let (k, ov) = over.last();
        set_entry(before, k, merged_category(lookup(before, k), ov))
    }
}

/// Sets every entry of `over` in `m`, in order.
fn set_all_into<V>(m: &mut Entries<V>, over: Entries<V>)
    requires
        old(m).wf(),
    ensures
        final(m).wf(),
        final(m).view() == set_all(old(m).view(), over.view()),
{
    let ghost start = m.view();
    let ghost all = over.view();
    let items = over.into_vec();
    let n = items.len();
    let mut i: usize = 0;
    for item in it: items.into_iter()
        invariant
            it.seq().map_values(|e: (Vec<u8>, V)| (e.0@, e.1)) == all,
            all.len() == n,
            i == it.index(),
            i <= all.len(),
            m.wf(),
            m.view() == set_all(start, all.take(i as int)),
    {
        let (k, v) = item;
        proof {
            assert(all.take(i + 1).drop_last() =~= all.take(i as int));
            assert(all[i as int] == (k@, v));
        }
        m.set(k, v);
        i = i + 1;
    }
    assert(all.take(all.len() as int) =~= all);
}

/// Setting a resource entry, seen through the view.
proof fn lemma_res_set<V>(es: Seq<(Seq<u8>, ResValue<V>)>, k: Seq<u8>, rv: ResValue<V>)
    requires
        distinct_keys(es),
    ensures
        res_view(set_entry(es, k, rv)) == set_entry(res_view(es), k, cat_view(rv)),
        lookup(res_view(es), k) == match lookup(es, k) {
            Some(x) => Some(cat_view(x)),
            None => None,
        },
        has_key(res_view(es), k) == has_key(es, k),
{
    lemma_map_values_entries(es, |x: ResValue<V>| cat_view(x), k, rv);
    assert(res_view(es) =~= es.map_values(|e: (Seq<u8>, ResValue<V>)| (e.0, (|x: ResValue<V>| cat_view(x))(e.1))));
    assert(res_view(set_entry(es, k, rv)) =~= set_entry(es, k, rv).map_values(|e: (Seq<u8>, ResValue<V>)| (e.0, (|x: ResValue<V>| cat_view(x))(e.1))));
}

/// Lays an overlay resource dictionary over `base`: each category of the
/// overlay replaces, or is merged into, the category of `base` under the
/// same key (a child's resources override its parent's).
pub fn merge_resource_dict<V>(base: &mut Entries<ResValue<V>>, overlay: Entries<ResValue<V>>)
    requires
        resources_wf(old(base)),
        resources_wf(&overlay),
    ensures
        resources_wf(final(base)),
        res_view(final(base).view()) == merge_entries(res_view(old(base).view()), res_view(overlay.view())),
{
    let ghost b0 = res_view(base.view());
    let ghost raw = overlay.view();
    let ghost all = res_view(raw);
    let items = overlay.into_vec();
    let n = items.len();
    let mut i: usize = 0;
    for item in it: items.into_iter()
        invariant
            it.seq().map_values(|e: (Vec<u8>, ResValue<V>)| (e.0@, e.1)) == raw,
            raw.len() == n,
            all == res_view(raw),
            forall|j: int| 0 <= j < raw.len() ==> cat_wf(#[trigger] raw[j].1),
            i == it.index(),
            i <= raw.len(),
            resources_wf(base),
            res_view(base.view()) == merge_entries(b0, all.take(i as int)),
    {
        let (k, v) = item;
        let ghost before = base.view();
        proof {
            assert(all.take(i + 1).drop_last() =~= all.take(i as int));
            assert(raw[i as int] == (k@, v));
            assert(all[i as int] == (k@, cat_view(v)));
            lemma_res_set(before, k@, v);
        }
        let ghost ov = cat_view(v);
        let ghost target = merged_category(lookup(res_view(before), k@), ov);
        let new_value: ResValue<V> = if v.is_dictionary() {
            let od = match v.into_dictionary() {
                Some(d) => d,
                None => {
                    assert(false);
                    Entries::new()
                },
            };
            let parent: Option<Entries<V>> = match base.remove(k.as_slice()) {
                Some(existing) => existing.into_dictionary(),
                None => None,
            };
            match parent {
                Some(mut m) => {
                    set_all_into(&mut m, od);
                    ResValue::Inline(m)
                },
                None => ResValue::Inline(od),
            }
        } else {
            v
        };
        proof {
            assert(cat_view(new_value) == target);
            if has_key(before, k@) {
                lemma_set_after_remove(before, k@, new_value);
            }
        }
        let ghost mid = base.view();
        base.set(k, new_value);
        proof {
            assert(base.view() == set_entry(before, k@, new_value));
            lemma_res_set(before, k@, new_value);
            lemma_set_entry_distinct(before, k@, new_value);
        }
        i = i + 1;
    }
    assert(all.take(all.len() as int) =~= all);
}

impl<V> ResValue<V> {
    /// Whether the value is, or refers to, a dictionary.
    pub fn is_dictionary(&self) -> (r: bool)
        ensures
            r == deref_view(cat_view(*self)) is Some,
    {
        match self {
            ResValue::Inline(_) => true,
            ResValue::Stored(_, Some(_)) => true,
            ResValue::Stored(_, None) => false,
        }
    }

    /// The entries of the dictionary that the value is or refers to.
    pub fn into_dictionary(self) -> (r: Option<Entries<V>>)
        ensures
            match r {
                Some(c) => deref_view(cat_view(self)) == Some(c.view()) && (cat_wf(self) ==> c.wf()),
                None => deref_view(cat_view(self)) is None,
            },
    {
        match self {
            ResValue::Inline(c) => Some(c),
            ResValue::Stored(_, d) => d,
        }
    }
}

/// Entries of `p` added to `c` under keys that `c` lacks, in order.
pub open spec fn fill_missing<V>(c: Seq<(Seq<u8>, V)>, p: Seq<(Seq<u8>, V)>) -> Seq<(Seq<u8>, V)>
    decreases p.len(),
{
    if p.len() == 0 {
        c
    } else {
        let before = fill_missing(c, p.drop_last());
        if has_key(before, p.last().0) {
            before
        } else {
            set_entry(before, p.last().0, p.last().1)
        }
    }
}

/// A form's resource dictionary after inheriting from its parent's, in
/// the parent's order: a category the form lacks is taken whole; a
/// category both have as dictionaries gets the parent's entries the
/// form's lacks, and is written out in place.
pub open spec fn inherit_entries<V>(
    res: Seq<(Seq<u8>, CategoryView<V>)>,
    parent: Seq<(Seq<u8>, CategoryView<V>)>,
) -> Seq<(Seq<u8>, CategoryView<V>)>
    decreases parent.len(),
{
    if parent.len() == 0 {
        res
    } else {
        let before = inherit_entries(res, parent.drop_last());
        let (k, pv) = parent.last();
        match lookup(before, k) {
            None => set_entry(before, k, pv),
            Some(cv) => match (deref_view(cv), deref_view(pv)) {
                (Some(c), Some(p)) => set_entry(before, k, CategoryView::Inline(fill_missing(c, p))),
                _ => before,
            },
        }
    }
}

/// Completing a category from its parent's inherits every entry it
/// lacks: after `fill_missing` (both with distinct keys), a key the child
/// has keeps the child's value, a key only the parent has holds the
/// parent's value, and no other key appears.
pub proof fn law_fill_missing_inherits<V>(c: Seq<(Seq<u8>, V)>, p: Seq<(Seq<u8>, V)>, k: Seq<u8>)
    requires
        distinct_keys(c),
        distinct_keys(p),
    ensures
        distinct_keys(fill_missing(c, p)),
        lookup(fill_missing(c, p), k) == if has_key(c, k) {
            lookup(c, k)
        } else {
            lookup(p, k)
        },
    decreases p.len(),
{
    if p.len() > 0 {
        let rest = p.drop_last();
        assert(distinct_keys(rest)) by {
            assert forall|i: int, j: int| 0 <= i < j < rest.len() implies rest[i].0 != rest[j].0 by {
                assert(rest[i] == p[i] && rest[j] == p[j]);
            }
        }
        let (kl, vl) = p.last();
        law_fill_missing_inherits(c, rest, k);
        law_fill_missing_inherits(c, rest, kl);
        let before = fill_missing(c, rest);
        if !has_key(before, kl) {
            lemma_lookup_set_entry(before, kl, vl, k);
            lemma_set_entry_distinct(before, kl, vl);
        }
        if has_key(rest, kl) {
            let i = key_index(rest, kl);
            assert(rest[i] == p[i]);
            assert(p[i].0 != p[p.len() - 1].0);
        }
        if k == kl {
            lemma_key_index_unique(p, k, p.len() - 1);
        } else {
            if has_key(p, k) {
                let i = key_index(p, k);
                lemma_key_index_unique(p, k, i);
                assert(i != p.len() - 1);
                assert(rest[i] == p[i]);
                lemma_key_index_unique(rest, k, i);
            } else {
                if has_key(rest, k) {
                    let i = key_index(rest, k);
                    assert(rest[i] == p[i]);
                }
            }
        }
    }
}

/// Adds the entries of `p` under keys that `c` lacks.
fn fill_missing_into<V>(c: &mut Entries<V>, p: Entries<V>)
    requires
        old(c).wf(),
    ensures
        final(c).wf(),
        final(c).view() == fill_missing(old(c).view(), p.view()),
{
    let ghost start = c.view();
    let ghost all = p.view();
    let items = p.into_vec();
    let n = items.len();
    let mut i: usize = 0;
    for item in it: items.into_iter()
        invariant
            it.seq().map_values(|e: (Vec<u8>, V)| (e.0@, e.1)) == all,
            all.len() == n,
            i == it.index(),
            i <= all.len(),
            c.wf(),
            c.view() == fill_missing(start, all.take(i as int)),
    {
        let (k, v) = item;
        proof {
            assert(all.take(i + 1).drop_last() =~= all.take(i as int));
            assert(all[i as int] == (k@, v));
        }
        if !c.contains(k.as_slice()) {
            c.set(k, v);
        }
        i = i + 1;
    }
    assert(all.take(all.len() as int) =~= all);
}

/// The resources a form XObject uses: its own resource dictionary (when
/// it has one) completed from its parent's, or else its parent's.
pub fn inherit_form_resources<V>(form: Option<Entries<ResValue<V>>>, parent: Entries<ResValue<V>>) -> (r: Entries<
    ResValue<V>,
>)
    requires
        match form {
            Some(f) => resources_wf(&f),
            None => true,
        },
        resources_wf(&parent),
    ensures
        resources_wf(&r),
        res_view(r.view()) == match form {
            Some(f) => inherit_entries(res_view(f.view()), res_view(parent.view())),
            None => res_view(parent.view()),
        },
{
    let mut res = match form {
        Some(f) => f,
        None => return parent,
    };
    let ghost r0 = res_view(res.view());
    let ghost raw = parent.view();
    let ghost all = res_view(raw);
    let items = parent.into_vec();
    let n = items.len();
    let mut i: usize = 0;
    for item in it: items.into_iter()
        invariant
            it.seq().map_values(|e: (Vec<u8>, ResValue<V>)| (e.0@, e.1)) == raw,
            raw.len() == n,
            all == res_view(raw),
            forall|j: int| 0 <= j < raw.len() ==> cat_wf(#[trigger] raw[j].1),
            i == it.index(),
            i <= raw.len(),
            resources_wf(&res),
            res_view(res.view()) == inherit_entries(r0, all.take(i as int)),
    {
        let (k, pv) = item;
        let ghost before = res.view();
        proof {
            assert(all.take(i + 1).drop_last() =~= all.take(i as int));
            assert(raw[i as int] == (k@, pv));
            assert(all[i as int] == (k@, cat_view(pv)));
            lemma_res_set(before, k@, pv);
        }
        match res.find(k.as_slice()) {
            None => {
                proof {
                    lemma_set_entry_distinct(before, k@, pv);
                }
                res.set(k, pv);
            },
            Some(idx) => {
                let ghost cv = before[idx as int].1;
                proof {
                    lemma_key_index_unique(before, k@, idx as int);
                }
                if res.value_at(idx).is_dictionary() && pv.is_dictionary() {
                    let existing = res.remove(k.as_slice());
                    let mut child = match existing {
                        Some(e) => match e.into_dictionary() {
                            Some(c) => c,
                            None => {
                                assert(false);
                                Entries::new()
                            },
                        },
                        None => {
                            assert(false);
                            Entries::new()
                        },
                    };
                    let inherited = match pv.into_dictionary() {
                        Some(p) => p,
                        None => {
                            assert(false);
                            Entries::new()
                        },
                    };
                    assert(cat_wf(cv));
                    fill_missing_into(&mut child, inherited);
                    let new_value = ResValue::Inline(child);
                    proof {
                        lemma_set_after_remove(before, k@, new_value);
                        lemma_res_set(before, k@, new_value);
                        lemma_set_entry_distinct(before, k@, new_value);
                    }
                    res.set(k, new_value);
                }
            },
        }
        i = i + 1;
    }
    assert(all.take(all.len() as int) =~= all);
    res
}

/// A resource dictionary laid together from layers, first to last, each
/// merged over the ones before (see `merge_entries`).
pub open spec fn merge_layers<V>(layers: Seq<Seq<(Seq<u8>, CategoryView<V>)>>) -> Seq<(Seq<u8>, CategoryView<V>)>
    decreases layers.len(),
{
    if layers.len() == 0 {
        Seq::empty()
    } else {
        merge_entries(merge_layers(layers.drop_last()), layers.last())
    }
}

/// The resources of a page: the resource dictionaries it inherits, from
/// the root of the page tree down, then its own, each merged over the
/// ones before.
pub fn inherit_page_resources<V>(layers: Vec<Entries<ResValue<V>>>) -> (r: Entries<ResValue<V>>)
    requires
        forall|j: int| 0 <= j < layers@.len() ==> resources_wf(&#[trigger] layers@[j]),
    ensures
        resources_wf(&r),
        res_view(r.view()) == merge_layers(layers@.map_values(|l: Entries<ResValue<V>>| res_view(l.view()))),
{
    let ghost ls = layers@;
    let ghost views = ls.map_values(|l: Entries<ResValue<V>>| res_view(l.view()));
    let mut out: Entries<ResValue<V>> = Entries::new();
    proof {
        assert(res_view(out.view()) =~= Seq::<(Seq<u8>, CategoryView<V>)>::empty());
    }
    let n = layers.len();
    let mut i: usize = 0;
    for layer in it: layers.into_iter()
        invariant
            it.seq() == ls,
            ls.len() == n,
            views == ls.map_values(|l: Entries<ResValue<V>>| res_view(l.view())),
            forall|j: int| 0 <= j < ls.len() ==> resources_wf(&#[trigger] ls[j]),
            i == it.index(),
            i <= ls.len(),
            resources_wf(&out),
            res_view(out.view()) == merge_layers(views.take(i as int)),
    {
        proof {
            assert(views.take(i + 1).drop_last() =~= views.take(i as int));
            assert(ls[i as int] == layer);
        }
        merge_resource_dict(&mut out, layer);
        i = i + 1;
    }
    assert(views.take(views.len() as int) =~= views);
    out
}

/// Laying an overlay over a dictionary keeps keys distinct.
proof fn lemma_merge_distinct<V>(base: Seq<(Seq<u8>, CategoryView<V>)>, over: Seq<(Seq<u8>, CategoryView<V>)>)
    requires
        distinct_keys(base),
    ensures
        distinct_keys(merge_entries(base, over)),
    decreases over.len(),
{
    if over.len() > 0 {
        lemma_merge_distinct(base, over.drop_last());
        let before = merge_entries(base, over.drop_last());
        let (k, ov) = over.last();
        lemma_set_entry_distinct(before, k, merged_category(lookup(before, k), ov));
    }
}

/// A child's resources override its parent's: after laying `over` (with
/// distinct keys) over `base`, each key of `over` holds its category laid
/// over the parent's category under that key, and every other key keeps
/// the parent's value.
pub proof fn law_child_overrides_parent<V>(
    base: Seq<(Seq<u8>, CategoryView<V>)>,
    over: Seq<(Seq<u8>, CategoryView<V>)>,
    k: Seq<u8>,
)
    requires
        distinct_keys(base),
        distinct_keys(over),
    ensures
        lookup(merge_entries(base, over), k) == match lookup(over, k) {
            Some(ov) => Some(merged_category(lookup(base, k), ov)),
            None => lookup(base, k),
        },
    decreases over.len(),
{
    if over.len() > 0 {
        let rest = over.drop_last();
        assert(distinct_keys(rest)) by {
            assert forall|i: int, j: int| 0 <= i < j < rest.len() implies rest[i].0 != rest[j].0 by {
                assert(rest[i] == over[i] && rest[j] == over[j]);
            }
        }
        let (kl, ov) = over.last();
        law_child_overrides_parent(base, rest, k);
        law_child_overrides_parent(base, rest, kl);
        lemma_merge_distinct(base, rest);
        let before = merge_entries(base, rest);
        lemma_lookup_set_entry(before, kl, merged_category(lookup(before, kl), ov), k);
        // `kl` is not a key of `rest`.
        if has_key(rest, kl) {
            let i = key_index(rest, kl);
            assert(rest[i] == over[i]);
            assert(over[i].0 != over[over.len() - 1].0);
        }
        if k == kl {
            lemma_key_index_unique(over, k, over.len() - 1);
        } else {
            if has_key(over, k) {
                let i = key_index(over, k);
                lemma_key_index_unique(over, k, i);
                assert(i != over.len() - 1);
                assert(rest[i] == over[i]);
                lemma_key_index_unique(rest, k, i);
            } else {
                if has_key(rest, k) {
                    let i = key_index(rest, k);
                    assert(rest[i] == over[i]);
                }
            }
        }
    }
}

/// A form keeps its own resources and inherits the rest: after
/// completing `res` from `parent` (both with distinct keys), every key of
/// either is present; a key only the parent has holds the parent's value;
/// a key only the form has keeps the form's value.
pub proof fn law_form_inherits_missing<V>(
    res: Seq<(Seq<u8>, CategoryView<V>)>,
    parent: Seq<(Seq<u8>, CategoryView<V>)>,
    k: Seq<u8>,
)
    requires
        distinct_keys(res),
        distinct_keys(parent),
    ensures
        distinct_keys(inherit_entries(res, parent)),
        has_key(inherit_entries(res, parent), k) == (has_key(res, k) || has_key(parent, k)),
        !has_key(res, k) ==> lookup(inherit_entries(res, parent), k) == lookup(parent, k),
        !has_key(parent, k) ==> lookup(inherit_entries(res, parent), k) == lookup(res, k),
    decreases parent.len(),
{
    if parent.len() > 0 {
        let rest = parent.drop_last();
        assert(distinct_keys(rest)) by {
            assert forall|i: int, j: int| 0 <= i < j < rest.len() implies rest[i].0 != rest[j].0 by {
                assert(rest[i] == parent[i] && rest[j] == parent[j]);
            }
        }
        let (kl, pv) = parent.last();
        law_form_inherits_missing(res, rest, k);
        law_form_inherits_missing(res, rest, kl);
        let before = inherit_entries(res, rest);
        if has_key(rest, kl) {
            let i = key_index(rest, kl);
            assert(rest[i] == parent[i]);
            assert(parent[i].0 != parent[parent.len() - 1].0);
        }
        match lookup(before, kl) {
            None => {
                lemma_lookup_set_entry(before, kl, pv, k);
                lemma_set_entry_distinct(before, kl, pv);
            },
            Some(cv) => match (deref_view(cv), deref_view(pv)) {
                (Some(c), Some(p)) => {
                    lemma_lookup_set_entry(before, kl, CategoryView::Inline(fill_missing(c, p)), k);
                    lemma_set_entry_distinct(before, kl, CategoryView::Inline(fill_missing(c, p)));
                },
                _ => {},
            },
        }
        if k == kl {
            lemma_key_index_unique(parent, k, parent.len() - 1);
        } else {
            if has_key(parent, k) {
                let i = key_index(parent, k);
                lemma_key_index_unique(parent, k, i);
                assert(i != parent.len() - 1);
                assert(rest[i] == parent[i]);
                lemma_key_index_unique(rest, k, i);
            } else {
                if has_key(rest, k) {
                    let i = key_index(rest, k);
                    assert(rest[i] == parent[i]);
                }
            }
        }
    }
}

} // verus!
