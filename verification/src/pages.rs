use vstd::prelude::*;

verus! {

/// The distinct pages among the first `k` masks, in order of first
/// appearance.
pub open spec fn first_appearances(pages: Seq<u32>, k: int) -> Seq<u32>
    decreases k,
{
    if k <= 0 {
        Seq::empty()
    } else {
        let before = first_appearances(pages, k - 1);
        if before.contains(pages[k - 1]) {
            before
        } else {
            before.push(pages[k - 1])
        }
    }
}

/// Positions among the first `k` masks of the masks on `page`, in order.
pub open spec fn page_members(pages: Seq<u32>, page: u32, k: int) -> Seq<usize>
    decreases k,
{
    if k <= 0 {
        Seq::empty()
    } else if pages[k - 1] == page {
        page_members(pages, page, k - 1).push((k - 1) as usize)
    } else {
        page_members(pages, page, k - 1)
    }
}

/// Every page among the first `k` masks appears once among their first
/// appearances.
pub proof fn lemma_first_appearances(pages: Seq<u32>, k: int)
    requires
        0 <= k <= pages.len(),
    ensures
        forall|i: int| 0 <= i < k ==> first_appearances(pages, k).contains(#[trigger] pages[i]),
        forall|a: int, b: int|
            0 <= a < b < first_appearances(pages, k).len() ==> first_appearances(pages, k)[a]
                != first_appearances(pages, k)[b],
        forall|g: int|
            0 <= g < first_appearances(pages, k).len() ==> exists|i: int|
                0 <= i < k && pages[i] == #[trigger] first_appearances(pages, k)[g],
    decreases k,
{
    if k > 0 {
        lemma_first_appearances(pages, k - 1);
        let before = first_appearances(pages, k - 1);
        let now = first_appearances(pages, k);
        assert forall|i: int| 0 <= i < k implies now.contains(#[trigger] pages[i]) by {
            if i < k - 1 {
                let j = choose|j: int| 0 <= j < before.len() && before[j] == pages[i];
                assert(now[j] == pages[i]);
            } else if !before.contains(pages[k - 1]) {
                assert(now[now.len() - 1] == pages[i]);
            }
        }
        assert forall|g: int| 0 <= g < now.len() implies exists|i: int|
            0 <= i < k && pages[i] == #[trigger] now[g] by {
            if g < before.len() {
                assert(now[g] == before[g]);
                let i = choose|i: int| 0 <= i < k - 1 && pages[i] == #[trigger] before[g];
                assert(pages[i] == now[g]);
            } else {
                assert(pages[k - 1] == now[g]);
            }
        }
    }
}

/// Positions of the masks on `page`, in order.
fn members_of(pages: &[u32], page: u32) -> (r: Vec<usize>)
    ensures
        r@ == page_members(pages@, page, pages@.len() as int),
{
    let mut out: Vec<usize> = Vec::new();
    let mut i: usize = 0;
    while i < pages.len()
        invariant
            i <= pages@.len(),
            out@ == page_members(pages@, page, i as int),
        decreases pages.len() - i,
    {
        if pages[i] == page {
            out.push(i);
        }
        i = i + 1;
    }
    out
}

/// Groups masks by the page they are on: for each page that has masks,
/// in order of its first mask, the positions of its masks in order.
pub fn group_by_page(pages: &[u32]) -> (r: Vec<(u32, Vec<usize>)>)
    ensures
        r@.len() == first_appearances(pages@, pages@.len() as int).len(),
        forall|g: int|
            0 <= g < r@.len() ==> r@[g].0 == first_appearances(pages@, pages@.len() as int)[g]
                && r@[g].1@ == page_members(pages@, r@[g].0, pages@.len() as int),
{
    let mut distinct: Vec<u32> = Vec::new();
    let mut i: usize = 0;
    while i < pages.len()
        invariant
            i <= pages@.len(),
            distinct@ == first_appearances(pages@, i as int),
        decreases pages.len() - i,
    {
        let p = pages[i];
        let mut found = false;
        let mut j: usize = 0;
        while j < distinct.len()
            invariant
                j <= distinct@.len(),
                found == exists|k: int| 0 <= k < j && distinct@[k] == p,
            decreases distinct.len() - j,
        {
            if distinct[j] == p {
                found = true;
            }
            j = j + 1;
        }
        if !found {
            distinct.push(p);
        }
        i = i + 1;
    }
    let mut groups: Vec<(u32, Vec<usize>)> = Vec::new();
    let mut g: usize = 0;
    while g < distinct.len()
        invariant
            g <= distinct@.len(),
            distinct@ == first_appearances(pages@, pages@.len() as int),
            groups@.len() == g,
            forall|h: int|
                0 <= h < g ==> groups@[h].0 == distinct@[h] && groups@[h].1@ == page_members(
                    pages@,
                    groups@[h].0,
                    pages@.len() as int,
                ),
        decreases distinct.len() - g,
    {
        let p = distinct[g];
        groups.push((p, members_of(pages, p)));
        g = g + 1;
    }
    groups
}

/// The members of a page's group are exactly the masks on that page.
pub proof fn lemma_page_members(pages: Seq<u32>, page: u32, k: int)
    requires
        0 <= k <= pages.len(),
        pages.len() <= usize::MAX,
    ensures
        forall|j: int|
            0 <= j < page_members(pages, page, k).len() ==> #[trigger] page_members(pages, page, k)[j]
                < k && pages[page_members(pages, page, k)[j] as int] == page,
        forall|i: usize| i < k && pages[i as int] == page ==> #[trigger] page_members(pages, page, k).contains(i),
    decreases k,
{
    if k > 0 {
        lemma_page_members(pages, page, k - 1);
        let before = page_members(pages, page, k - 1);
        let now = page_members(pages, page, k);
        assert forall|i: usize| i < k && pages[i as int] == page implies #[trigger] now.contains(i) by {
            if i < k - 1 {
                assert(before.contains(i));
                let j = choose|j: int| 0 <= j < before.len() && before[j] == i;
                assert(now[j] == before[j]);
            } else {
                assert(now[now.len() - 1] == i);
            }
        }
    }
}

/// Grouping masks by page puts every mask in exactly one group: the
/// group of its page, which comes once.
pub proof fn law_each_mask_in_one_group(pages: Seq<u32>, i: usize)
    requires
        i < pages.len(),
        pages.len() <= usize::MAX,
    ensures
        exists|g: int|
            0 <= g < first_appearances(pages, pages.len() as int).len()
                && #[trigger] first_appearances(pages, pages.len() as int)[g] == pages[i as int]
                && page_members(pages, pages[i as int], pages.len() as int).contains(i),
        forall|g: int|
            0 <= g < first_appearances(pages, pages.len() as int).len() && first_appearances(
                pages,
                pages.len() as int,
            )[g] != pages[i as int] ==> !#[trigger] page_members(
                pages,
                first_appearances(pages, pages.len() as int)[g],
                pages.len() as int,
            ).contains(i),
        forall|a: int, b: int|
            0 <= a < b < first_appearances(pages, pages.len() as int).len() ==> first_appearances(
                pages,
                pages.len() as int,
            )[a] != first_appearances(pages, pages.len() as int)[b],
{
    let n = pages.len() as int;
    let fa = first_appearances(pages, n);
    lemma_first_appearances(pages, n);
    lemma_page_members(pages, pages[i as int], n);
    assert(fa.contains(pages[i as int]));
    let g = choose|g: int| 0 <= g < fa.len() && fa[g] == pages[i as int];
    assert(fa[g] == pages[i as int]);
    assert forall|h: int| 0 <= h < fa.len() && fa[h] != pages[i as int] implies !#[trigger] page_members(
        pages,
        fa[h],
        n,
    ).contains(i) by {
        lemma_page_members(pages, fa[h], n);
        let m = page_members(pages, fa[h], n);
        if m.contains(i) {
            let j = choose|j: int| 0 <= j < m.len() && m[j] == i;
            assert(pages[m[j] as int] == fa[h]);
        }
    }
}

} // verus!
