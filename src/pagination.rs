use vstd::prelude::*;
use crate::text::{decimal, decimal_string};

verus! {

/// How many pagers `n` items need at `size` items each: one at least, so
/// that an empty listing still has a page to render.
pub open spec fn pager_count(n: nat, size: nat) -> nat
    recommends
        size >= 1,
{
    if n == 0 {
        1
    } else {
        ((n + size - 1) / (size as int)) as nat
    }
}

/// Where the items of the pager at 0-based position `i` start.
pub open spec fn slice_start(n: nat, size: nat, i: nat) -> nat {
    if i * size <= n {
        i * size
    } else {
        n
    }
}

/// Where the items of the pager at 0-based position `i` end.
pub open spec fn slice_end(n: nat, size: nat, i: nat) -> nat {
    slice_start(n, size, i + 1)
}

/// The URL of the pager with 1-based `index` in a listing at `base`: the
/// first one is the listing itself.
pub open spec fn pager_link(base: Seq<char>, segment: Seq<char>, index: nat) -> Seq<char> {
    if index == 1 {
        base
    } else {
        base + segment + seq!['/'] + decimal(index) + seq!['/']
    }
}

/// One page of a paginated listing.
pub struct Pager<T> {
    /// Its 1-based position.
    pub index: usize,
    /// How many pagers the listing has.
    pub total: usize,
    /// The items it shows.
    pub items: Vec<T>,
    /// Its own URL.
    pub permalink: String,
    /// The URL of the first pager.
    pub first: String,
    /// The URL of the last pager.
    pub last: String,
    /// The URL of the pager before it, if any.
    pub previous: Option<String>,
    /// The URL of the pager after it, if any.
    pub next: Option<String>,
}

impl<T> Pager<T> {
    pub fn has_prev(&self) -> (r: bool)
        ensures
            r == self.previous.is_some(),
    {
        self.previous.is_some()
    }

    pub fn has_next(&self) -> (r: bool)
        ensures
            r == self.next.is_some(),
    {
        self.next.is_some()
    }
}

/// The number of items over a sequence of pagers.
pub open spec fn items_total<T>(pagers: Seq<Pager<T>>) -> nat
    decreases pagers.len(),
{
    if pagers.len() == 0 {
        0
    } else {
        items_total(pagers.drop_last()) + pagers.last().items@.len()
    }
}

/// What the pager at 0-based position `i` of a listing must be.
pub open spec fn pager_spec<T>(
    p: Pager<T>,
    items: Seq<T>,
    size: nat,
    base: Seq<char>,
    segment: Seq<char>,
    i: nat,
) -> bool {
    let total = pager_count(items.len(), size);
    &&& p.index == i + 1
    &&& p.total == total
    &&& p.items@ == items.subrange(
        slice_start(items.len(), size, i) as int,
        slice_end(items.len(), size, i) as int,
    )
    &&& p.permalink@ == pager_link(base, segment, i + 1)
    &&& p.first@ == base
    &&& p.last@ == pager_link(base, segment, total)
    &&& p.previous.is_some() == (i > 0)
    &&& i > 0 ==> p.previous.unwrap()@ == pager_link(base, segment, i as nat)
    &&& p.next.is_some() == (i + 1 < total)
    &&& i + 1 < total ==> p.next.unwrap()@ == pager_link(base, segment, i + 2)
}

proof fn lemma_div_bounds(n: int, size: int, c: int)
    requires
        size >= 1,
        n >= 1,
        c == (n + size - 1) / size,
    ensures
        c >= 1,
        c <= n + 1,
        (c - 1) * size < n,
        c * size >= n,
        c == (n - 1) / size + 1,
{
    assert(c * size <= n + size - 1) by (nonlinear_arith)
        requires c == (n + size - 1) / size, size >= 1;
    assert(c * size + size > n + size - 1) by (nonlinear_arith)
        requires c == (n + size - 1) / size, size >= 1;
    assert(c >= 1) by (nonlinear_arith)
        requires c == (n + size - 1) / size, size >= 1, n >= 1;
    assert(c <= n + 1) by (nonlinear_arith)
        requires c == (n + size - 1) / size, size >= 1, n >= 1;
    assert((c - 1) * size == c * size - size) by (nonlinear_arith);
    assert(c == (n - 1) / size + 1) by (nonlinear_arith)
        requires c == (n + size - 1) / size, size >= 1, n >= 1;
}

proof fn lemma_count_bounds(n: nat, size: nat)
    requires
        size >= 1,
    ensures
        pager_count(n, size) >= 1,
        pager_count(n, size) <= n + 1,
        n > 0 ==> (pager_count(n, size) - 1) * size < n,
        n > 0 ==> pager_count(n, size) == (n - 1) / (size as int) + 1,
        pager_count(n, size) * size >= n,
{
    if n > 0 {
        lemma_div_bounds(n as int, size as int, (n + size - 1) / (size as int));
    }
}

/// The pagers of a listing hold, together, exactly its items.
pub proof fn lemma_pagers_cover(n: nat, size: nat)
    requires
        size >= 1,
    ensures
        slice_start(n, size, pager_count(n, size)) == n,
        forall|i: nat| i < pager_count(n, size) ==> slice_start(n, size, i) <= slice_end(n, size, i),
{
    lemma_count_bounds(n, size);
    assert forall|i: nat| i < pager_count(n, size) implies slice_start(n, size, i) <= slice_end(
        n,
        size,
        i,
    ) by {
        assert(i * size <= (i + 1) * size) by (nonlinear_arith);
    }
}

proof fn lemma_items_total_prefix<T>(pagers: Seq<Pager<T>>, n: nat, size: nat, k: nat)
    requires
        size >= 1,
        k <= pagers.len(),
        forall|i: int|
            0 <= i < pagers.len() ==> #[trigger] pagers[i].items@.len() == slice_end(n, size, i as nat)
                - slice_start(n, size, i as nat),
    ensures
        items_total(pagers.subrange(0, k as int)) == slice_start(n, size, k),
    decreases k,
{
    if k == 0 {
        assert(slice_start(n, size, 0) == 0) by (nonlinear_arith)
            requires slice_start(n, size, 0) == if 0 * size <= n { 0 * size } else { n };
    } else {
        let km = (k - 1) as nat;
        lemma_items_total_prefix(pagers, n, size, km);
        assert(pagers.subrange(0, k as int).drop_last() =~= pagers.subrange(0, km as int));
        assert(slice_start(n, size, km) <= slice_start(n, size, k)) by {
            assert(km * size <= k * size) by (nonlinear_arith)
                requires km <= k;
        }
    }
}

/// Splits `items` into pagers of `size` items each, the last one holding
/// what is left. The listing lives at `base`; every pager but the first
/// lives at `base`, then `segment`, then its index.
pub fn paginate<T: Copy>(items: &Vec<T>, size: usize, base: &String, segment: &String) -> (r: Vec<
    Pager<T>,
>)
    requires
        size >= 1,
    ensures
        r@.len() == pager_count(items@.len(), size as nat),
        forall|i: int|
            0 <= i < r@.len() ==> pager_spec(
                #[trigger] r@[i],
                items@,
                size as nat,
                base@,
                segment@,
                i as nat,
            ),
        items_total(r@) == items@.len(),
{
    let n = items.len();
    let ghost total_s = pager_count(n as nat, size as nat);
    proof {
        lemma_count_bounds(n as nat, size as nat);
    }
    let total: usize = if n == 0 {
        1
    } else {
        (n - 1) / size + 1
    };
    assert(total == total_s);
    let last = page_url(base, segment, total);
    let mut r: Vec<Pager<T>> = Vec::new();
    let mut i: usize = 0;
    while i < total
        invariant
            total == pager_count(n as nat, size as nat),
            n == items@.len(),
            size >= 1,
            total >= 1,
            total <= n + 1,
            n > 0 ==> (total - 1) * size < n,
            i <= total,
            r@.len() == i,
            last@ == pager_link(base@, segment@, total as nat),
            forall|j: int|
                0 <= j < i ==> pager_spec(
                    #[trigger] r@[j],
                    items@,
                    size as nat,
                    base@,
                    segment@,
                    j as nat,
                ),
        decreases total - i,
    {
        assert(i * size <= n) by (nonlinear_arith)
            requires i < total, n > 0 ==> (total - 1) * size < n, total >= 1, n == 0 ==> total == 1;
        let start = i * size;
        let end = if n - start > size {
            start + size
        } else {
            n
        };
        assert(end == slice_end(n as nat, size as nat, i as nat)) by {
            assert((i + 1) * size == i * size + size) by (nonlinear_arith);
        }
        let mut slice: Vec<T> = Vec::new();
        let mut j: usize = start;
        while j < end
            invariant
                start <= j <= end <= n,
                n == items@.len(),
                slice@ == items@.subrange(start as int, j as int),
            decreases end - j,
        {
            slice.push(items[j]);
            j += 1;
            assert(slice@ =~= items@.subrange(start as int, j as int));
        }
        let previous = if i > 0 {
            Some(page_url(base, segment, i))
        } else {
            None
        };
        let next = if i + 1 < total {
            Some(page_url(base, segment, i + 2))
        } else {
            None
        };
        let pager = Pager {
            index: i + 1,
            total,
            items: slice,
            permalink: page_url(base, segment, i + 1),
            first: base.clone(),
            last: last.clone(),
            previous,
            next,
        };
        r.push(pager);
        i += 1;
    }
    proof {
        lemma_pagers_cover(n as nat, size as nat);
        assert forall|k: int| 0 <= k < r@.len() implies #[trigger] r@[k].items@.len() == slice_end(
            n as nat,
            size as nat,
            k as nat,
        ) - slice_start(n as nat, size as nat, k as nat) by {
            assert(pager_spec(r@[k], items@, size as nat, base@, segment@, k as nat));
        }
        lemma_items_total_prefix(r@, n as nat, size as nat, total as nat);
        assert(r@.subrange(0, total as int) =~= r@);
        lemma_pagers_cover(n as nat, size as nat);
    }
    r
}

/// The URL of the pager with 1-based `index`.
fn page_url(base: &String, segment: &String, index: usize) -> (r: String)
    requires
        index >= 1,
    ensures
        r@ == pager_link(base@, segment@, index as nat),
{
    if index == 1 {
        base.clone()
    } else {
        proof {
            reveal_strlit("/");
        }
        let mut s = base.clone();
        s.append(segment.as_str());
        s.append("/");
        let digits = decimal_string(index as u64);
        s.append(digits.as_str());
        s.append("/");
        assert(s@ =~= pager_link(base@, segment@, index as nat));
        s
    }
}

/// Pagers built from the same listing, size and URLs have the same URLs:
/// nothing but those inputs decides them.
pub proof fn lemma_pager_urls_deterministic<T>(
    a: Pager<T>,
    b: Pager<T>,
    items: Seq<T>,
    size: nat,
    base: Seq<char>,
    segment: Seq<char>,
    i: nat,
)
    requires
        pager_spec(a, items, size, base, segment, i),
        pager_spec(b, items, size, base, segment, i),
    ensures
        a.permalink@ == b.permalink@,
        a.first@ == b.first@,
        a.last@ == b.last@,
        a.previous.is_some() == b.previous.is_some(),
        a.previous.is_some() ==> a.previous.unwrap()@ == b.previous.unwrap()@,
        a.next.is_some() == b.next.is_some(),
        a.next.is_some() ==> a.next.unwrap()@ == b.next.unwrap()@,
        a.items@ == b.items@,
{
}

} // verus!
