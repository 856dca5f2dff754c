use vstd::prelude::*;

verus! {

/// The path components of a document's directory, relative to the content root.
pub type Components = Seq<Seq<char>>;

/// The first position at or after `i` whose section has exactly the
/// components `c`.
pub open spec fn find_from(secs: Seq<Components>, c: Components, i: int) -> Option<int>
    decreases secs.len() - i,
{
    if i < 0 || i >= secs.len() {
        None
    } else if secs[i] == c {
        Some(i)
    } else {
        find_from(secs, c, i + 1)
    }
}

/// The section, by position, whose directory is `c`.
pub open spec fn section_at(secs: Seq<Components>, c: Components) -> Option<int> {
    find_from(secs, c, 0)
}

/// The sections, root first, whose directories are the first `d`
/// prefixes of `c` (the empty one, then one component, and so on).
pub open spec fn chain(secs: Seq<Components>, c: Components, d: nat) -> Seq<int>
    decreases d,
{
    if d == 0 {
        seq![]
    } else {
        let prev = chain(secs, c, (d - 1) as nat);
        match section_at(secs, c.take(d - 1)) {
            Some(j) => prev.push(j),
            None => prev,
        }
    }
}

/// The ancestors of the section at position `i`: the sections of every
/// enclosing directory, root first.
pub open spec fn section_ancestors(secs: Seq<Components>, i: int) -> Seq<int> {
    chain(secs, secs[i], secs[i].len())
}

/// The enclosing sections of a page in directory `dir`, root first, ending
/// at its nearest one (the section of `dir` itself, where there is one).
pub open spec fn page_ancestors(secs: Seq<Components>, dir: Components) -> Seq<int> {
    chain(secs, dir, dir.len() + 1)
}

/// The nearest section enclosing a document whose ancestors are `anc`.
pub open spec fn parent_of(anc: Seq<int>) -> Option<int> {
    if anc.len() == 0 {
        None
    } else {
        Some(anc.last())
    }
}

/// The sections at positions `j`, in order, whose nearest enclosing section
/// is the one at position `i`.
pub open spec fn children(secs: Seq<Components>, i: int, n: nat) -> Seq<int>
    decreases n,
{
    if n == 0 {
        seq![]
    } else {
        let prev = children(secs, i, (n - 1) as nat);
        if parent_of(section_ancestors(secs, n - 1)) == Some(i) {
            prev.push(n - 1)
        } else {
            prev
        }
    }
}

/// Every section's directory has no duplicate among the sections, and every
/// directory above a section's own has a section.
pub open spec fn complete_tree(secs: Seq<Components>) -> bool {
    &&& forall|i: int, j: int|
        0 <= i < secs.len() && 0 <= j < secs.len() && i != j ==> secs[i] != secs[j]
    &&& forall|i: int, k: int|
        0 <= i < secs.len() && 0 <= k < secs[i].len() ==> (#[trigger] section_at(
            secs,
            secs[i].take(k),
        )) is Some
}

proof fn lemma_find_from(secs: Seq<Components>, c: Components, i: int)
    requires
        0 <= i,
    ensures
        find_from(secs, c, i) matches Some(j) ==> i <= j < secs.len() && secs[j] == c,
        (exists|j: int| i <= j < secs.len() && secs[j] == c) ==> find_from(secs, c, i) is Some,
    decreases secs.len() - i,
{
    if i < secs.len() && secs[i] != c {
        lemma_find_from(secs, c, i + 1);
        if exists|j: int| i <= j < secs.len() && secs[j] == c {
            let j = choose|j: int| i <= j < secs.len() && secs[j] == c;
            assert(j != i);
            assert(i + 1 <= j);
        }
    }
}

/// What `section_at` finds is a section with those components.
pub proof fn lemma_section_at(secs: Seq<Components>, c: Components)
    ensures
        section_at(secs, c) matches Some(j) ==> 0 <= j < secs.len() && secs[j] == c,
        (exists|j: int| 0 <= j < secs.len() && secs[j] == c) ==> section_at(secs, c) is Some,
{
    lemma_find_from(secs, c, 0);
}

/// Each entry of `chain(secs, c, d)` is the section of a prefix of `c`
/// shorter than `d`; the entries are in strictly growing prefix length.
pub proof fn lemma_chain_entries(secs: Seq<Components>, c: Components, d: nat)
    requires
        d <= c.len() + 1,
    ensures
        chain(secs, c, d).len() <= d,
        forall|k: int|
            0 <= k < chain(secs, c, d).len() ==> {
                let j = #[trigger] chain(secs, c, d)[k];
                0 <= j < secs.len() && secs[j].len() < d && secs[j] == c.take(secs[j].len() as int)
            },
    decreases d,
{
    if d > 0 {
        lemma_chain_entries(secs, c, (d - 1) as nat);
        lemma_section_at(secs, c.take(d - 1));
    }
}

/// Two directories that agree on their first `d` components have the same
/// chain up to `d`.
proof fn lemma_chain_prefix(secs: Seq<Components>, a: Components, b: Components, d: nat)
    requires
        d <= a.len(),
        d <= b.len(),
        a.take(d as int) == b.take(d as int),
    ensures
        chain(secs, a, d) == chain(secs, b, d),
    decreases d,
{
    if d > 0 {
        assert(a.take(d - 1) =~= a.take(d as int).take(d - 1));
        assert(b.take(d - 1) =~= b.take(d as int).take(d - 1));
        lemma_chain_prefix(secs, a, b, (d - 1) as nat);
    }
}

/// In a complete tree the chain up to `d` has one entry per prefix.
proof fn lemma_chain_full(secs: Seq<Components>, i: int, d: nat)
    requires
        complete_tree(secs),
        0 <= i < secs.len(),
        d <= secs[i].len(),
    ensures
        chain(secs, secs[i], d).len() == d,
    decreases d,
{
    if d > 0 {
        lemma_chain_full(secs, i, (d - 1) as nat);
        assert(section_at(secs, secs[i].take(d - 1)) is Some);
    }
}

/// In a tree where every enclosing directory has a section, a section has
/// as many ancestors as its directory has components, and is not one of
/// its own ancestors.
pub proof fn lemma_section_ancestors(secs: Seq<Components>, i: int)
    requires
        complete_tree(secs),
        0 <= i < secs.len(),
    ensures
        section_ancestors(secs, i).len() == secs[i].len(),
        !section_ancestors(secs, i).contains(i),
{
    lemma_chain_full(secs, i, secs[i].len());
    lemma_chain_entries(secs, secs[i], secs[i].len());
}

/// A section is never one of its own ancestors, in any tree.
pub proof fn lemma_section_not_own_ancestor(secs: Seq<Components>, i: int)
    requires
        0 <= i < secs.len(),
    ensures
        !section_ancestors(secs, i).contains(i),
{
    lemma_chain_entries(secs, secs[i], secs[i].len());
}

/// The chain up to `d` is the chain up to the last hit, then that hit.
proof fn lemma_chain_last(secs: Seq<Components>, c: Components, d: nat)
    requires
        d <= c.len() + 1,
        chain(secs, c, d).len() > 0,
    ensures
        ({
            let s = chain(secs, c, d).last();
            &&& 0 <= s < secs.len()
            &&& secs[s].len() < d
            &&& secs[s] == c.take(secs[s].len() as int)
            &&& chain(secs, c, d) == chain(secs, c, secs[s].len()).push(s)
        }),
    decreases d,
{
    lemma_chain_entries(secs, c, d);
    let prev = chain(secs, c, (d - 1) as nat);
    lemma_section_at(secs, c.take(d - 1));
    match section_at(secs, c.take(d - 1)) {
        Some(j) => {
            assert(secs[j] == c.take(d - 1));
        },
        None => {
            lemma_chain_last(secs, c, (d - 1) as nat);
        },
    }
}

/// A page's ancestors are those of its nearest enclosing section, then
/// that section.
pub proof fn lemma_page_ancestors(secs: Seq<Components>, dir: Components)
    requires
        page_ancestors(secs, dir).len() > 0,
    ensures
        ({
            let s = page_ancestors(secs, dir).last();
            &&& 0 <= s < secs.len()
            &&& page_ancestors(secs, dir) == section_ancestors(secs, s).push(s)
        }),
{
    let d = dir.len() + 1;
    lemma_chain_last(secs, dir, d);
    let s = page_ancestors(secs, dir).last();
    let l = secs[s].len();
    assert(secs[s].take(l as int) =~= secs[s]);
    assert(dir.take(l as int) =~= secs[s]);
    lemma_chain_prefix(secs, secs[s], dir, l);
}

/// Positions as mathematical integers.
pub open spec fn as_ints(v: Seq<usize>) -> Seq<int> {
    v.map_values(|x: usize| x as int)
}

/// Whether `a` is exactly the first `k` components of `b`.
pub fn equals_prefix(a: &Vec<String>, b: &Vec<String>, k: usize) -> (r: bool)
    requires
        k <= b.len(),
    ensures
        r == (a.deep_view() == b.deep_view().take(k as int)),
{
    if a.len() != k {
        return false;
    }
    let mut i: usize = 0;
    while i < k
        invariant
            a.len() == k <= b.len(),
            i <= k,
            forall|j: int| 0 <= j < i ==> a.deep_view()[j] == b.deep_view()[j],
        decreases k - i,
    {
        if a[i] != b[i] {
            assert(a.deep_view()[i as int] != b.deep_view().take(k as int)[i as int]);
            return false;
        }
        i += 1;
    }
    assert(a.deep_view() =~= b.deep_view().take(k as int));
    true
}

/// The position of the section whose directory is the first `k` components
/// of `c`.
pub fn find_section(secs: &Vec<Vec<String>>, c: &Vec<String>, k: usize) -> (r: Option<usize>)
    requires
        k <= c.len(),
    ensures
        r matches Some(j) ==> section_at(secs.deep_view(), c.deep_view().take(k as int)) == Some(
            j as int,
        ),
        r is None ==> section_at(secs.deep_view(), c.deep_view().take(k as int)) is None,
{
    let ghost target = c.deep_view().take(k as int);
    let mut i: usize = 0;
    while i < secs.len()
        invariant
            i <= secs.len(),
            k <= c.len(),
            target == c.deep_view().take(k as int),
            section_at(secs.deep_view(), target) == find_from(secs.deep_view(), target, i as int),
        decreases secs.len() - i,
    {
        if equals_prefix(&secs[i], c, k) {
            assert(secs.deep_view()[i as int] == secs[i as int].deep_view());
            return Some(i);
        }
        assert(secs.deep_view()[i as int] == secs[i as int].deep_view());
        i += 1;
    }
    None
}

/// The sections of the first `d` prefixes of `c`, root first.
pub fn chain_of(secs: &Vec<Vec<String>>, c: &Vec<String>, d: usize) -> (r: Vec<usize>)
    requires
        d <= c.len() + 1,
    ensures
        as_ints(r@) == chain(secs.deep_view(), c.deep_view(), d as nat),
{
    let mut r: Vec<usize> = Vec::new();
    let mut k: usize = 0;
    while k < d
        invariant
            k <= d <= c.len() + 1,
            as_ints(r@) == chain(secs.deep_view(), c.deep_view(), k as nat),
        decreases d - k,
    {
        let found = find_section(secs, c, k);
        match found {
            Some(j) => {
                r.push(j);
            },
            None => {},
        }
        k += 1;
        assert(as_ints(r@) =~= chain(secs.deep_view(), c.deep_view(), k as nat));
    }
    r
}

/// The structure of a content tree: who encloses whom, by position.
pub struct Links {
    /// For each section, its ancestors, root first.
    pub section_ancestors: Vec<Vec<usize>>,
    /// For each section, the sections whose nearest enclosing section it is.
    pub subsections: Vec<Vec<usize>>,
    /// For each page, its enclosing sections, root first.
    pub page_ancestors: Vec<Vec<usize>>,
}

/// What `link` computes for sections in directories `secs` and pages in
/// directories `pages`.
pub open spec fn links_spec(l: Links, secs: Seq<Components>, pages: Seq<Components>) -> bool {
    &&& l.section_ancestors@.len() == secs.len()
    &&& l.subsections@.len() == secs.len()
    &&& l.page_ancestors@.len() == pages.len()
    &&& forall|i: int|
        0 <= i < secs.len() ==> as_ints(#[trigger] l.section_ancestors@[i]@) == section_ancestors(
            secs,
            i,
        )
    &&& forall|i: int|
        0 <= i < secs.len() ==> as_ints(#[trigger] l.subsections@[i]@) == children(
            secs,
            i,
            secs.len(),
        )
    &&& forall|p: int|
        0 <= p < pages.len() ==> as_ints(#[trigger] l.page_ancestors@[p]@) == page_ancestors(
            secs,
            pages[p],
        )
}

/// Links the sections whose directories are `secs` and the pages whose
/// directories are `pages` into a tree.
pub fn link(secs: &Vec<Vec<String>>, pages: &Vec<Vec<String>>) -> (r: Links)
    ensures
        links_spec(r, secs.deep_view(), pages.deep_view()),
{
    let ghost sv = secs.deep_view();
    let mut section_anc: Vec<Vec<usize>> = Vec::new();
    let mut i: usize = 0;
    while i < secs.len()
        invariant
            i <= secs.len(),
            sv == secs.deep_view(),
            section_anc@.len() == i,
            forall|j: int|
                0 <= j < i ==> as_ints(#[trigger] section_anc@[j]@) == section_ancestors(sv, j),
        decreases secs.len() - i,
    {
        assert(sv[i as int] == secs[i as int].deep_view());
        let a = chain_of(secs, &secs[i], secs[i].len());
        section_anc.push(a);
        i += 1;
    }
    let mut subsections: Vec<Vec<usize>> = Vec::new();
    let mut i: usize = 0;
    while i < secs.len()
        invariant
            i <= secs.len(),
            sv == secs.deep_view(),
            section_anc@.len() == secs.len(),
            forall|j: int|
                0 <= j < secs.len() ==> as_ints(#[trigger] section_anc@[j]@) == section_ancestors(
                    sv,
                    j,
                ),
            subsections@.len() == i,
            forall|j: int|
                0 <= j < i ==> as_ints(#[trigger] subsections@[j]@) == children(
                    sv,
                    j,
                    sv.len(),
                ),
        decreases secs.len() - i,
    {
        let mut kids: Vec<usize> = Vec::new();
        let mut j: usize = 0;
        while j < secs.len()
            invariant
                i < secs.len(),
                j <= secs.len(),
                sv == secs.deep_view(),
                section_anc@.len() == secs.len(),
                forall|m: int|
                    0 <= m < secs.len() ==> as_ints(#[trigger] section_anc@[m]@)
                        == section_ancestors(sv, m),
                as_ints(kids@) == children(sv, i as int, j as nat),
            decreases secs.len() - j,
        {
            let anc = &section_anc[j];
            assert(as_ints(anc@) == section_ancestors(sv, j as int));
            if anc.len() > 0 && anc[anc.len() - 1] == i {
                kids.push(j);
            }
            j += 1;
            assert(as_ints(kids@) =~= children(sv, i as int, j as nat));
        }
        subsections.push(kids);
        i += 1;
    }
    let mut page_anc: Vec<Vec<usize>> = Vec::new();
    let mut p: usize = 0;
    while p < pages.len()
        invariant
            p <= pages.len(),
            page_anc@.len() == p,
            forall|q: int|
                0 <= q < p ==> as_ints(#[trigger] page_anc@[q]@) == page_ancestors(
                    secs.deep_view(),
                    pages.deep_view()[q],
                ),
        decreases pages.len() - p,
    {
        assert(pages.deep_view()[p as int] == pages[p as int].deep_view());
        let dir = &pages[p];
        let mut a = chain_of(secs, dir, dir.len());
        match find_section(secs, dir, dir.len()) {
            Some(j) => {
                a.push(j);
            },
            None => {},
        }
        assert(as_ints(a@) =~= page_ancestors(secs.deep_view(), pages.deep_view()[p as int]));
        page_anc.push(a);
        p += 1;
    }
    Links { section_ancestors: section_anc, subsections, page_ancestors: page_anc }
}

/// Every section listed as a child is one of the first `n`.
pub proof fn lemma_children_bounds(secs: Seq<Components>, i: int, n: nat)
    ensures
        forall|k: int| 0 <= k < children(secs, i, n).len() ==> 0 <= #[trigger] children(secs, i, n)[k] < n,
    decreases n,
{
    if n > 0 {
        lemma_children_bounds(secs, i, (n - 1) as nat);
        let prev = children(secs, i, (n - 1) as nat);
        let cur = children(secs, i, n);
        assert forall|k: int| 0 <= k < cur.len() implies 0 <= #[trigger] cur[k] < n by {
            if k < prev.len() {
                assert(cur[k] == prev[k]);
            }
        }
    }
}

} // verus!
