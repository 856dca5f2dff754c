use vstd::prelude::*;
use slotmap::DefaultKey;
use crate::graph::{
    Components, Links, link, links_spec, section_ancestors, page_ancestors, children, parent_of,
    as_ints, complete_tree, lemma_chain_entries, lemma_children_bounds, lemma_section_ancestors,
    lemma_section_not_own_ancestor, lemma_page_ancestors,
};
use crate::page::{Page, PageFrontMatter};
use crate::section::{Section, SectionFrontMatter, SortBy};
use crate::store::{Record, Store, records, store_new, store_insert, store_get, store_replace};
use crate::text::copy_components;
use crate::render::Permalinks;
use crate::order::{in_order, in_weight_order, increasing, ties_in_order, sort_positions, sort_by_weight};

verus! {

broadcast use vstd::seq_lib::group_to_multiset_ensures;

/// Why a content tree could not be built.
pub enum BuildError {
    /// A listed page lacks the key that its section sorts by, and the
    /// section does not set such pages aside.
    MissingSortKey {
        /// The page's file.
        page: String,
        /// The key it lacks.
        key: SortBy,
    },
    /// Two sections, or two pages, have the same URL path.
    DuplicatePath {
        /// The file of the one added first.
        first: String,
        /// The file of the one added later.
        second: String,
    },
}

/// The key that orders a page in a section sorted by `sort_by`; every page
/// has the key of the order in which pages were found.
pub open spec fn sort_key(sort_by: SortBy, m: PageFrontMatter) -> Option<u64> {
    match sort_by {
        SortBy::Unordered => Some(0),
        SortBy::Date => m.date,
        SortBy::Weight => m.weight,
    }
}

/// Whether a page goes to its section's listing.
pub open spec fn is_listed(s: SectionFrontMatter, p: PageFrontMatter) -> bool {
    p.in_listing && sort_key(s.sort_by, p) is Some
}

/// Whether a page is set aside by its section.
pub open spec fn is_ignored(s: SectionFrontMatter, p: PageFrontMatter) -> bool {
    !p.in_listing || (sort_key(s.sort_by, p) is None && s.ignore_unsorted)
}

/// Whether a page stops the build: listed, without its section's key.
pub open spec fn is_refused(s: SectionFrontMatter, p: PageFrontMatter) -> bool {
    p.in_listing && sort_key(s.sort_by, p) is None && !s.ignore_unsorted
}

/// The value that orders a page in a section sorted by `sort_by`.
pub open spec fn order_value(sort_by: SortBy, m: PageFrontMatter) -> u64 {
    match sort_key(sort_by, m) {
        Some(v) => v,
        None => 0,
    }
}

/// The keys at the given positions.
pub open spec fn keys_at(keys: Seq<DefaultKey>, idx: Seq<int>) -> Seq<DefaultKey> {
    idx.map_values(|j: int| keys[j])
}

/// The pages, by position among the first `n`, whose nearest enclosing
/// section is at position `i` and that a section with metadata `sm` lists
/// (where `listed`) or sets aside (where not).
pub open spec fn members(
    secs: Seq<Components>,
    dirs: Seq<Components>,
    i: int,
    n: nat,
    sm: SectionFrontMatter,
    pms: Seq<PageFrontMatter>,
    listed: bool,
) -> Seq<int>
    decreases n,
{
    if n == 0 {
        seq![]
    } else {
        let prev = members(secs, dirs, i, (n - 1) as nat, sm, pms, listed);
        let keep = if listed {
            is_listed(sm, pms[n - 1])
        } else {
            is_ignored(sm, pms[n - 1])
        };
        if parent_of(page_ancestors(secs, dirs[n - 1])) == Some(i) && keep {
            prev.push(n - 1)
        } else {
            prev
        }
    }
}

/// Every page that `members` picks is one of the first `n`.
pub proof fn lemma_members_bounds(
    secs: Seq<Components>,
    dirs: Seq<Components>,
    i: int,
    n: nat,
    sm: SectionFrontMatter,
    pms: Seq<PageFrontMatter>,
    listed: bool,
)
    ensures
        forall|k: int|
            0 <= k < members(secs, dirs, i, n, sm, pms, listed).len() ==> 0 <= #[trigger] members(
                secs,
                dirs,
                i,
                n,
                sm,
                pms,
                listed,
            )[k] < n,
    decreases n,
{
    if n > 0 {
        lemma_members_bounds(secs, dirs, i, (n - 1) as nat, sm, pms, listed);
        let prev = members(secs, dirs, i, (n - 1) as nat, sm, pms, listed);
        let cur = members(secs, dirs, i, n, sm, pms, listed);
        assert forall|k: int| 0 <= k < cur.len() implies 0 <= #[trigger] cur[k] < n by {
            if k < prev.len() {
                assert(cur[k] == prev[k]);
            }
        }
    }
}

/// Every content document of a site, in one arena, under stable keys.
pub struct Library {
    /// The arena.
    pub store: Store,
    /// The keys of the sections, in the order they were added.
    pub sections: Vec<DefaultKey>,
    /// The keys of the pages, in the order they were added.
    pub pages: Vec<DefaultKey>,
}

impl Library {
    /// What the arena holds.
    pub open spec fn contents(&self) -> Map<DefaultKey, Record> {
        records(self.store)
    }

    /// The section added `i`-th.
    pub open spec fn section(&self, i: int) -> Section {
        self.contents()[self.sections@[i]]->Section_0
    }

    /// The page added `i`-th.
    pub open spec fn page(&self, i: int) -> Page {
        self.contents()[self.pages@[i]]->Page_0
    }

    /// The directories of the sections, in the order they were added.
    pub open spec fn section_dirs(&self) -> Seq<Components> {
        Seq::new(self.sections@.len(), |i: int| self.section(i).file.components.deep_view())
    }

    /// The files of the sections, in the order they were added.
    pub open spec fn section_files(&self) -> Seq<Seq<char>> {
        Seq::new(self.sections@.len(), |i: int| self.section(i).file.path@)
    }

    /// The weights by which the sections order among their siblings; a
    /// section without one comes after every weighted one.
    pub open spec fn section_weights(&self) -> Seq<u64> {
        Seq::new(
            self.sections@.len(),
            |i: int|
                match self.section(i).meta.weight {
                    Some(w) => w,
                    None => u64::MAX,
                },
        )
    }

    /// The directories of the pages, in the order they were added.
    pub open spec fn page_dirs(&self) -> Seq<Components> {
        Seq::new(self.pages@.len(), |i: int| self.page(i).file.components.deep_view())
    }

    /// The arena holds exactly the listed sections and pages, each once.
    pub open spec fn wf(&self) -> bool {
        &&& self.contents().dom().finite()
        &&& self.contents().len() == self.sections@.len() + self.pages@.len()
        &&& self.sections@.no_duplicates()
        &&& self.pages@.no_duplicates()
        &&& forall|i: int|
            0 <= i < self.sections@.len() ==> self.contents().contains_key(
                #[trigger] self.sections@[i],
            ) && self.contents()[self.sections@[i]] is Section
        &&& forall|i: int|
            0 <= i < self.pages@.len() ==> self.contents().contains_key(#[trigger] self.pages@[i])
                && self.contents()[self.pages@[i]] is Page
        &&& forall|k: DefaultKey|
            #[trigger] self.contents().contains_key(k) ==> self.sections@.contains(k)
                || self.pages@.contains(k)
    }

    /// An empty library.
    pub fn new() -> (r: Library)
        ensures
            r.wf(),
            r.sections@.len() == 0,
            r.pages@.len() == 0,
    {
        Library { store: store_new(), sections: Vec::new(), pages: Vec::new() }
    }

    /// Adds a section and hands back its key.
    pub fn insert_section(&mut self, section: Section) -> (k: DefaultKey)
        requires
            old(self).wf(),
            old(self).sections@.len() + old(self).pages@.len() + 1 < 0xFFFF_FFFF,
        ensures
            final(self).wf(),
            !old(self).contents().contains_key(k),
            final(self).contents() == old(self).contents().insert(k, Record::Section(section)),
            final(self).sections@ == old(self).sections@.push(k),
            final(self).pages@ == old(self).pages@,
    {
        let k = store_insert(&mut self.store, Record::Section(section));
        self.sections.push(k);
        proof {
            assert(!old(self).sections@.contains(k));
            assert forall|i: int| 0 <= i < self.pages@.len() implies #[trigger] self.pages@[i] != k by {
                assert(old(self).contents().contains_key(old(self).pages@[i]));
            }
            assert forall|k2: DefaultKey| #[trigger] self.contents().contains_key(k2) implies self.sections@.contains(k2)
                || self.pages@.contains(k2) by {
                if k2 == k {
                    assert(self.sections@[self.sections@.len() - 1] == k);
                } else {
                    assert(old(self).contents().contains_key(k2));
                    if old(self).sections@.contains(k2) {
                        let j = choose|j: int| 0 <= j < old(self).sections@.len() && old(self).sections@[j] == k2;
                        assert(self.sections@[j] == k2);
                    }
                }
            }
        }
        k
    }

    /// Adds a page and hands back its key.
    pub fn insert_page(&mut self, page: Page) -> (k: DefaultKey)
        requires
            old(self).wf(),
            old(self).sections@.len() + old(self).pages@.len() + 1 < 0xFFFF_FFFF,
        ensures
            final(self).wf(),
            !old(self).contents().contains_key(k),
            final(self).contents() == old(self).contents().insert(k, Record::Page(page)),
            final(self).pages@ == old(self).pages@.push(k),
            final(self).sections@ == old(self).sections@,
    {
        let k = store_insert(&mut self.store, Record::Page(page));
        self.pages.push(k);
        proof {
            assert(!old(self).pages@.contains(k));
            assert forall|i: int| 0 <= i < self.sections@.len() implies #[trigger] self.sections@[i] != k by {
                assert(old(self).contents().contains_key(old(self).sections@[i]));
            }
            assert forall|k2: DefaultKey| #[trigger] self.contents().contains_key(k2) implies self.sections@.contains(k2)
                || self.pages@.contains(k2) by {
                if k2 == k {
                    assert(self.pages@[self.pages@.len() - 1] == k);
                } else {
                    assert(old(self).contents().contains_key(k2));
                    if old(self).pages@.contains(k2) {
                        let j = choose|j: int| 0 <= j < old(self).pages@.len() && old(self).pages@[j] == k2;
                        assert(self.pages@[j] == k2);
                    }
                }
            }
        }
        k
    }

    /// The section under `k`, if `k` is a section's key.
    pub fn get_section(&self, k: DefaultKey) -> (r: Option<&Section>)
        ensures
            r is Some == (self.contents().contains_key(k) && self.contents()[k] is Section),
            r matches Some(s) ==> *s == self.contents()[k]->Section_0,
    {
        match store_get(&self.store, k) {
            Some(Record::Section(s)) => Some(s),
            _ => None,
        }
    }

    /// The page under `k`, if `k` is a page's key.
    pub fn get_page(&self, k: DefaultKey) -> (r: Option<&Page>)
        ensures
            r is Some == (self.contents().contains_key(k) && self.contents()[k] is Page),
            r matches Some(p) ==> *p == self.contents()[k]->Page_0,
    {
        match store_get(&self.store, k) {
            Some(Record::Page(p)) => Some(p),
            _ => None,
        }
    }

    fn section_ref(&self, i: usize) -> (r: &Section)
        requires
            self.wf(),
            i < self.sections@.len(),
        ensures
            *r == self.section(i as int),
    {
        match store_get(&self.store, self.sections[i]) {
            Some(Record::Section(s)) => s,
            _ => {
                proof {
                    assert(self.contents().contains_key(self.sections@[i as int]));
                }
                unreached()
            },
        }
    }

    fn page_ref(&self, i: usize) -> (r: &Page)
        requires
            self.wf(),
            i < self.pages@.len(),
        ensures
            *r == self.page(i as int),
    {
        match store_get(&self.store, self.pages[i]) {
            Some(Record::Page(p)) => p,
            _ => {
                proof {
                    assert(self.contents().contains_key(self.pages@[i as int]));
                }
                unreached()
            },
        }
    }

    /// The key of the section whose file is at `path`.
    pub fn find_section_by_path(&self, path: &str) -> (r: Option<DefaultKey>)
        requires
            self.wf(),
        ensures
            r matches Some(k) ==> exists|i: int|
                0 <= i < self.sections@.len() && self.sections@[i] == k && self.section(i).file.path@
                    == path@,
            r is None ==> forall|i: int|
                0 <= i < self.sections@.len() ==> self.section(i).file.path@ != path@,
    {
        let mut i: usize = 0;
        while i < self.sections.len()
            invariant
                self.wf(),
                i <= self.sections@.len(),
                forall|j: int| 0 <= j < i ==> self.section(j).file.path@ != path@,
            decreases self.sections@.len() - i,
        {
            let s = self.section_ref(i);
            if same_text(s.file.path.as_str(), path) {
                return Some(self.sections[i]);
            }
            i += 1;
        }
        None
    }

    /// The key of the page whose file is at `path`.
    pub fn find_page_by_path(&self, path: &str) -> (r: Option<DefaultKey>)
        requires
            self.wf(),
        ensures
            r matches Some(k) ==> exists|i: int|
                0 <= i < self.pages@.len() && self.pages@[i] == k && self.page(i).file.path@
                    == path@,
            r is None ==> forall|i: int| 0 <= i < self.pages@.len() ==> self.page(i).file.path@ != path@,
    {
        let mut i: usize = 0;
        while i < self.pages.len()
            invariant
                self.wf(),
                i <= self.pages@.len(),
                forall|j: int| 0 <= j < i ==> self.page(j).file.path@ != path@,
            decreases self.pages@.len() - i,
        {
            let p = self.page_ref(i);
            if same_text(p.file.path.as_str(), path) {
                return Some(self.pages[i]);
            }
            i += 1;
        }
        None
    }
}

/// Whether two strings hold the same characters.
pub fn same_text(a: &str, b: &str) -> (r: bool)
    ensures
        r == (a@ == b@),
{
    let n = a.unicode_len();
    if n != b.unicode_len() {
        return false;
    }
    let mut i: usize = 0;
    while i < n
        invariant
            n == a@.len() == b@.len(),
            i <= n,
            a@.take(i as int) == b@.take(i as int),
        decreases n - i,
    {
        if a.get_char(i) != b.get_char(i) {
            return false;
        }
        i += 1;
        assert(a@.take(i as int) =~= a@.take(i - 1).push(a@[i - 1]));
        assert(b@.take(i as int) =~= b@.take(i - 1).push(b@[i - 1]));
    }
    assert(a@ =~= a@.take(n as int));
    assert(b@ =~= b@.take(n as int));
    true
}

/// The keys at the given positions.
pub fn keys_for(keys: &Vec<DefaultKey>, idx: &Vec<usize>) -> (r: Vec<DefaultKey>)
    requires
        forall|j: int| 0 <= j < idx@.len() ==> #[trigger] idx@[j] < keys@.len(),
    ensures
        r@ == keys_at(keys@, as_ints(idx@)),
{
    let mut r: Vec<DefaultKey> = Vec::new();
    let mut j: usize = 0;
    while j < idx.len()
        invariant
            j <= idx@.len(),
            forall|m: int| 0 <= m < idx@.len() ==> #[trigger] idx@[m] < keys@.len(),
            r@ == keys_at(keys@, as_ints(idx@.take(j as int))),
        decreases idx@.len() - j,
    {
        r.push(keys[idx[j]]);
        j += 1;
        assert(r@ =~= keys_at(keys@, as_ints(idx@.take(j as int))));
    }
    assert(idx@.take(idx@.len() as int) =~= idx@);
    r
}

/// The fields of a section other than its links agree.
pub open spec fn same_section_content(a: Section, b: Section) -> bool {
    &&& a.file == b.file
    &&& a.meta == b.meta
    &&& a.path == b.path
    &&& a.components == b.components
    &&& a.permalink == b.permalink
    &&& a.raw_content == b.raw_content
    &&& a.content == b.content
    &&& a.toc == b.toc
    &&& a.summary == b.summary
    &&& a.assets == b.assets
    &&& a.serialized_assets == b.serialized_assets
    &&& a.word_count == b.word_count
    &&& a.reading_time == b.reading_time
}

/// The section `s` is the one at `i` in `before`, with its links in place.
pub open spec fn section_linked(s: Section, before: Library, i: int) -> bool {
    let secs = before.section_dirs();
    &&& same_section_content(s, before.section(i))
    &&& s.ancestors@ == keys_at(before.sections@, section_ancestors(secs, i))
    &&& exists|l: Seq<int>|
        l.to_multiset() == children(secs, i, secs.len()).to_multiset() && in_weight_order(
            before.section_weights(),
            before.section_files(),
            l,
        ) && s.subsections@ == keys_at(before.sections@, l)
    &&& exists|l: Seq<int>| before.sorted_listing(i, l) && s.pages@ == keys_at(before.pages@, l)
    &&& s.ignored_pages@ == keys_at(before.pages@, before.ignored(i))
}

/// The page `pg` is the one at `p` in `before`, with its ancestors in place.
pub open spec fn page_linked(pg: Page, before: Library, p: int) -> bool {
    &&& same_page_content(pg, before.page(p))
    &&& pg.ancestors@ == keys_at(
        before.sections@,
        page_ancestors(before.section_dirs(), before.page_dirs()[p]),
    )
}

/// The fields of a page other than its ancestors agree.
pub open spec fn same_page_content(a: Page, b: Page) -> bool {
    &&& a.file == b.file
    &&& a.meta == b.meta
    &&& a.path == b.path
    &&& a.permalink == b.permalink
    &&& a.raw_content == b.raw_content
    &&& a.content == b.content
    &&& a.toc == b.toc
    &&& a.summary == b.summary
    &&& a.word_count == b.word_count
    &&& a.reading_time == b.reading_time
}

impl Library {
    /// The metadata of the pages, in the order they were added.
    pub open spec fn page_metas(&self) -> Seq<PageFrontMatter> {
        Seq::new(self.pages@.len(), |p: int| self.page(p).meta)
    }

    /// The pages, by position, that the section at `i` lists.
    pub open spec fn listed(&self, i: int) -> Seq<int> {
        members(
            self.section_dirs(),
            self.page_dirs(),
            i,
            self.pages@.len(),
            self.section(i).meta,
            self.page_metas(),
            true,
        )
    }

    /// The value by which the section at `i` orders the page at each position.
    pub open spec fn order_values(&self, i: int) -> Seq<u64> {
        Seq::new(
            self.pages@.len(),
            |p: int| order_value(self.section(i).meta.sort_by, self.page(p).meta),
        )
    }

    /// `l` holds the pages that the section at `i` lists, each once, in the
    /// section's order: newest first by date, lightest first by weight.
    pub open spec fn sorted_listing(&self, i: int, l: Seq<int>) -> bool {
        &&& l.to_multiset() == self.listed(i).to_multiset()
        &&& in_order(self.order_values(i), l, self.section(i).meta.sort_by == SortBy::Date)
        &&& ties_in_order(self.order_values(i), l)
    }

    /// The pages, by position, that the section at `i` sets aside.
    pub open spec fn ignored(&self, i: int) -> Seq<int> {
        members(
            self.section_dirs(),
            self.page_dirs(),
            i,
            self.pages@.len(),
            self.section(i).meta,
            self.page_metas(),
            false,
        )
    }

    /// The page at `p` stops the build: its nearest enclosing section is at
    /// `i` and it lacks the key that the section sorts by.
    pub open spec fn refuses(&self, i: int, p: int) -> bool {
        &&& 0 <= i < self.sections@.len()
        &&& 0 <= p < self.pages@.len()
        &&& parent_of(page_ancestors(self.section_dirs(), self.page_dirs()[p])) == Some(i)
        &&& is_refused(self.section(i).meta, self.page(p).meta)
    }

    /// Every link of the tree is in place in `self`, computed from the
    /// documents of `before`.
    pub open spec fn linked_from(&self, before: Library) -> bool {
        let secs = before.section_dirs();
        &&& self.wf()
        &&& self.sections == before.sections
        &&& self.pages == before.pages
        &&& forall|i: int|
            0 <= i < self.sections@.len() ==> section_linked(#[trigger] self.section(i), before, i)
        &&& forall|p: int| 0 <= p < self.pages@.len() ==> page_linked(#[trigger] self.page(p), before, p)
    }

    /// Two sections at positions `a < b` have the same URL path.
    pub open spec fn sections_clash(&self, a: int, b: int) -> bool {
        0 <= a < b < self.sections@.len() && self.section(a).path@ == self.section(b).path@
    }

    /// Two pages at positions `a < b` have the same URL path.
    pub open spec fn pages_clash(&self, a: int, b: int) -> bool {
        0 <= a < b < self.pages@.len() && self.page(a).path@ == self.page(b).path@
    }

    /// The section at position `a` and the page at position `b` have the
    /// same URL path.
    pub open spec fn mixed_clash(&self, a: int, b: int) -> bool {
        0 <= a < self.sections@.len() && 0 <= b < self.pages@.len() && self.section(a).path@
            == self.page(b).path@
    }

    /// No two documents share a URL path.
    pub open spec fn paths_unique(&self) -> bool {
        &&& !exists|a: int, b: int| self.sections_clash(a, b)
        &&& !exists|a: int, b: int| self.pages_clash(a, b)
        &&& !exists|a: int, b: int| self.mixed_clash(a, b)
    }

    /// `first` and `second` are the files of two documents that share a URL
    /// path: two sections, two pages, or a section then a page.
    pub open spec fn clash_named(&self, first: Seq<char>, second: Seq<char>) -> bool {
        exists|a: int, b: int|
            (self.sections_clash(a, b) && first == self.section(a).file.path@ && second
                == self.section(b).file.path@) || (self.pages_clash(a, b) && first == self.page(
                a,
            ).file.path@ && second == self.page(b).file.path@) || (self.mixed_clash(a, b) && first
                == self.section(a).file.path@ && second == self.page(b).file.path@)
    }

    /// Finds two documents with the same URL path.
    fn find_clash(&self) -> (r: Option<BuildError>)
        requires
            self.wf(),
        ensures
            r is None <==> self.paths_unique(),
            r matches Some(BuildError::DuplicatePath { first, second }) ==> self.clash_named(
                first@,
                second@,
            ),
            r matches Some(e) ==> e is DuplicatePath,
    {
        let ns = self.sections.len();
        let mut b: usize = 0;
        while b < ns
            invariant
                self.wf(),
                ns == self.sections@.len(),
                b <= ns,
                forall|x: int, y: int| y < b ==> !self.sections_clash(x, y),
            decreases ns - b,
        {
            let mut a: usize = 0;
            while a < b
                invariant
                    self.wf(),
                    ns == self.sections@.len(),
                    a <= b < ns,
                    forall|x: int, y: int| y < b ==> !self.sections_clash(x, y),
                    forall|x: int| x < a ==> !self.sections_clash(x, b as int),
                decreases b - a,
            {
                let sa = self.section_ref(a);
                let sb = self.section_ref(b);
                if same_text(sa.path.as_str(), sb.path.as_str()) {
                    assert(self.sections_clash(a as int, b as int));
                    return Some(BuildError::DuplicatePath { first: sa.file.path.clone(), second: sb.file.path.clone() });
                }
                a += 1;
            }
            b += 1;
        }
        let np = self.pages.len();
        let mut b: usize = 0;
        while b < np
            invariant
                self.wf(),
                np == self.pages@.len(),
                b <= np,
                !exists|x: int, y: int| self.sections_clash(x, y),
                forall|x: int, y: int| y < b ==> !self.pages_clash(x, y),
            decreases np - b,
        {
            let mut a: usize = 0;
            while a < b
                invariant
                    self.wf(),
                    np == self.pages@.len(),
                    a <= b < np,
                    forall|x: int, y: int| y < b ==> !self.pages_clash(x, y),
                    forall|x: int| x < a ==> !self.pages_clash(x, b as int),
                decreases b - a,
            {
                let pa = self.page_ref(a);
                let pb = self.page_ref(b);
                if same_text(pa.path.as_str(), pb.path.as_str()) {
                    assert(self.pages_clash(a as int, b as int));
                    return Some(BuildError::DuplicatePath { first: pa.file.path.clone(), second: pb.file.path.clone() });
                }
                a += 1;
            }
            b += 1;
        }
        let mut a: usize = 0;
        while a < ns
            invariant
                self.wf(),
                ns == self.sections@.len(),
                np == self.pages@.len(),
                a <= ns,
                !exists|x: int, y: int| self.sections_clash(x, y),
                !exists|x: int, y: int| self.pages_clash(x, y),
                forall|x: int, y: int| x < a ==> !self.mixed_clash(x, y),
            decreases ns - a,
        {
            let mut b: usize = 0;
            while b < np
                invariant
                    self.wf(),
                    ns == self.sections@.len(),
                    np == self.pages@.len(),
                    a < ns,
                    b <= np,
                    forall|x: int, y: int| x < a ==> !self.mixed_clash(x, y),
                    forall|y: int| y < b ==> !self.mixed_clash(a as int, y),
                decreases np - b,
            {
                let sa = self.section_ref(a);
                let pb = self.page_ref(b);
                if same_text(sa.path.as_str(), pb.path.as_str()) {
                    assert(self.mixed_clash(a as int, b as int));
                    return Some(BuildError::DuplicatePath { first: sa.file.path.clone(), second: pb.file.path.clone() });
                }
                b += 1;
            }
            a += 1;
        }
        None
    }

    /// Links every document into the tree: each section gets its
    /// ancestors, subsections, listed and set-aside pages; each page its
    /// ancestors. It fails, changing nothing, where two documents share a
    /// URL path, or a listed page lacks the key that its
    /// section sorts by.
    pub fn populate(&mut self) -> (r: Result<(), BuildError>)
        requires
            old(self).wf(),
        ensures
            r is Ok <==> old(self).paths_unique() && !exists|i: int, p: int| old(self).refuses(i, p),
            !old(self).paths_unique() ==> r matches Err(BuildError::DuplicatePath { .. }),
            r matches Err(BuildError::DuplicatePath { first, second }) ==> old(self).clash_named(
                first@,
                second@,
            ),
            r is Ok ==> final(self).linked_from(*old(self)),
            r matches Err(BuildError::MissingSortKey { page, key }) ==> exists|i: int, p: int|
                old(self).refuses(i, p) && page@ == old(self).page(p).file.path@ && key
                    == old(self).section(i).meta.sort_by,
            r is Err ==> *final(self) == *old(self),
    {
        match self.find_clash() {
            Some(e) => {
                return Err(e);
            },
            None => {},
        }
        let ns = self.sections.len();
        let np = self.pages.len();
        let mut secs: Vec<Vec<String>> = Vec::new();
        let mut i: usize = 0;
        while i < ns
            invariant
                self.wf(),
                ns == self.sections@.len(),
                i <= ns,
                secs@.len() == i,
                secs.deep_view() == self.section_dirs().take(i as int),
            decreases ns - i,
        {
            let c = copy_components(&self.section_ref(i).file.components);
            let ghost cv = c.deep_view();
            secs.push(c);
            assert(secs@.len() == i + 1);
            assert(secs.deep_view()[i as int] == secs@[i as int].deep_view());
            assert(secs.deep_view()[i as int] == cv);
            i += 1;
            assert(secs.deep_view() =~= self.section_dirs().take(i as int));
        }
        let mut dirs: Vec<Vec<String>> = Vec::new();
        let mut p: usize = 0;
        while p < np
            invariant
                self.wf(),
                np == self.pages@.len(),
                p <= np,
                dirs@.len() == p,
                dirs.deep_view() == self.page_dirs().take(p as int),
            decreases np - p,
        {
            let c = copy_components(&self.page_ref(p).file.components);
            let ghost cv = c.deep_view();
            dirs.push(c);
            assert(dirs@.len() == p + 1);
            assert(dirs.deep_view()[p as int] == dirs@[p as int].deep_view());
            assert(dirs.deep_view()[p as int] == cv);
            p += 1;
            assert(dirs.deep_view() =~= self.page_dirs().take(p as int));
        }
        assert(secs.deep_view() =~= self.section_dirs());
        assert(dirs.deep_view() =~= self.page_dirs());
        let links = link(&secs, &dirs);
        let mut files: Vec<String> = Vec::new();
        let mut i: usize = 0;
        while i < ns
            invariant
                self.wf(),
                ns == self.sections@.len(),
                i <= ns,
                files@.len() == i,
                files.deep_view() == self.section_files().take(i as int),
            decreases ns - i,
        {
            let f = self.section_ref(i).file.path.clone();
            let ghost fv = f@;
            files.push(f);
            assert(files.deep_view()[i as int] == files@[i as int]@);
            i += 1;
            assert(files.deep_view() =~= self.section_files().take(i as int));
        }
        assert(files.deep_view() =~= self.section_files());
        let mut weights: Vec<u64> = Vec::new();
        let mut i: usize = 0;
        while i < ns
            invariant
                self.wf(),
                ns == self.sections@.len(),
                i <= ns,
                weights@ == self.section_weights().take(i as int),
            decreases ns - i,
        {
            let w = match self.section_ref(i).meta.weight {
                Some(w) => w,
                None => u64::MAX,
            };
            weights.push(w);
            i += 1;
            assert(weights@ =~= self.section_weights().take(i as int));
        }
        assert(weights@ =~= self.section_weights());
        let mut subs: Vec<Vec<usize>> = Vec::new();
        let mut i: usize = 0;
        while i < ns
            invariant
                self.wf(),
                ns == self.sections@.len(),
                files@.len() == ns,
                files.deep_view() == self.section_files(),
                weights@ == self.section_weights(),
                links_spec(links, self.section_dirs(), self.page_dirs()),
                i <= ns,
                subs@.len() == i,
                forall|j: int|
                    0 <= j < i ==> as_ints((#[trigger] subs@[j])@).to_multiset() == children(
                        self.section_dirs(),
                        j,
                        ns as nat,
                    ).to_multiset() && in_weight_order(self.section_weights(), self.section_files(), as_ints(subs@[j]@)),
                forall|j: int, m: int| 0 <= j < i && 0 <= m < subs@[j]@.len() ==> #[trigger] subs@[j]@[m] < ns,
            decreases ns - i,
        {
            proof {
                lemma_children_bounds(self.section_dirs(), i as int, ns as nat);
                assert(as_ints(links.subsections@[i as int]@) == children(self.section_dirs(), i as int, ns as nat));
                assert forall|m: int| 0 <= m < links.subsections@[i as int]@.len() implies #[trigger] links.subsections@[i as int]@[m] < ns by {
                    assert(as_ints(links.subsections@[i as int]@)[m] == links.subsections@[i as int]@[m] as int);
                }
            }
            let sorted = sort_by_weight(&links.subsections[i], &weights, &files);
            subs.push(sorted);
            i += 1;
        }
        let listings = self.assign(&links);
        match listings {
            Err(e) => Err(e),
            Ok((listed, ignored)) => {
                self.write_links(&links, &subs, &listed, &ignored);
                Ok(())
            },
        }
    }
}

impl Library {
    /// Sorts the pages of each section into its listing or its set-aside
    /// pages, by position, or finds a page that stops the build.
    fn assign(&self, links: &Links) -> (r: Result<(Vec<Vec<usize>>, Vec<Vec<usize>>), BuildError>)
        requires
            self.wf(),
            links_spec(*links, self.section_dirs(), self.page_dirs()),
        ensures
            r is Ok <==> !exists|i: int, p: int| self.refuses(i, p),
            r matches Err(e) ==> e is MissingSortKey,
            r matches Ok((l, g)) ==> {
                &&& l@.len() == self.sections@.len()
                &&& g@.len() == self.sections@.len()
                &&& forall|i: int| 0 <= i < l@.len() ==> self.sorted_listing(i, as_ints(#[trigger] l@[i]@))
                &&& forall|i: int, m: int| 0 <= i < l@.len() && 0 <= m < l@[i]@.len() ==> #[trigger] l@[i]@[m] < self.pages@.len()
                &&& forall|i: int| 0 <= i < g@.len() ==> as_ints(#[trigger] g@[i]@) == self.ignored(i)
            },
            r matches Err(BuildError::MissingSortKey { page, key }) ==> exists|i: int, p: int|
                self.refuses(i, p) && page@ == self.page(p).file.path@ && key == self.section(
                    i,
                ).meta.sort_by,
    {
        let ghost secs = self.section_dirs();
        let ghost dirs = self.page_dirs();
        let ns = self.sections.len();
        let np = self.pages.len();
        let mut all_listed: Vec<Vec<usize>> = Vec::new();
        let mut all_ignored: Vec<Vec<usize>> = Vec::new();
        let mut i: usize = 0;
        while i < ns
            invariant
                self.wf(),
                secs == self.section_dirs(),
                dirs == self.page_dirs(),
                links_spec(*links, secs, dirs),
                ns == self.sections@.len(),
                np == self.pages@.len(),
                i <= ns,
                all_listed@.len() == i,
                all_ignored@.len() == i,
                forall|j: int| 0 <= j < i ==> self.sorted_listing(j, as_ints(#[trigger] all_listed@[j]@)),
                forall|j: int, m: int| 0 <= j < i && 0 <= m < all_listed@[j]@.len() ==> #[trigger] all_listed@[j]@[m] < np,
                forall|j: int| 0 <= j < i ==> as_ints(#[trigger] all_ignored@[j]@) == self.ignored(j),
                forall|j: int, q: int| 0 <= j < i ==> !self.refuses(j, q),
            decreases ns - i,
        {
            let sec = self.section_ref(i);
            let mut listed: Vec<usize> = Vec::new();
            let mut ignored: Vec<usize> = Vec::new();
            let mut p: usize = 0;
            while p < np
                invariant
                    self.wf(),
                    secs == self.section_dirs(),
                    dirs == self.page_dirs(),
                    links_spec(*links, secs, dirs),
                    ns == self.sections@.len(),
                    np == self.pages@.len(),
                    i < ns,
                    *sec == self.section(i as int),
                    p <= np,
                    as_ints(listed@) == members(secs, dirs, i as int, p as nat, sec.meta, self.page_metas(), true),
                    as_ints(ignored@) == members(secs, dirs, i as int, p as nat, sec.meta, self.page_metas(), false),
                    forall|q: int| 0 <= q < p ==> !self.refuses(i as int, q),
                decreases np - p,
            {
                let anc = &links.page_ancestors[p];
                assert(as_ints(anc@) == page_ancestors(secs, dirs[p as int]));
                if anc.len() > 0 && anc[anc.len() - 1] == i {
                    let pg = self.page_ref(p);
                    assert(self.page_metas()[p as int] == pg.meta);
                    let has_key = match sec.meta.sort_by {
                        SortBy::Unordered => true,
                        SortBy::Date => pg.meta.date.is_some(),
                        SortBy::Weight => pg.meta.weight.is_some(),
                    };
                    if pg.meta.in_listing && has_key {
                        listed.push(p);
                    } else if !pg.meta.in_listing || sec.meta.ignore_unsorted {
                        ignored.push(p);
                    } else {
                        assert(self.refuses(i as int, p as int));
                        return Err(BuildError::MissingSortKey { page: pg.file.path.clone(), key: sec.meta.sort_by });
                    }
                }
                p += 1;
                assert(as_ints(listed@) =~= members(secs, dirs, i as int, p as nat, sec.meta, self.page_metas(), true));
                assert(as_ints(ignored@) =~= members(secs, dirs, i as int, p as nat, sec.meta, self.page_metas(), false));
            }
            assert forall|q: int| !self.refuses(i as int, q) by {
                if 0 <= q < np {
                }
            }
            let mut vals: Vec<u64> = Vec::new();
            let mut q: usize = 0;
            while q < np
                invariant
                    self.wf(),
                    np == self.pages@.len(),
                    i < ns,
                    ns == self.sections@.len(),
                    *sec == self.section(i as int),
                    q <= np,
                    vals@ == self.order_values(i as int).take(q as int),
                decreases np - q,
            {
                let m = &self.page_ref(q).meta;
                let v = match sec.meta.sort_by {
                    SortBy::Unordered => 0,
                    SortBy::Date => match m.date {
                        Some(d) => d,
                        None => 0,
                    },
                    SortBy::Weight => match m.weight {
                        Some(w) => w,
                        None => 0,
                    },
                };
                vals.push(v);
                q += 1;
                assert(vals@ =~= self.order_values(i as int).take(q as int));
            }
            assert(vals@ =~= self.order_values(i as int));
            proof {
                lemma_members_bounds(secs, dirs, i as int, np as nat, sec.meta, self.page_metas(), true);
                lemma_members_increasing(secs, dirs, i as int, np as nat, sec.meta, self.page_metas(), true);
                assert forall|m: int| 0 <= m < listed@.len() implies #[trigger] listed@[m] < vals@.len() by {
                    assert(as_ints(listed@)[m] == listed@[m] as int);
                }
            }
            let desc = match sec.meta.sort_by {
                SortBy::Date => true,
                _ => false,
            };
            let sorted = sort_positions(&listed, &vals, desc);
            all_listed.push(sorted);
            all_ignored.push(ignored);
            i += 1;
        }
        Ok((all_listed, all_ignored))
    }
}

impl Library {
    /// Writes the links that `link` and `assign` computed into the records.
    fn write_links(
        &mut self,
        links: &Links,
        subs: &Vec<Vec<usize>>,
        listed: &Vec<Vec<usize>>,
        ignored: &Vec<Vec<usize>>,
    )
        requires
            old(self).wf(),
            subs@.len() == old(self).sections@.len(),
            forall|j: int|
                0 <= j < subs@.len() ==> as_ints((#[trigger] subs@[j])@).to_multiset() == children(
                    old(self).section_dirs(),
                    j,
                    old(self).sections@.len(),
                ).to_multiset() && in_weight_order(old(self).section_weights(), old(self).section_files(), as_ints(subs@[j]@)),
            forall|j: int, m: int| 0 <= j < subs@.len() && 0 <= m < subs@[j]@.len() ==> #[trigger] subs@[j]@[m] < old(self).sections@.len(),
            links_spec(*links, old(self).section_dirs(), old(self).page_dirs()),
            listed@.len() == old(self).sections@.len(),
            ignored@.len() == old(self).sections@.len(),
            forall|i: int| 0 <= i < listed@.len() ==> old(self).sorted_listing(i, as_ints(#[trigger] listed@[i]@)),
            forall|i: int, m: int| 0 <= i < listed@.len() && 0 <= m < listed@[i]@.len() ==> #[trigger] listed@[i]@[m] < old(self).pages@.len(),
            forall|i: int| 0 <= i < ignored@.len() ==> as_ints(#[trigger] ignored@[i]@) == old(self).ignored(i),
        ensures
            final(self).linked_from(*old(self)),
    {
        let ghost before = *self;
        let ghost secs = before.section_dirs();
        let ghost dirs = before.page_dirs();
        let ns = self.sections.len();
        let np = self.pages.len();
        let mut i: usize = 0;
        while i < ns
            invariant
                self.wf(),
                before.wf(),
                self.sections == before.sections,
                self.pages == before.pages,
                secs == before.section_dirs(),
                dirs == before.page_dirs(),
                links_spec(*links, secs, dirs),
                listed@.len() == ns,
                ignored@.len() == ns,
                subs@.len() == ns,
                forall|j: int|
                    0 <= j < ns ==> as_ints((#[trigger] subs@[j])@).to_multiset() == children(
                        secs,
                        j,
                        ns as nat,
                    ).to_multiset() && in_weight_order(before.section_weights(), before.section_files(), as_ints(subs@[j]@)),
                forall|j: int, m: int| 0 <= j < ns && 0 <= m < subs@[j]@.len() ==> #[trigger] subs@[j]@[m] < ns,
                forall|j: int| 0 <= j < ns ==> before.sorted_listing(j, as_ints(#[trigger] listed@[j]@)),
                forall|j: int, m: int| 0 <= j < ns && 0 <= m < listed@[j]@.len() ==> #[trigger] listed@[j]@[m] < np,
                forall|j: int| 0 <= j < ns ==> as_ints(#[trigger] ignored@[j]@) == before.ignored(j),
                ns == self.sections@.len(),
                np == self.pages@.len(),
                i <= ns,
                forall|j: int| 0 <= j < i ==> section_linked(#[trigger] self.section(j), before, j),
                forall|j: int| i <= j < ns ==> #[trigger] self.section(j) == before.section(j),
                forall|p: int| 0 <= p < np ==> #[trigger] self.page(p) == before.page(p),
            decreases ns - i,
        {
            let k = self.sections[i];
            let ghost pre = *self;
            proof {
                lemma_chain_entries(secs, secs[i as int], secs[i as int].len());
                lemma_children_bounds(secs, i as int, secs.len());
                lemma_members_bounds(secs, dirs, i as int, np as nat, before.section(i as int).meta, before.page_metas(), true);
                lemma_members_bounds(secs, dirs, i as int, np as nat, before.section(i as int).meta, before.page_metas(), false);
                assert(as_ints(links.section_ancestors@[i as int]@) == section_ancestors(secs, i as int));
                assert(as_ints(links.subsections@[i as int]@) == children(secs, i as int, secs.len()));
                assert forall|m: int| 0 <= m < links.section_ancestors@[i as int]@.len() implies #[trigger] links.section_ancestors@[i as int]@[m] < ns by {
                    assert(as_ints(links.section_ancestors@[i as int]@)[m] == links.section_ancestors@[i as int]@[m] as int);
                }
                assert forall|m: int| 0 <= m < links.subsections@[i as int]@.len() implies #[trigger] links.subsections@[i as int]@[m] < ns by {
                    assert(as_ints(links.subsections@[i as int]@)[m] == links.subsections@[i as int]@[m] as int);
                }
                assert forall|m: int| 0 <= m < ignored@[i as int]@.len() implies #[trigger] ignored@[i as int]@[m] < np by {
                    assert(as_ints(ignored@[i as int]@)[m] == ignored@[i as int]@[m] as int);
                }
            }
            let anc = keys_for(&self.sections, &links.section_ancestors[i]);
            let sub_keys = keys_for(&self.sections, &subs[i]);
            let lp = keys_for(&self.pages, &listed[i]);
            let ig = keys_for(&self.pages, &ignored[i]);
            let ghost mid = self.contents();
            assert(self.contents().contains_key(k));
            let rec = store_replace(&mut self.store, k, Record::Section(Section::default()));
            match rec {
                Record::Section(mut s) => {
                    s.ancestors = anc;
                    s.subsections = sub_keys;
                    s.pages = lp;
                    s.ignored_pages = ig;
                    store_replace(&mut self.store, k, Record::Section(s));
                },
                Record::Page(_) => {
                    proof {
                        assert(mid[k] is Section);
                    }
                    unreached::<()>()
                },
            }
            proof {
                assert(self.contents() == mid.insert(k, self.contents()[k]));
                assert(self.contents().dom() =~= mid.dom());
                assert forall|j: int| 0 <= j < ns && j != i implies #[trigger] self.sections@[j] != k by {
                    assert(self.sections@.no_duplicates());
                }
                assert forall|p: int| 0 <= p < np implies #[trigger] self.pages@[p] != k by {
                    assert(mid[self.pages@[p]] is Page);
                }
                assert forall|j: int| 0 <= j < ns implies self.contents().contains_key(#[trigger] self.sections@[j])
                    && self.contents()[self.sections@[j]] is Section by {
                    if j != i {
                        assert(self.sections@[j] != k);
                    }
                }
                assert forall|p: int| 0 <= p < np implies self.contents().contains_key(#[trigger] self.pages@[p])
                    && self.contents()[self.pages@[p]] is Page by {
                    assert(self.pages@[p] != k);
                }
                assert(pre.section(i as int) == before.section(i as int));
                assert(before.sorted_listing(i as int, as_ints(listed@[i as int]@)));
                assert(as_ints(subs@[i as int]@).to_multiset() == children(secs, i as int, ns as nat).to_multiset());
                assert forall|j: int| 0 <= j <= i implies section_linked(#[trigger] self.section(j), before, j) by {
                    if j < i {
                        assert(self.sections@[j] != k);
                        assert(self.section(j) == pre.section(j));
                    }
                }
                assert forall|j: int| i < j < ns implies #[trigger] self.section(j) == before.section(j) by {
                    assert(self.sections@[j] != k);
                    assert(self.section(j) == pre.section(j));
                }
                assert forall|q: int| 0 <= q < np implies #[trigger] self.page(q) == before.page(q) by {
                    assert(self.pages@[q] != k);
                    assert(self.page(q) == pre.page(q));
                }
            }
            i += 1;
        }
        let mut p: usize = 0;
        while p < np
            invariant
                self.wf(),
                before.wf(),
                self.sections == before.sections,
                self.pages == before.pages,
                secs == before.section_dirs(),
                dirs == before.page_dirs(),
                links_spec(*links, secs, dirs),
                ns == self.sections@.len(),
                np == self.pages@.len(),
                p <= np,
                forall|j: int| 0 <= j < ns ==> section_linked(#[trigger] self.section(j), before, j),
                forall|q: int| 0 <= q < p ==> page_linked(#[trigger] self.page(q), before, q),
                forall|q: int| p <= q < np ==> #[trigger] self.page(q) == before.page(q),
            decreases np - p,
        {
            let k = self.pages[p];
            let ghost pre = *self;
            proof {
                lemma_chain_entries(secs, dirs[p as int], dirs[p as int].len() + 1);
                assert(as_ints(links.page_ancestors@[p as int]@) == page_ancestors(secs, dirs[p as int]));
                assert forall|m: int| 0 <= m < links.page_ancestors@[p as int]@.len() implies #[trigger] links.page_ancestors@[p as int]@[m] < ns by {
                    assert(as_ints(links.page_ancestors@[p as int]@)[m] == links.page_ancestors@[p as int]@[m] as int);
                }
            }
            let anc = keys_for(&self.sections, &links.page_ancestors[p]);
            let ghost mid = self.contents();
            assert(self.contents().contains_key(k));
            let rec = store_replace(&mut self.store, k, Record::Section(Section::default()));
            match rec {
                Record::Page(mut pg) => {
                    pg.ancestors = anc;
                    store_replace(&mut self.store, k, Record::Page(pg));
                },
                Record::Section(_) => {
                    proof {
                        assert(mid[k] is Page);
                    }
                    unreached::<()>()
                },
            }
            proof {
                assert(self.contents() == mid.insert(k, self.contents()[k]));
                assert(self.contents().dom() =~= mid.dom());
                assert forall|q: int| 0 <= q < np && q != p implies #[trigger] self.pages@[q] != k by {
                    assert(self.pages@.no_duplicates());
                }
                assert forall|j: int| 0 <= j < ns implies #[trigger] self.sections@[j] != k by {
                    assert(mid[self.sections@[j]] is Section);
                }
                assert forall|j: int| 0 <= j < ns implies self.contents().contains_key(#[trigger] self.sections@[j])
                    && self.contents()[self.sections@[j]] is Section by {
                    assert(self.sections@[j] != k);
                }
                assert forall|q: int| 0 <= q < np implies self.contents().contains_key(#[trigger] self.pages@[q])
                    && self.contents()[self.pages@[q]] is Page by {
                    if q != p {
                        assert(self.pages@[q] != k);
                    }
                }
                assert(pre.page(p as int) == before.page(p as int));
                assert forall|j: int| 0 <= j < ns implies section_linked(#[trigger] self.section(j), before, j) by {
                    assert(self.sections@[j] != k);
                    assert(self.section(j) == pre.section(j));
                }
                assert forall|q: int| 0 <= q <= p implies page_linked(#[trigger] self.page(q), before, q) by {
                    if q < p {
                        assert(self.pages@[q] != k);
                        assert(self.page(q) == pre.page(q));
                    }
                }
                assert forall|q: int| p < q < np implies #[trigger] self.page(q) == before.page(q) by {
                    assert(self.pages@[q] != k);
                    assert(self.page(q) == pre.page(q));
                }
            }
            p += 1;
        }
    }
}

/// Distinct keys pick out a position only where the positions hold it.
proof fn lemma_keys_at_contains(keys: Seq<DefaultKey>, idx: Seq<int>, i: int)
    requires
        keys.no_duplicates(),
        0 <= i < keys.len(),
        forall|m: int| 0 <= m < idx.len() ==> 0 <= #[trigger] idx[m] < keys.len(),
    ensures
        keys_at(keys, idx).contains(keys[i]) <==> idx.contains(i),
{
    if keys_at(keys, idx).contains(keys[i]) {
        let m = choose|m: int| 0 <= m < idx.len() && keys_at(keys, idx)[m] == keys[i];
        assert(keys[idx[m]] == keys[i]);
        assert(idx[m] == i);
    }
    if idx.contains(i) {
        let m = choose|m: int| 0 <= m < idx.len() && idx[m] == i;
        assert(keys_at(keys, idx)[m] == keys[i]);
    }
}

/// `members` lists positions in growing order.
proof fn lemma_members_increasing(
    secs: Seq<Components>,
    dirs: Seq<Components>,
    i: int,
    n: nat,
    sm: SectionFrontMatter,
    pms: Seq<PageFrontMatter>,
    listed: bool,
)
    ensures
        increasing(members(secs, dirs, i, n, sm, pms, listed)),
    decreases n,
{
    if n > 0 {
        lemma_members_increasing(secs, dirs, i, (n - 1) as nat, sm, pms, listed);
        lemma_members_bounds(secs, dirs, i, (n - 1) as nat, sm, pms, listed);
        let prev = members(secs, dirs, i, (n - 1) as nat, sm, pms, listed);
        let cur = members(secs, dirs, i, n, sm, pms, listed);
        assert forall|a: int, b: int| 0 <= a < b < cur.len() implies #[trigger] cur[a] < #[trigger] cur[b] by {
            assert(cur[a] == prev[a]);
            if b < prev.len() {
                assert(cur[b] == prev[b]);
            }
        }
    }
}

/// Every page that `members` picks has the section at `i` as its nearest.
proof fn lemma_members_parent(
    secs: Seq<Components>,
    dirs: Seq<Components>,
    i: int,
    n: nat,
    sm: SectionFrontMatter,
    pms: Seq<PageFrontMatter>,
    listed: bool,
    p: int,
)
    requires
        members(secs, dirs, i, n, sm, pms, listed).contains(p),
    ensures
        parent_of(page_ancestors(secs, dirs[p])) == Some(i),
    decreases n,
{
    if n > 0 {
        let prev = members(secs, dirs, i, (n - 1) as nat, sm, pms, listed);
        if prev.contains(p) {
            lemma_members_parent(secs, dirs, i, (n - 1) as nat, sm, pms, listed, p);
        } else {
            let cur = members(secs, dirs, i, n, sm, pms, listed);
            let m = choose|m: int| 0 <= m < cur.len() && cur[m] == p;
            if m < prev.len() {
                assert(prev[m] == p);
            }
        }
    }
}

/// In a built library whose every enclosing directory has a section, a
/// section has one ancestor per component of its directory, and it is
/// never one of its own ancestors.
pub proof fn lemma_built_section_ancestors(lib: Library, before: Library, i: int)
    requires
        lib.linked_from(before),
        before.wf(),
        complete_tree(before.section_dirs()),
        0 <= i < lib.sections@.len(),
    ensures
        lib.section(i).ancestors@.len() == lib.section(i).file.components@.len(),
        !lib.section(i).ancestors@.contains(lib.sections@[i]),
{
    let secs = before.section_dirs();
    assert(section_linked(lib.section(i), before, i));
    lemma_section_ancestors(secs, i);
    lemma_chain_entries(secs, secs[i], secs[i].len());
    lemma_keys_at_contains(lib.sections@, section_ancestors(secs, i), i);
    assert(secs[i].len() == lib.section(i).file.components@.len());
}

/// In any built library, a section is never one of its own ancestors.
pub proof fn lemma_built_section_not_own_ancestor(lib: Library, before: Library, i: int)
    requires
        lib.linked_from(before),
        before.wf(),
        0 <= i < lib.sections@.len(),
    ensures
        !lib.section(i).ancestors@.contains(lib.sections@[i]),
{
    let secs = before.section_dirs();
    assert(section_linked(lib.section(i), before, i));
    lemma_section_not_own_ancestor(secs, i);
    lemma_chain_entries(secs, secs[i], secs[i].len());
    lemma_keys_at_contains(lib.sections@, section_ancestors(secs, i), i);
}

/// In a built library, a page that a section lists or sets aside has that
/// section last among its ancestors, and its ancestors are the section's
/// ancestors followed by the section.
pub proof fn lemma_built_page_ancestors(lib: Library, before: Library, i: int, p: int)
    requires
        lib.linked_from(before),
        before.wf(),
        0 <= i < lib.sections@.len(),
        0 <= p < lib.pages@.len(),
        lib.section(i).pages@.contains(lib.pages@[p]) || lib.section(i).ignored_pages@.contains(
            lib.pages@[p],
        ),
    ensures
        lib.page(p).ancestors@.len() > 0,
        lib.page(p).ancestors@.last() == lib.sections@[i],
        lib.page(p).ancestors@ == lib.section(i).ancestors@.push(lib.sections@[i]),
{
    let secs = before.section_dirs();
    let dirs = before.page_dirs();
    let np = lib.pages@.len();
    assert(section_linked(lib.section(i), before, i));
    assert(page_linked(lib.page(p), before, p));
    let sm = before.section(i).meta;
    let pms = before.page_metas();
    lemma_members_bounds(secs, dirs, i, np, sm, pms, true);
    lemma_members_bounds(secs, dirs, i, np, sm, pms, false);
    if lib.section(i).pages@.contains(lib.pages@[p]) {
        let l = choose|l: Seq<int>| before.sorted_listing(i, l) && lib.section(i).pages@ == keys_at(before.pages@, l);
        assert forall|m: int| 0 <= m < l.len() implies 0 <= #[trigger] l[m] < np by {
            assert(l.to_multiset().count(l[m]) > 0);
            assert(before.listed(i).to_multiset().count(l[m]) > 0);
            assert(before.listed(i).contains(l[m]));
        }
        lemma_keys_at_contains(lib.pages@, l, p);
        assert(l.to_multiset().count(p) > 0);
        assert(before.listed(i).contains(p));
        lemma_members_parent(secs, dirs, i, np, sm, pms, true, p);
    } else {
        lemma_keys_at_contains(lib.pages@, before.ignored(i), p);
        lemma_members_parent(secs, dirs, i, np, sm, pms, false, p);
    }
    lemma_page_ancestors(secs, dirs[p]);
    let pa = page_ancestors(secs, dirs[p]);
    assert(pa.last() == i);
    assert(keys_at(lib.sections@, pa) =~= keys_at(lib.sections@, section_ancestors(secs, i)).push(
        lib.sections@[i],
    ));
}

impl Library {
    /// The permalinks of the sections, in the order they were added.
    pub open spec fn section_links(&self) -> Seq<Seq<char>> {
        Seq::new(self.sections@.len(), |i: int| self.section(i).permalink@)
    }

    /// The files of the pages, in the order they were added.
    pub open spec fn page_files(&self) -> Seq<Seq<char>> {
        Seq::new(self.pages@.len(), |i: int| self.page(i).file.path@)
    }

    /// The permalinks of the pages, in the order they were added.
    pub open spec fn page_links(&self) -> Seq<Seq<char>> {
        Seq::new(self.pages@.len(), |i: int| self.page(i).permalink@)
    }

    /// The table from every document's file to its permalink: sections
    /// first, then pages, each in the order they were added.
    pub fn permalinks(&self) -> (r: Permalinks)
        requires
            self.wf(),
        ensures
            r.paths.deep_view() == self.section_files() + self.page_files(),
            r.links.deep_view() == self.section_links() + self.page_links(),
            r.paths@.len() == r.links@.len(),
    {
        let mut paths: Vec<String> = Vec::new();
        let mut links: Vec<String> = Vec::new();
        let ns = self.sections.len();
        let mut i: usize = 0;
        while i < ns
            invariant
                self.wf(),
                ns == self.sections@.len(),
                i <= ns,
                paths@.len() == i,
                links@.len() == i,
                paths.deep_view() == self.section_files().take(i as int),
                links.deep_view() == self.section_links().take(i as int),
            decreases ns - i,
        {
            let s = self.section_ref(i);
            paths.push(s.file.path.clone());
            links.push(s.permalink.clone());
            assert(paths.deep_view()[i as int] == paths@[i as int]@);
            assert(links.deep_view()[i as int] == links@[i as int]@);
            i += 1;
            assert(paths.deep_view() =~= self.section_files().take(i as int));
            assert(links.deep_view() =~= self.section_links().take(i as int));
        }
        let np = self.pages.len();
        let mut p: usize = 0;
        while p < np
            invariant
                self.wf(),
                ns == self.sections@.len(),
                np == self.pages@.len(),
                p <= np,
                paths@.len() == ns + p,
                links@.len() == ns + p,
                paths.deep_view() == self.section_files() + self.page_files().take(p as int),
                links.deep_view() == self.section_links() + self.page_links().take(p as int),
            decreases np - p,
        {
            let pg = self.page_ref(p);
            let ghost op = paths.deep_view();
            let ghost ol = links.deep_view();
            paths.push(pg.file.path.clone());
            links.push(pg.permalink.clone());
            assert(paths.deep_view() =~= op.push(pg.file.path@));
            assert(links.deep_view() =~= ol.push(pg.permalink@));
            assert(self.page_files().take(p + 1) =~= self.page_files().take(p as int).push(pg.file.path@));
            assert(self.page_links().take(p + 1) =~= self.page_links().take(p as int).push(pg.permalink@));
            p += 1;
            assert(paths.deep_view() =~= self.section_files() + self.page_files().take(p as int));
            assert(links.deep_view() =~= self.section_links() + self.page_links().take(p as int));
        }
        assert(self.page_files().take(np as int) =~= self.page_files());
        assert(self.page_links().take(np as int) =~= self.page_links());
        Permalinks { paths, links }
    }
}

impl Library {
    /// Adds the default section at the content root where no section has
    /// that directory; hands back the key of the root section.
    pub fn ensure_index(&mut self) -> (k: DefaultKey)
        requires
            old(self).wf(),
            old(self).sections@.len() + old(self).pages@.len() + 1 < 0xFFFF_FFFF,
        ensures
            final(self).wf(),
            final(self).pages@ == old(self).pages@,
            (exists|i: int| 0 <= i < old(self).sections@.len() && old(self).section(i).file.components@.len() == 0)
                ==> *final(self) == *old(self),
            (forall|i: int| 0 <= i < old(self).sections@.len() ==> old(self).section(i).file.components@.len() != 0)
                ==> final(self).sections@ == old(self).sections@.push(k) && final(self).contents()
                == old(self).contents().insert(k, Record::Section(final(self).contents()[k]->Section_0)),
            exists|i: int|
                0 <= i < final(self).sections@.len() && final(self).sections@[i] == k
                    && final(self).section(i).file.components@.len() == 0,
    {
        let ns = self.sections.len();
        let mut i: usize = 0;
        while i < ns
            invariant
                self.wf(),
                ns == self.sections@.len(),
                i <= ns,
                forall|j: int| 0 <= j < i ==> self.section(j).file.components@.len() != 0,
            decreases ns - i,
        {
            if self.section_ref(i).file.components.len() == 0 {
                return self.sections[i];
            }
            i += 1;
        }
        let ghost before = *self;
        let k = self.insert_section(Section::default());
        proof {
            let last = self.sections@.len() - 1;
            assert(self.sections@[last] == k);
            assert(self.contents()[k] == Record::Section(self.contents()[k]->Section_0));
        }
        k
    }
}

} // verus!
