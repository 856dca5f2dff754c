use vstd::prelude::*;
use slotmap::DefaultKey;
use crate::config::{Config, permalink_of};
use crate::library::{keys_at, keys_for};
use crate::graph::as_ints;
use crate::order::{in_order, increasing, ties_in_order, sort_positions};
use crate::pagination::{Pager, paginate, pager_count, pager_spec};

verus! {

/// What `slug::slugify` makes of a term: lower-case ASCII letters, digits
/// and single dashes.
pub uninterp spec fn slugified(s: Seq<char>) -> Seq<char>;

/// Whether `s` is a slug: lower-case ASCII letters, digits and dashes,
/// never two dashes in a row nor one at either end.
pub open spec fn is_slug(s: Seq<char>) -> bool {
    &&& forall|i: int| 0 <= i < s.len() ==> ('a' <= #[trigger] s[i] <= 'z' || '0' <= s[i] <= '9' || s[i] == '-')
    &&& forall|i: int| 0 <= i < s.len() - 1 ==> !(#[trigger] s[i] == '-' && s[i + 1] == '-')
    &&& s.len() > 0 ==> s[0] != '-' && s.last() != '-'
}

/// Relies on `slug::slugify`, whose result depends on the characters of
/// its argument alone and is, as its documentation says, made of a-z, 0-9
/// and single dashes, with none at either end.
#[verifier::external_body]
pub(crate) fn slugify(s: &str) -> (r: String)
    ensures
        r@ == slugified(s@),
        is_slug(r@),
{
    slug::slugify(s)
}

/// One term of a taxonomy and the pages that carry it.
pub struct TaxonomyItem {
    /// The term, as written.
    pub name: String,
    /// The term as a URL component.
    pub slug: String,
    /// The term's listing URL.
    pub permalink: String,
    /// The pages that carry it, in the order they were given.
    pub pages: Vec<DefaultKey>,
}

impl TaxonomyItem {
    /// The term's listing, split into pagers of `size` pages under its URL.
    pub fn paginate(&self, size: usize, segment: &String) -> (r: Vec<Pager<DefaultKey>>)
        requires
            size >= 1,
        ensures
            r@.len() == pager_count(self.pages@.len(), size as nat),
            forall|i: int|
                0 <= i < r@.len() ==> pager_spec(
                    #[trigger] r@[i],
                    self.pages@,
                    size as nat,
                    self.permalink@,
                    segment@,
                    i as nat,
                ),
    {
        paginate(&self.pages, size, &self.permalink, segment)
    }
}

/// A classification kind, such as `tags`, with its terms.
pub struct Taxonomy {
    /// The kind's name.
    pub kind: String,
    /// Its terms, in the order they first occur.
    pub items: Vec<TaxonomyItem>,
}

/// Whether the page at `p` counts: not a draft, and carrying `t`.
pub open spec fn carries(terms: Seq<Seq<Seq<char>>>, drafts: Seq<bool>, p: int, t: Seq<char>) -> bool {
    !drafts[p] && terms[p].contains(t)
}

/// The positions among the first `n` pages that carry `t`.
pub open spec fn carrying(terms: Seq<Seq<Seq<char>>>, drafts: Seq<bool>, t: Seq<char>, n: nat) -> Seq<int>
    decreases n,
{
    if n == 0 {
        seq![]
    } else {
        let prev = carrying(terms, drafts, t, (n - 1) as nat);
        if carries(terms, drafts, n - 1, t) {
            prev.push(n - 1)
        } else {
            prev
        }
    }
}

/// The URL path of a term's listing: the kind, then the term's slug.
pub open spec fn term_path(kind: Seq<char>, slug: Seq<char>) -> Seq<char> {
    kind + seq!['/'] + slug + seq!['/']
}

/// Whether `names` lists each term that some page counts for, once.
pub open spec fn names_spec(names: Seq<Seq<char>>, terms: Seq<Seq<Seq<char>>>, drafts: Seq<bool>) -> bool {
    &&& names.no_duplicates()
    &&& forall|t: Seq<char>| names.contains(t) <==> exists|p: int|
        0 <= p < terms.len() && #[trigger] carries(terms, drafts, p, t)
}

/// Whether one of `names` has the same characters as `t`.
fn find_name(names: &Vec<String>, t: &String) -> (r: bool)
    ensures
        r == names.deep_view().contains(t@),
{
    let mut i: usize = 0;
    while i < names.len()
        invariant
            i <= names@.len(),
            forall|j: int| 0 <= j < i ==> names.deep_view()[j] != t@,
        decreases names@.len() - i,
    {
        assert(names.deep_view()[i as int] == names@[i as int]@);
        if names[i] == *t {
            assert(names.deep_view()[i as int] == t@);
            return true;
        }
        i += 1;
    }
    false
}

/// The distinct terms that the counted pages carry, as they first occur.
fn distinct_terms(terms: &Vec<Vec<String>>, drafts: &Vec<bool>) -> (r: Vec<String>)
    requires
        terms@.len() == drafts@.len(),
    ensures
        names_spec(r.deep_view(), terms.deep_view(), drafts@),
{
    let ghost tv = terms.deep_view();
    let mut names: Vec<String> = Vec::new();
    let mut p: usize = 0;
    while p < terms.len()
        invariant
            terms@.len() == drafts@.len(),
            tv == terms.deep_view(),
            p <= terms@.len(),
            names.deep_view().no_duplicates(),
            forall|t: Seq<char>| names.deep_view().contains(t) <==> exists|q: int|
                0 <= q < p && #[trigger] carries(tv, drafts@, q, t),
        decreases terms@.len() - p,
    {
        if !drafts[p] {
            let row = &terms[p];
            assert(tv[p as int] == row.deep_view());
            let mut j: usize = 0;
            while j < row.len()
                invariant
                    terms@.len() == drafts@.len(),
                    tv == terms.deep_view(),
                    p < terms@.len(),
                    !drafts@[p as int],
                    tv[p as int] == row.deep_view(),
                    j <= row@.len(),
                    names.deep_view().no_duplicates(),
                    forall|t: Seq<char>| names.deep_view().contains(t) <==> (exists|q: int|
                        0 <= q < p && #[trigger] carries(tv, drafts@, q, t)) || row.deep_view().take(j as int).contains(t),
                decreases row@.len() - j,
            {
                let t = &row[j];
                assert(row.deep_view()[j as int] == t@);
                let ghost old_names = names.deep_view();
                let ghost before_t = row.deep_view().take(j as int);
                if !find_name(&names, t) {
                    names.push(t.clone());
                    assert(names.deep_view() =~= old_names.push(t@));
                }
                j += 1;
                let ghost upto = row.deep_view().take(j as int);
                assert(upto =~= before_t.push(t@));
                assert forall|s: Seq<char>| names.deep_view().contains(s) <==> (exists|q: int|
                    0 <= q < p && #[trigger] carries(tv, drafts@, q, s)) || row.deep_view().take(j as int).contains(s) by {
                    assert(upto.contains(s) <==> (before_t.contains(s) || s == t@)) by {
                        if upto.contains(s) && s != t@ {
                            let m = choose|m: int| 0 <= m < upto.len() && upto[m] == s;
                            assert(before_t[m] == s);
                        }
                        if before_t.contains(s) {
                            let m = choose|m: int| 0 <= m < before_t.len() && before_t[m] == s;
                            assert(upto[m] == s);
                        }
                        if s == t@ {
                            assert(upto[upto.len() - 1] == s);
                        }
                    }
                    assert(names.deep_view().contains(s) <==> (old_names.contains(s) || s == t@)) by {
                        let nv = names.deep_view();
                        if old_names.contains(t@) {
                            assert(nv == old_names);
                        } else {
                            if nv.contains(s) && s != t@ {
                                let m = choose|m: int| 0 <= m < nv.len() && nv[m] == s;
                                assert(old_names[m] == s);
                            }
                            if old_names.contains(s) {
                                let m = choose|m: int| 0 <= m < old_names.len() && old_names[m] == s;
                                assert(nv[m] == s);
                            }
                            if s == t@ {
                                assert(nv[nv.len() - 1] == s);
                            }
                        }
                    }
                }
            }
            assert(row.deep_view().take(row@.len() as int) =~= row.deep_view());
            assert forall|s: Seq<char>| names.deep_view().contains(s) <==> exists|q: int|
                0 <= q < p + 1 && #[trigger] carries(tv, drafts@, q, s) by {
                if row.deep_view().contains(s) {
                    assert(carries(tv, drafts@, p as int, s));
                }
                if exists|q: int| 0 <= q < p + 1 && #[trigger] carries(tv, drafts@, q, s) {
                    let q = choose|q: int| 0 <= q < p + 1 && #[trigger] carries(tv, drafts@, q, s);
                    if q == p {
                        assert(row.deep_view().contains(s));
                    }
                }
            }
        } else {
            assert forall|s: Seq<char>| names.deep_view().contains(s) <==> exists|q: int|
                0 <= q < p + 1 && #[trigger] carries(tv, drafts@, q, s) by {
                if exists|q: int| 0 <= q < p + 1 && #[trigger] carries(tv, drafts@, q, s) {
                    let q = choose|q: int| 0 <= q < p + 1 && #[trigger] carries(tv, drafts@, q, s);
                    assert(q != p);
                }
            }
        }
        p += 1;
    }
    names
}

proof fn lemma_carrying_bounds(terms: Seq<Seq<Seq<char>>>, drafts: Seq<bool>, t: Seq<char>, n: nat)
    ensures
        forall|k: int|
            0 <= k < carrying(terms, drafts, t, n).len() ==> 0 <= #[trigger] carrying(terms, drafts, t, n)[k] < n,
    decreases n,
{
    if n > 0 {
        lemma_carrying_bounds(terms, drafts, t, (n - 1) as nat);
        let prev = carrying(terms, drafts, t, (n - 1) as nat);
        let cur = carrying(terms, drafts, t, n);
        assert forall|k: int| 0 <= k < cur.len() implies 0 <= #[trigger] cur[k] < n by {
            if k < prev.len() {
                assert(cur[k] == prev[k]);
            }
        }
    }
}

/// The positions of the counted pages that carry `t`.
fn carrying_pages(terms: &Vec<Vec<String>>, drafts: &Vec<bool>, t: &String) -> (r: Vec<usize>)
    requires
        terms@.len() == drafts@.len(),
    ensures
        as_ints(r@) == carrying(terms.deep_view(), drafts@, t@, terms@.len() as nat),
        forall|k: int| 0 <= k < r@.len() ==> #[trigger] r@[k] < terms@.len(),
{
    let mut r: Vec<usize> = Vec::new();
    let mut p: usize = 0;
    while p < terms.len()
        invariant
            terms@.len() == drafts@.len(),
            p <= terms@.len(),
            as_ints(r@) == carrying(terms.deep_view(), drafts@, t@, p as nat),
        decreases terms@.len() - p,
    {
        assert(terms.deep_view()[p as int] == terms@[p as int].deep_view());
        if !drafts[p] && find_name(&terms[p], t) {
            r.push(p);
        }
        p += 1;
        assert(as_ints(r@) =~= carrying(terms.deep_view(), drafts@, t@, p as nat));
    }
    proof {
        lemma_carrying_bounds(terms.deep_view(), drafts@, t@, terms@.len() as nat);
        assert forall|k: int| 0 <= k < r@.len() implies #[trigger] r@[k] < terms@.len() by {
            assert(as_ints(r@)[k] == r@[k] as int);
        }
    }
    r
}

/// The terms of the items, in order.
pub open spec fn item_names(items: Seq<TaxonomyItem>) -> Seq<Seq<char>> {
    Seq::new(items.len(), |i: int| items[i].name@)
}

/// What the item for term `t` of a taxonomy `kind` must be.
pub open spec fn item_spec(
    item: TaxonomyItem,
    kind: Seq<char>,
    keys: Seq<DefaultKey>,
    terms: Seq<Seq<Seq<char>>>,
    drafts: Seq<bool>,
    order: Seq<u64>,
    desc: bool,
    base: Seq<char>,
) -> bool {
    &&& item.slug@ == slugified(item.name@)
    &&& item.permalink@ == permalink_of(base, term_path(kind, item.slug@))
    &&& exists|l: Seq<int>|
        l.to_multiset() == carrying(terms, drafts, item.name@, terms.len()).to_multiset()
            && in_order(order, l, desc) && ties_in_order(order, l) && item.pages@ == keys_at(keys, l)
}

proof fn lemma_carrying_increasing(terms: Seq<Seq<Seq<char>>>, drafts: Seq<bool>, t: Seq<char>, n: nat)
    ensures
        increasing(carrying(terms, drafts, t, n)),
    decreases n,
{
    if n > 0 {
        lemma_carrying_increasing(terms, drafts, t, (n - 1) as nat);
        lemma_carrying_bounds(terms, drafts, t, (n - 1) as nat);
        let prev = carrying(terms, drafts, t, (n - 1) as nat);
        let cur = carrying(terms, drafts, t, n);
        assert forall|a: int, b: int| 0 <= a < b < cur.len() implies #[trigger] cur[a] < #[trigger] cur[b] by {
            assert(cur[a] == prev[a]);
            if b < prev.len() {
                assert(cur[b] == prev[b]);
            }
        }
    }
}

/// Groups pages by the terms they carry for the taxonomy `kind`. Page `p`
/// has key `keys[p]`, carries `terms[p]`, is a draft where `drafts[p]` and
/// is ordered by `order[p]`; drafts count for nothing. Each term gets one
/// item, whose pages come in the pages' own order: by `order`, lightest
/// first or, where `desc`, heaviest first (newest first for dates), ties in
/// the order of `keys`.
pub fn build_taxonomy(
    kind: &String,
    keys: &Vec<DefaultKey>,
    terms: &Vec<Vec<String>>,
    drafts: &Vec<bool>,
    order: &Vec<u64>,
    desc: bool,
    config: &Config,
) -> (r: Taxonomy)
    requires
        keys@.len() == terms@.len(),
        terms@.len() == drafts@.len(),
        order@.len() == terms@.len(),
    ensures
        r.kind@ == kind@,
        names_spec(item_names(r.items@), terms.deep_view(), drafts@),
        forall|i: int|
            0 <= i < r.items@.len() ==> item_spec(
                #[trigger] r.items@[i],
                kind@,
                keys@,
                terms.deep_view(),
                drafts@,
                order@,
                desc,
                config.base_url@,
            ),
{
    let names = distinct_terms(terms, drafts);
    let mut items: Vec<TaxonomyItem> = Vec::new();
    let mut i: usize = 0;
    while i < names.len()
        invariant
            keys@.len() == terms@.len(),
            terms@.len() == drafts@.len(),
            order@.len() == terms@.len(),
            i <= names@.len(),
            items@.len() == i,
            forall|j: int| 0 <= j < i ==> #[trigger] items@[j].name@ == names.deep_view()[j],
            forall|j: int|
                0 <= j < i ==> item_spec(
                    #[trigger] items@[j],
                    kind@,
                    keys@,
                    terms.deep_view(),
                    drafts@,
                    order@,
                    desc,
                    config.base_url@,
                ),
        decreases names@.len() - i,
    {
        let name = &names[i];
        assert(names.deep_view()[i as int] == name@);
        let slug = slugify(name.as_str());
        proof {
            reveal_strlit("/");
        }
        let mut path = kind.clone();
        path.append("/");
        path.append(slug.as_str());
        path.append("/");
        assert(path@ =~= term_path(kind@, slug@));
        let permalink = config.make_permalink(path.as_str());
        let found = carrying_pages(terms, drafts, name);
        proof {
            lemma_carrying_increasing(terms.deep_view(), drafts@, name@, terms@.len() as nat);
        }
        let positions = sort_positions(&found, order, desc);
        let pages = keys_for(keys, &positions);
        let item = TaxonomyItem { name: name.clone(), slug, permalink, pages };
        assert(item_spec(item, kind@, keys@, terms.deep_view(), drafts@, order@, desc, config.base_url@)) by {
            assert(as_ints(positions@).to_multiset() == as_ints(found@).to_multiset());
        }
        items.push(item);
        i += 1;
    }
    assert(item_names(items@) =~= names.deep_view());
    Taxonomy { kind: kind.clone(), items }
}

/// What `str::to_lowercase` makes of a text.
pub uninterp spec fn lower_of(s: Seq<char>) -> Seq<char>;

/// Relies on `str::to_lowercase`, whose result depends on the characters
/// of its argument alone.
#[verifier::external_body]
fn lowercase(s: &str) -> (r: String)
    ensures
        r@ == lower_of(s@),
{
    s.to_lowercase()
}

/// The terms of each page, lower-cased.
pub open spec fn folded(terms: Seq<Seq<Seq<char>>>) -> Seq<Seq<Seq<char>>> {
    terms.map_values(|row: Seq<Seq<char>>| row.map_values(|t: Seq<char>| lower_of(t)))
}

/// Lower-cases every term, so that terms differing in case group together.
pub fn fold_terms(terms: &Vec<Vec<String>>) -> (r: Vec<Vec<String>>)
    ensures
        r@.len() == terms@.len(),
        r.deep_view() == folded(terms.deep_view()),
{
    let mut r: Vec<Vec<String>> = Vec::new();
    let mut p: usize = 0;
    while p < terms.len()
        invariant
            p <= terms@.len(),
            r@.len() == p,
            r.deep_view() == folded(terms.deep_view()).take(p as int),
        decreases terms@.len() - p,
    {
        let row = &terms[p];
        let mut out: Vec<String> = Vec::new();
        let mut j: usize = 0;
        while j < row.len()
            invariant
                j <= row@.len(),
                out@.len() == j,
                out.deep_view() == row.deep_view().map_values(|t: Seq<char>| lower_of(t)).take(j as int),
            decreases row@.len() - j,
        {
            let l = lowercase(row[j].as_str());
            let ghost lv = l@;
            let ghost before = out.deep_view();
            out.push(l);
            assert(out.deep_view() =~= before.push(lv));
            j += 1;
            assert(out.deep_view() =~= row.deep_view().map_values(|t: Seq<char>| lower_of(t)).take(j as int));
        }
        assert(out.deep_view() =~= row.deep_view().map_values(|t: Seq<char>| lower_of(t)));
        let ghost ov = out.deep_view();
        let ghost before = r.deep_view();
        r.push(out);
        assert(r.deep_view() =~= before.push(ov));
        assert(terms.deep_view()[p as int] == row.deep_view());
        p += 1;
        assert(r.deep_view() =~= folded(terms.deep_view()).take(p as int));
    }
    assert(folded(terms.deep_view()).take(terms@.len() as int) =~= folded(terms.deep_view()));
    r
}

/// How a taxonomy kind is set up.
pub struct TaxonomyConfig {
    /// The kind's name, such as `tags`.
    pub name: String,
    /// How many pages each pager of a term shows, if terms are paginated.
    pub paginate_by: Option<usize>,
    /// Whether terms that differ in case are distinct.
    pub case_sensitive: bool,
}

/// The terms as the taxonomy groups them.
pub open spec fn grouped_terms(terms: Seq<Seq<Seq<char>>>, case_sensitive: bool) -> Seq<Seq<Seq<char>>> {
    if case_sensitive {
        terms
    } else {
        folded(terms)
    }
}

impl Taxonomy {
    /// Groups pages by the terms they carry for the kind that `kind`
    /// describes; where it is not case-sensitive, terms are lower-cased
    /// first.
    pub fn build(
        kind: &TaxonomyConfig,
        keys: &Vec<DefaultKey>,
        terms: &Vec<Vec<String>>,
        drafts: &Vec<bool>,
        order: &Vec<u64>,
        desc: bool,
        config: &Config,
    ) -> (r: Taxonomy)
        requires
            keys@.len() == terms@.len(),
            terms@.len() == drafts@.len(),
            order@.len() == terms@.len(),
        ensures
            r.kind@ == kind.name@,
            names_spec(item_names(r.items@), grouped_terms(terms.deep_view(), kind.case_sensitive), drafts@),
            forall|i: int|
                0 <= i < r.items@.len() ==> item_spec(
                    #[trigger] r.items@[i],
                    kind.name@,
                    keys@,
                    grouped_terms(terms.deep_view(), kind.case_sensitive),
                    drafts@,
                    order@,
                    desc,
                    config.base_url@,
                ),
    {
        if kind.case_sensitive {
            build_taxonomy(&kind.name, keys, terms, drafts, order, desc, config)
        } else {
            let f = fold_terms(terms);
            build_taxonomy(&kind.name, keys, &f, drafts, order, desc, config)
        }
    }
}

} // verus!
