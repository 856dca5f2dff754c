use vstd::prelude::*;
use crate::graph::as_ints;
use crate::taxonomy::{slugified, slugify};

verus! {

/// The position of the first line break at or after `i`, or the length.
pub open spec fn line_end(s: Seq<char>, i: int) -> int
    decreases s.len() - i,
{
    if i < 0 || i >= s.len() {
        s.len() as int
    } else if s[i] == '\n' {
        i
    } else {
        line_end(s, i + 1)
    }
}

/// How many `#` stand in a row from position `i`.
pub open spec fn hash_run(s: Seq<char>, i: int) -> nat
    decreases s.len() - i,
{
    if i < 0 || i >= s.len() || s[i] != '#' {
        0
    } else {
        1 + hash_run(s, i + 1)
    }
}

/// Whether a heading line starts at `i`: one to six `#`, then a space.
pub open spec fn heading_at(s: Seq<char>, i: int) -> bool {
    let k = hash_run(s, i);
    1 <= k <= 6 && i + k < s.len() && s[i + k] == ' '
}

proof fn lemma_line_end(s: Seq<char>, i: int)
    requires
        0 <= i <= s.len(),
    ensures
        i <= line_end(s, i) <= s.len(),
        line_end(s, i) < s.len() ==> s[line_end(s, i)] == '\n',
    decreases s.len() - i,
{
    if i < s.len() && s[i] != '\n' {
        lemma_line_end(s, i + 1);
    }
}

proof fn lemma_hash_run(s: Seq<char>, i: int)
    requires
        0 <= i <= s.len(),
    ensures
        i + hash_run(s, i) <= s.len(),
        forall|k: int| i <= k < i + hash_run(s, i) ==> s[k] == '#',
        i + hash_run(s, i) < s.len() ==> s[i + hash_run(s, i)] != '#',
    decreases s.len() - i,
{
    if i < s.len() && s[i] == '#' {
        lemma_hash_run(s, i + 1);
    }
}

/// The headings of the lines from the one starting at `i` on: level and
/// title (the rest of the line after the space).
pub open spec fn headings_from(s: Seq<char>, i: int) -> Seq<(nat, Seq<char>)>
    decreases s.len() + 1 - i,
    via headings_from_decreases
{
    if i < 0 || i >= s.len() {
        seq![]
    } else {
        let e = line_end(s, i);
        let rest = headings_from(s, e + 1);
        if heading_at(s, i) {
            seq![(hash_run(s, i), s.subrange(i + hash_run(s, i) + 1, e))] + rest
        } else {
            rest
        }
    }
}

#[via_fn]
proof fn headings_from_decreases(s: Seq<char>, i: int) {
    if 0 <= i < s.len() {
        lemma_line_end(s, i);
    }
}

/// The nearest heading before position `j`, searching from `i` down, whose
/// level is smaller than that of `j`.
pub open spec fn parent_from(levels: Seq<nat>, j: int, i: int) -> Option<int>
    decreases i + 1,
{
    if i < 0 {
        None
    } else if levels[i] < levels[j] {
        Some(i)
    } else {
        parent_from(levels, j, i - 1)
    }
}

/// The heading that heading `j` nests under, if any.
pub open spec fn toc_parent(levels: Seq<nat>, j: int) -> Option<int> {
    parent_from(levels, j, j - 1)
}

/// The headings among the first `n` that nest directly under `p` (or stand
/// at the top, where `p` is `None`), in order.
pub open spec fn nested_under(levels: Seq<nat>, p: Option<int>, n: nat) -> Seq<int>
    decreases n,
{
    if n == 0 {
        seq![]
    } else {
        let prev = nested_under(levels, p, (n - 1) as nat);
        if toc_parent(levels, n - 1) == p {
            prev.push(n - 1)
        } else {
            prev
        }
    }
}

/// One heading of a document.
pub struct Heading {
    /// Its level, from one to six.
    pub level: usize,
    /// Its anchor: the slug of its title.
    pub id: String,
    /// Its text.
    pub title: String,
    /// The positions of the headings nested directly under it, in order.
    pub children: Vec<usize>,
}

/// The table of contents of a document: every heading in order, and the
/// positions of those at the top.
pub struct Toc {
    pub headings: Vec<Heading>,
    pub top: Vec<usize>,
}

/// The levels of the headings, in order.
pub open spec fn levels_of(h: Seq<Heading>) -> Seq<nat> {
    Seq::new(h.len(), |i: int| h[i].level as nat)
}

/// What the table of contents of a body `s` must be.
pub open spec fn toc_spec(t: Toc, s: Seq<char>) -> bool {
    let flat = headings_from(s, 0);
    let levels = levels_of(t.headings@);
    &&& t.headings@.len() == flat.len()
    &&& forall|i: int|
        0 <= i < flat.len() ==> {
            let h = #[trigger] t.headings@[i];
            &&& h.level as nat == flat[i].0
            &&& h.title@ == flat[i].1
            &&& h.id@ == slugified(flat[i].1)
            &&& as_ints(h.children@) == nested_under(levels, Some(i), flat.len())
        }
    &&& as_ints(t.top@) == nested_under(levels, None, flat.len())
}

/// The headings of `body`, flat, as level and title.
fn flat_headings(body: &str) -> (r: (Vec<usize>, Vec<String>))
    ensures
        r.0@.len() == r.1@.len(),
        r.0@.len() == headings_from(body@, 0).len(),
        forall|i: int|
            0 <= i < r.0@.len() ==> #[trigger] r.0@[i] as nat == headings_from(body@, 0)[i].0
                && r.1@[i]@ == headings_from(body@, 0)[i].1,
{
    let ghost s = body@;
    let n = body.unicode_len();
    let mut levels: Vec<usize> = Vec::new();
    let mut titles: Vec<String> = Vec::new();
    let ghost mut done: Seq<(nat, Seq<char>)> = seq![];
    let mut i: usize = 0;
    while i < n
        invariant
            s == body@,
            n == s.len(),
            i <= n,
            levels@.len() == done.len(),
            titles@.len() == done.len(),
            forall|m: int|
                0 <= m < done.len() ==> #[trigger] levels@[m] as nat == done[m].0 && titles@[m]@ == done[m].1,
            headings_from(s, 0) == done + headings_from(s, i as int),
        decreases n - i,
    {
        let mut e: usize = i;
        while e < n && body.get_char(e) != '\n'
            invariant
                i <= e <= n,
                n == s.len(),
                s == body@,
                line_end(s, i as int) == line_end(s, e as int),
                levels@.len() == done.len(),
                titles@.len() == done.len(),
                forall|m: int|
                    0 <= m < done.len() ==> #[trigger] levels@[m] as nat == done[m].0 && titles@[m]@ == done[m].1,
            decreases n - e,
        {
            e += 1;
        }
        let mut k: usize = i;
        while k < e && body.get_char(k) == '#'
            invariant
                i <= k <= e <= n,
                n == s.len(),
                s == body@,
                hash_run(s, i as int) == (k - i) + hash_run(s, k as int),
                levels@.len() == done.len(),
                titles@.len() == done.len(),
                forall|m: int|
                    0 <= m < done.len() ==> #[trigger] levels@[m] as nat == done[m].0 && titles@[m]@ == done[m].1,
            decreases e - k,
        {
            k += 1;
        }
        proof {
            lemma_line_end(s, i as int);
            lemma_hash_run(s, k as int);
            if k < e {
                assert(s[k as int] != '#');
            } else if k < n {
                assert(s[k as int] == '\n');
            }
            assert(hash_run(s, k as int) == 0);
        }
        let ghost rest = headings_from(s, e + 1);
        if k - i >= 1 && k - i <= 6 && k < e && body.get_char(k) == ' ' {
            let title = body.substring_char(k + 1, e);
            let t = String::from_str(title);
            let ghost tv = t@;
            levels.push(k - i);
            titles.push(t);
            proof {
                let item = ((k - i) as nat, s.subrange(k + 1, e as int));
                assert(headings_from(s, i as int) == seq![item] + rest);
                let old_done = done;
                done = done.push(item);
                assert(titles@[old_done.len() as int]@ == tv);
                assert forall|m: int|
                    0 <= m < done.len() implies #[trigger] levels@[m] as nat == done[m].0 && titles@[m]@ == done[m].1 by {
                    if m < old_done.len() {
                        assert(done[m] == old_done[m]);
                    }
                }
                assert(headings_from(s, 0) =~= done + rest);
            }
        } else {
            proof {
                assert(headings_from(s, i as int) == rest);
            }
        }
        assert(forall|m: int|
            0 <= m < done.len() ==> #[trigger] levels@[m] as nat == done[m].0 && titles@[m]@ == done[m].1);
        if e < n {
            i = e + 1;
        } else {
            i = n;
            proof {
                assert(headings_from(s, e + 1) == Seq::<(nat, Seq<char>)>::empty());
            }
        }
    }
    assert(done + headings_from(s, n as int) =~= done);
    (levels, titles)
}

/// A position as a mathematical integer, if any.
pub open spec fn opt_int(o: Option<usize>) -> Option<int> {
    match o {
        Some(x) => Some(x as int),
        None => None,
    }
}

/// The levels as mathematical integers.
pub open spec fn nat_levels(levels: Seq<usize>) -> Seq<nat> {
    Seq::new(levels.len(), |i: int| levels[i] as nat)
}

/// The heading that heading `j` nests under.
fn heading_parent(levels: &Vec<usize>, j: usize) -> (r: Option<usize>)
    requires
        j < levels@.len(),
    ensures
        opt_int(r) == toc_parent(nat_levels(levels@), j as int),
        r matches Some(p) ==> p < j,
{
    let ghost lv = nat_levels(levels@);
    let mut i: usize = j;
    while i > 0
        invariant
            i <= j < levels@.len(),
            lv == nat_levels(levels@),
            toc_parent(lv, j as int) == parent_from(lv, j as int, i - 1),
        decreases i,
    {
        if levels[i - 1] < levels[j] {
            return Some(i - 1);
        }
        i -= 1;
    }
    None
}

/// The positions, in order, of the headings whose parent is `p`.
fn nested(pars: &Vec<Option<usize>>, p: Option<usize>, lv: Ghost<Seq<nat>>) -> (r: Vec<usize>)
    requires
        pars@.len() == lv@.len(),
        forall|j: int| 0 <= j < pars@.len() ==> opt_int(#[trigger] pars@[j]) == toc_parent(lv@, j),
    ensures
        as_ints(r@) == nested_under(lv@, opt_int(p), pars@.len() as nat),
        forall|m: int| 0 <= m < r@.len() ==> #[trigger] r@[m] < pars@.len(),
{
    let mut r: Vec<usize> = Vec::new();
    let mut j: usize = 0;
    while j < pars.len()
        invariant
            j <= pars@.len(),
            pars@.len() == lv@.len(),
            forall|q: int| 0 <= q < pars@.len() ==> opt_int(#[trigger] pars@[q]) == toc_parent(lv@, q),
            as_ints(r@) == nested_under(lv@, opt_int(p), j as nat),
            forall|m: int| 0 <= m < r@.len() ==> #[trigger] r@[m] < j,
        decreases pars@.len() - j,
    {
        assert(opt_int(pars@[j as int]) == toc_parent(lv@, j as int));
        let same = match (pars[j], p) {
            (Some(a), Some(b)) => a == b,
            (None, None) => true,
            _ => false,
        };
        if same {
            r.push(j);
        }
        j += 1;
        assert(as_ints(r@) =~= nested_under(lv@, opt_int(p), j as nat));
    }
    r
}

/// The table of contents of `body`: its `#` heading lines, each with the
/// headings nested directly under it.
pub fn table_of_contents(body: &str) -> (r: Toc)
    ensures
        toc_spec(r, body@),
{
    let (levels, titles) = flat_headings(body);
    let ghost flat = headings_from(body@, 0);
    let ghost lv = nat_levels(levels@);
    let n = levels.len();
    let mut pars: Vec<Option<usize>> = Vec::new();
    let mut j: usize = 0;
    while j < n
        invariant
            n == levels@.len(),
            lv == nat_levels(levels@),
            j <= n,
            pars@.len() == j,
            forall|q: int| 0 <= q < j ==> opt_int(#[trigger] pars@[q]) == toc_parent(lv, q),
        decreases n - j,
    {
        pars.push(heading_parent(&levels, j));
        j += 1;
    }
    let mut headings: Vec<Heading> = Vec::new();
    let mut i: usize = 0;
    while i < n
        invariant
            n == levels@.len(),
            n == titles@.len(),
            n == pars@.len(),
            n == flat.len(),
            flat == headings_from(body@, 0),
            lv == nat_levels(levels@),
            forall|m: int| 0 <= m < n ==> #[trigger] levels@[m] as nat == flat[m].0 && titles@[m]@ == flat[m].1,
            forall|q: int| 0 <= q < n ==> opt_int(#[trigger] pars@[q]) == toc_parent(lv, q),
            i <= n,
            headings@.len() == i,
            forall|m: int|
                0 <= m < i ==> {
                    let h = #[trigger] headings@[m];
                    &&& h.level == levels@[m]
                    &&& h.title@ == flat[m].1
                    &&& h.id@ == slugified(flat[m].1)
                    &&& as_ints(h.children@) == nested_under(lv, Some(m), n as nat)
                },
        decreases n - i,
    {
        let title = titles[i].clone();
        let id = slugify(title.as_str());
        let children = nested(&pars, Some(i), Ghost(lv));
        headings.push(Heading { level: levels[i], id, title, children });
        i += 1;
    }
    let top = nested(&pars, None, Ghost(lv));
    assert(levels_of(headings@) =~= lv);
    Toc { headings, top }
}

} // verus!
