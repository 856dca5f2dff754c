use vstd::prelude::*;
use crate::graph::as_ints;

verus! {

broadcast use vstd::seq_lib::group_to_multiset_ensures;

/// Whether `a` may stand before `b`: lighter first, or heavier first where
/// `desc`.
pub open spec fn before_eq(a: u64, b: u64, desc: bool) -> bool {
    if desc {
        a >= b
    } else {
        a <= b
    }
}

/// The positions `s` are in order of their values.
pub open spec fn in_order(vals: Seq<u64>, s: Seq<int>, desc: bool) -> bool {
    forall|a: int, b: int| 0 <= a < b < s.len() ==> before_eq(#[trigger] vals[s[a]], #[trigger] vals[s[b]], desc)
}

/// The positions `s` grow strictly.
pub open spec fn increasing(s: Seq<int>) -> bool {
    forall|a: int, b: int| 0 <= a < b < s.len() ==> #[trigger] s[a] < #[trigger] s[b]
}

/// Of two positions in `s` with equal values, the smaller comes first.
pub open spec fn ties_in_order(vals: Seq<u64>, s: Seq<int>) -> bool {
    forall|a: int, b: int|
        0 <= a < b < s.len() && #[trigger] vals[s[a]] == #[trigger] vals[s[b]] ==> s[a] < s[b]
}

/// Orders the positions `idx` by their values in `vals`, lightest first or,
/// where `desc`, heaviest first; positions of equal value keep their order.
pub fn sort_positions(idx: &Vec<usize>, vals: &Vec<u64>, desc: bool) -> (r: Vec<usize>)
    requires
        forall|j: int| 0 <= j < idx@.len() ==> #[trigger] idx@[j] < vals@.len(),
    ensures
        as_ints(r@).to_multiset() == as_ints(idx@).to_multiset(),
        in_order(vals@, as_ints(r@), desc),
        increasing(as_ints(idx@)) ==> ties_in_order(vals@, as_ints(r@)),
        forall|j: int| 0 <= j < r@.len() ==> #[trigger] r@[j] < vals@.len(),
{
    let mut r: Vec<usize> = Vec::new();
    let mut i: usize = 0;
    while i < idx.len()
        invariant
            i <= idx@.len(),
            forall|j: int| 0 <= j < idx@.len() ==> #[trigger] idx@[j] < vals@.len(),
            forall|j: int| 0 <= j < r@.len() ==> #[trigger] r@[j] < vals@.len(),
            as_ints(r@).to_multiset() == as_ints(idx@.take(i as int)).to_multiset(),
            in_order(vals@, as_ints(r@), desc),
            increasing(as_ints(idx@)) ==> ties_in_order(vals@, as_ints(r@)),
        decreases idx@.len() - i,
    {
        let x = idx[i];
        let kx = vals[x];
        proof {
            if increasing(as_ints(idx@)) {
                assert forall|m: int| 0 <= m < r@.len() implies #[trigger] r@[m] < x by {
                    let v = as_ints(r@)[m];
                    assert(as_ints(r@).to_multiset().count(v) > 0);
                    assert(as_ints(idx@.take(i as int)).contains(v));
                    let q = choose|q: int| 0 <= q < i && as_ints(idx@.take(i as int))[q] == v;
                    assert(as_ints(idx@)[q] < as_ints(idx@)[i as int]);
                }
            }
        }
        let mut pos: usize = 0;
        while pos < r.len() && before_eq_exec(vals[r[pos]], kx, desc)
            invariant
                pos <= r@.len(),
                forall|j: int| 0 <= j < r@.len() ==> #[trigger] r@[j] < vals@.len(),
                forall|j: int| 0 <= j < pos ==> before_eq(vals@[#[trigger] r@[j] as int], kx, desc),
            decreases r@.len() - pos,
        {
            pos += 1;
        }
        let ghost old_r = as_ints(r@);
        proof {
            if pos < r@.len() {
                assert(!before_eq(vals@[r@[pos as int] as int], kx, desc));
            }
        }
        r.insert(pos, x);
        proof {
            assert(as_ints(r@) =~= old_r.insert(pos as int, x as int));
            vstd::seq_lib::to_multiset_insert(old_r, pos as int, x as int);
            assert(idx@.take(i + 1) =~= idx@.take(i as int).push(x));
            assert(as_ints(idx@.take(i + 1)) =~= as_ints(idx@.take(i as int)).push(x as int));
            let s = as_ints(r@);
            assert forall|a: int, b: int| 0 <= a < b < s.len() implies before_eq(#[trigger] vals@[s[a]], #[trigger] vals@[s[b]], desc) by {
                if a < pos && b < pos {
                    assert(s[a] == old_r[a] && s[b] == old_r[b]);
                } else if a < pos && b == pos {
                    assert(s[a] == old_r[a]);
                } else if a < pos {
                    assert(s[a] == old_r[a] && s[b] == old_r[b - 1]);
                    assert(before_eq(vals@[old_r[a]], vals@[old_r[pos as int]], desc));
                } else if a == pos {
                    assert(s[b] == old_r[b - 1]);
                    assert(before_eq(vals@[old_r[pos as int]], vals@[old_r[b - 1]], desc) || pos == b - 1);
                } else {
                    assert(s[a] == old_r[a - 1] && s[b] == old_r[b - 1]);
                }
            }
            if increasing(as_ints(idx@)) {
                assert forall|a: int, b: int|
                    0 <= a < b < s.len() && #[trigger] vals@[s[a]] == #[trigger] vals@[s[b]] implies s[a] < s[b] by {
                    if a < pos && b < pos {
                        assert(s[a] == old_r[a] && s[b] == old_r[b]);
                    } else if a < pos && b == pos {
                        assert(s[a] == old_r[a]);
                        assert(old_r[a] == r@[a] as int);
                    } else if a < pos {
                        assert(s[a] == old_r[a] && s[b] == old_r[b - 1]);
                    } else if a == pos {
                        assert(s[b] == old_r[b - 1]);
                        assert(!before_eq(vals@[old_r[pos as int]], kx, desc));
                        if pos < b - 1 {
                            assert(before_eq(vals@[old_r[pos as int]], vals@[old_r[b - 1]], desc));
                        }
                    } else {
                        assert(s[a] == old_r[a - 1] && s[b] == old_r[b - 1]);
                    }
                }
            }
        }
        i += 1;
    }
    assert(idx@.take(idx@.len() as int) =~= idx@);
    r
}

fn before_eq_exec(a: u64, b: u64, desc: bool) -> (r: bool)
    ensures
        r == before_eq(a, b, desc),
{
    if desc {
        a >= b
    } else {
        a <= b
    }
}

/// Whether `a` comes no later than `b` in lexical order of code points.
pub open spec fn lex_le(a: Seq<char>, b: Seq<char>) -> bool
    decreases a.len(),
{
    if a.len() == 0 {
        true
    } else if b.len() == 0 {
        false
    } else if a[0] as u32 != b[0] as u32 {
        (a[0] as u32) < (b[0] as u32)
    } else {
        lex_le(a.drop_first(), b.drop_first())
    }
}

/// Any two texts are ordered one way or the other.
pub proof fn lemma_lex_total(a: Seq<char>, b: Seq<char>)
    ensures
        lex_le(a, b) || lex_le(b, a),
    decreases a.len(),
{
    if a.len() > 0 && b.len() > 0 && a[0] as u32 == b[0] as u32 {
        lemma_lex_total(a.drop_first(), b.drop_first());
    }
}

/// Lexical order is transitive.
pub proof fn lemma_lex_trans(a: Seq<char>, b: Seq<char>, c: Seq<char>)
    requires
        lex_le(a, b),
        lex_le(b, c),
    ensures
        lex_le(a, c),
    decreases a.len(),
{
    if a.len() > 0 && b.len() > 0 && c.len() > 0 && a[0] as u32 == b[0] as u32 && b[0] as u32
        == c[0] as u32 {
        lemma_lex_trans(a.drop_first(), b.drop_first(), c.drop_first());
    }
}

/// Compares two texts in lexical order of code points.
pub fn lex_le_exec(a: &str, b: &str) -> (r: bool)
    ensures
        r == lex_le(a@, b@),
{
    let na = a.unicode_len();
    let nb = b.unicode_len();
    let mut i: usize = 0;
    assert(a@.skip(0) =~= a@);
    assert(b@.skip(0) =~= b@);
    while i < na && i < nb && a.get_char(i) as u32 == b.get_char(i) as u32
        invariant
            na == a@.len(),
            nb == b@.len(),
            i <= na,
            i <= nb,
            lex_le(a@, b@) == lex_le(a@.skip(i as int), b@.skip(i as int)),
        decreases na - i,
    {
        assert(a@.skip(i as int).drop_first() =~= a@.skip(i + 1));
        assert(b@.skip(i as int).drop_first() =~= b@.skip(i + 1));
        i += 1;
    }
    if i == na {
        true
    } else if i == nb {
        false
    } else {
        (a.get_char(i) as u32) < (b.get_char(i) as u32)
    }
}

/// Whether position `a` may stand before position `b`: lighter first, and
/// at equal weight in lexical order of their texts.
pub open spec fn weighed_le(w: Seq<u64>, texts: Seq<Seq<char>>, a: int, b: int) -> bool {
    w[a] < w[b] || (w[a] == w[b] && lex_le(texts[a], texts[b]))
}

/// The positions `s` are in order of weight, then of text.
pub open spec fn in_weight_order(w: Seq<u64>, texts: Seq<Seq<char>>, s: Seq<int>) -> bool {
    forall|a: int, b: int| 0 <= a < b < s.len() ==> weighed_le(w, texts, #[trigger] s[a], #[trigger] s[b])
}

proof fn lemma_weighed_total(w: Seq<u64>, texts: Seq<Seq<char>>, a: int, b: int)
    ensures
        weighed_le(w, texts, a, b) || weighed_le(w, texts, b, a),
{
    lemma_lex_total(texts[a], texts[b]);
}

proof fn lemma_weighed_trans(w: Seq<u64>, texts: Seq<Seq<char>>, a: int, b: int, c: int)
    requires
        weighed_le(w, texts, a, b),
        weighed_le(w, texts, b, c),
    ensures
        weighed_le(w, texts, a, c),
{
    if w[a] == w[b] && w[b] == w[c] {
        lemma_lex_trans(texts[a], texts[b], texts[c]);
    }
}

fn weighed_le_exec(w: &Vec<u64>, texts: &Vec<String>, a: usize, b: usize) -> (r: bool)
    requires
        a < w@.len(),
        b < w@.len(),
        w@.len() == texts@.len(),
    ensures
        r == weighed_le(w@, texts.deep_view(), a as int, b as int),
{
    assert(texts.deep_view()[a as int] == texts@[a as int]@);
    assert(texts.deep_view()[b as int] == texts@[b as int]@);
    w[a] < w[b] || (w[a] == w[b] && lex_le_exec(texts[a].as_str(), texts[b].as_str()))
}

/// Orders the positions `idx` by their weights, lightest first, and at
/// equal weight by their texts in lexical order.
pub fn sort_by_weight(idx: &Vec<usize>, w: &Vec<u64>, texts: &Vec<String>) -> (r: Vec<usize>)
    requires
        w@.len() == texts@.len(),
        forall|j: int| 0 <= j < idx@.len() ==> #[trigger] idx@[j] < texts@.len(),
    ensures
        as_ints(r@).to_multiset() == as_ints(idx@).to_multiset(),
        in_weight_order(w@, texts.deep_view(), as_ints(r@)),
        forall|j: int| 0 <= j < r@.len() ==> #[trigger] r@[j] < texts@.len(),
{
    let ghost tv = texts.deep_view();
    let mut r: Vec<usize> = Vec::new();
    let mut i: usize = 0;
    while i < idx.len()
        invariant
            tv == texts.deep_view(),
            i <= idx@.len(),
            forall|j: int| 0 <= j < idx@.len() ==> #[trigger] idx@[j] < texts@.len(),
            forall|j: int| 0 <= j < r@.len() ==> #[trigger] r@[j] < texts@.len(),
            as_ints(r@).to_multiset() == as_ints(idx@.take(i as int)).to_multiset(),
            in_weight_order(w@, tv, as_ints(r@)),
            w@.len() == texts@.len(),
        decreases idx@.len() - i,
    {
        let x = idx[i];
        assert(tv[x as int] == texts@[x as int]@);
        let mut pos: usize = 0;
        while pos < r.len() && weighed_le_exec(w, texts, r[pos], x)
            invariant
                tv == texts.deep_view(),
                x < texts@.len(),
                pos <= r@.len(),
                forall|j: int| 0 <= j < r@.len() ==> #[trigger] r@[j] < texts@.len(),
                w@.len() == texts@.len(),
                forall|j: int| 0 <= j < pos ==> weighed_le(w@, tv, #[trigger] r@[j] as int, x as int),
            decreases r@.len() - pos,
        {
            pos += 1;
        }
        let ghost old_r = as_ints(r@);
        proof {
            if pos < r@.len() {
                lemma_weighed_total(w@, tv, old_r[pos as int], x as int);
            }
        }
        r.insert(pos, x);
        proof {
            assert(as_ints(r@) =~= old_r.insert(pos as int, x as int));
            vstd::seq_lib::to_multiset_insert(old_r, pos as int, x as int);
            assert(idx@.take(i + 1) =~= idx@.take(i as int).push(x));
            assert(as_ints(idx@.take(i + 1)) =~= as_ints(idx@.take(i as int)).push(x as int));
            let s = as_ints(r@);
            assert forall|a: int, b: int| 0 <= a < b < s.len() implies weighed_le(w@, tv, #[trigger] s[a], #[trigger] s[b]) by {
                if a < pos && b < pos {
                    assert(s[a] == old_r[a] && s[b] == old_r[b]);
                } else if a < pos && b == pos {
                    assert(s[a] == old_r[a]);
                } else if a < pos {
                    assert(s[a] == old_r[a] && s[b] == old_r[b - 1]);
                } else if a == pos {
                    assert(s[b] == old_r[b - 1]);
                    if pos < b - 1 {
                        assert(weighed_le(w@, tv, old_r[pos as int], old_r[b - 1]));
                        lemma_weighed_trans(w@, tv, x as int, old_r[pos as int], old_r[b - 1]);
                    }
                } else {
                    assert(s[a] == old_r[a - 1] && s[b] == old_r[b - 1]);
                }
            }
        }
        i += 1;
    }
    assert(idx@.take(idx@.len() as int) =~= idx@);
    r
}

} // verus!
