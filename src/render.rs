use vstd::prelude::*;
use crate::section::InsertAnchor;
use crate::library::same_text;

verus! {

/// The permalink of every document, by root-relative file path.
pub struct Permalinks {
    /// The documents' paths.
    pub paths: Vec<String>,
    /// Their permalinks, at the same positions.
    pub links: Vec<String>,
}

/// The permalink that the table gives `path`: that of its first entry.
pub open spec fn lookup_from(paths: Seq<Seq<char>>, links: Seq<Seq<char>>, path: Seq<char>, i: int) -> Option<Seq<char>>
    decreases paths.len() - i,
{
    if i < 0 || i >= paths.len() || i >= links.len() {
        None
    } else if paths[i] == path {
        Some(links[i])
    } else {
        lookup_from(paths, links, path, i + 1)
    }
}

impl Permalinks {
    /// An empty table.
    pub fn new() -> (r: Permalinks)
        ensures
            r.paths@.len() == 0,
            r.links@.len() == 0,
    {
        Permalinks { paths: Vec::new(), links: Vec::new() }
    }

    /// The permalink of `path`, if the table has one.
    pub open spec fn lookup_spec(&self, path: Seq<char>) -> Option<Seq<char>> {
        lookup_from(self.paths.deep_view(), self.links.deep_view(), path, 0)
    }

    /// Records that `path` has permalink `link`; a path already present
    /// keeps its first permalink.
    pub fn insert(&mut self, path: String, link: String)
        requires
            old(self).paths@.len() == old(self).links@.len(),
        ensures
            final(self).paths@.len() == final(self).links@.len(),
            final(self).lookup_spec(path@) == (match old(self).lookup_spec(path@) {
                Some(l) => Some(l),
                None => Some(link@),
            }),
            forall|q: Seq<char>| q != path@ ==> #[trigger] final(self).lookup_spec(q) == old(self).lookup_spec(q),
    {
        let ghost op = self.paths.deep_view();
        let ghost ol = self.links.deep_view();
        let ghost pv = path@;
        let ghost lv = link@;
        self.paths.push(path);
        self.links.push(link);
        proof {
            assert(self.paths.deep_view() =~= op.push(pv));
            assert(self.links.deep_view() =~= ol.push(lv));
            assert forall|q: Seq<char>| #[trigger] lookup_from(op.push(pv), ol.push(lv), q, 0) == match lookup_from(op, ol, q, 0) {
                Some(l) => Some(l),
                None => if q == pv { Some(lv) } else { None },
            } by {
                lemma_lookup_push(op, ol, pv, lv, q, 0);
            }
        }
    }

    /// The permalink of `path`, if the table has one.
    pub fn lookup(&self, path: &str) -> (r: Option<&String>)
        requires
            self.paths@.len() == self.links@.len(),
        ensures
            r matches Some(l) ==> self.lookup_spec(path@) == Some(l@),
            r is None ==> self.lookup_spec(path@) is None,
    {
        let mut i: usize = 0;
        while i < self.paths.len()
            invariant
                self.paths@.len() == self.links@.len(),
                i <= self.paths@.len(),
                self.lookup_spec(path@) == lookup_from(self.paths.deep_view(), self.links.deep_view(), path@, i as int),
            decreases self.paths@.len() - i,
        {
            assert(self.paths.deep_view()[i as int] == self.paths@[i as int]@);
            assert(self.links.deep_view()[i as int] == self.links@[i as int]@);
            if same_text(self.paths[i].as_str(), path) {
                return Some(&self.links[i]);
            }
            i += 1;
        }
        None
    }
}

proof fn lemma_lookup_push(
    paths: Seq<Seq<char>>,
    links: Seq<Seq<char>>,
    p: Seq<char>,
    l: Seq<char>,
    q: Seq<char>,
    i: int,
)
    requires
        paths.len() == links.len(),
        0 <= i <= paths.len(),
    ensures
        lookup_from(paths.push(p), links.push(l), q, i) == match lookup_from(paths, links, q, i) {
            Some(x) => Some(x),
            None => if q == p { Some(l) } else { None },
        },
    decreases paths.len() - i,
{
    if i < paths.len() {
        assert(paths.push(p)[i] == paths[i]);
        assert(links.push(l)[i] == links[i]);
        lemma_lookup_push(paths, links, p, l, q, i + 1);
    } else {
        assert(paths.push(p)[i] == p);
        assert(links.push(l)[i] == l);
        assert(lookup_from(paths.push(p), links.push(l), q, i + 1) is None);
        assert(lookup_from(paths, links, q, i) is None);
    }
}

/// Why an internal link could not be resolved.
#[derive(Debug, PartialEq, Eq)]
pub enum LinkError {
    /// No document has the path that the link names.
    Broken {
        /// The file of the document that holds the link.
        source: String,
        /// The path the link names.
        target: String,
    },
}

/// Whether `link` names a document by its root-relative path (`@/...`).
pub open spec fn is_internal(link: Seq<char>) -> bool {
    link.len() >= 2 && link[0] == '@' && link[1] == '/'
}

/// The position of the first `#` in `s`, if any.
pub open spec fn hash_at(s: Seq<char>, i: int) -> Option<int>
    decreases s.len() - i,
{
    if i < 0 || i >= s.len() {
        None
    } else if s[i] == '#' {
        Some(i)
    } else {
        hash_at(s, i + 1)
    }
}

/// The document path that an internal link names: what follows `@/`, up
/// to any `#`.
pub open spec fn link_path(link: Seq<char>) -> Seq<char> {
    let t = link.skip(2);
    match hash_at(t, 0) {
        Some(h) => t.take(h),
        None => t,
    }
}

/// The anchor of an internal link: from its first `#` on, or nothing.
pub open spec fn link_anchor(link: Seq<char>) -> Seq<char> {
    let t = link.skip(2);
    match hash_at(t, 0) {
        Some(h) => t.skip(h),
        None => seq![],
    }
}

/// What a link becomes: an internal one turns into its target's
/// permalink, its anchor kept; any other stays as written.
pub open spec fn resolved(link: Seq<char>, table: Permalinks) -> Option<Seq<char>> {
    if !is_internal(link) {
        Some(link)
    } else {
        match table.lookup_spec(link_path(link)) {
            Some(p) => Some(p + link_anchor(link)),
            None => None,
        }
    }
}

/// Resolves a link: `@/posts/a.md#part` becomes the permalink of
/// `posts/a.md` followed by `#part`. It fails where no document has that
/// path; a link that does not start with `@/` comes back unchanged.
pub fn resolve_internal_link(link: &str, source: &str, permalinks: &Permalinks) -> (r: Result<
    String,
    LinkError,
>)
    requires
        permalinks.paths@.len() == permalinks.links@.len(),
    ensures
        r matches Ok(s) ==> resolved(link@, *permalinks) == Some(s@),
        r matches Err(LinkError::Broken { source: src, target }) ==> resolved(link@, *permalinks) is None
            && src@ == source@
            && target@ == link_path(link@),
        r is Err <==> resolved(link@, *permalinks) is None,
{
    let n = link.unicode_len();
    if n < 2 || link.get_char(0) != '@' || link.get_char(1) != '/' {
        return Ok(String::from_str(link));
    }
    let ghost t = link@.skip(2);
    let mut h: usize = 2;
    while h < n && link.get_char(h) != '#'
        invariant
            2 <= h <= n == link@.len(),
            t == link@.skip(2),
            hash_at(t, 0) == hash_at(t, h - 2),
        decreases n - h,
    {
        h += 1;
    }
    let path = link.substring_char(2, h);
    let anchor = link.substring_char(h, n);
    if h < n {
        assert(hash_at(t, 0) == Some(h - 2));
        assert(path@ =~= t.take(h - 2));
        assert(anchor@ =~= t.skip(h - 2));
    } else {
        assert(hash_at(t, 0) is None);
        assert(path@ =~= t);
        assert(anchor@ =~= seq![]);
    }
    match permalinks.lookup(path) {
        Some(p) => {
            let mut s = p.clone();
            s.append(anchor);
            Ok(s)
        },
        None => Err(LinkError::Broken { source: String::from_str(source), target: String::from_str(path) }),
    }
}

/// What rendering a document's body needs to know.
pub struct RenderContext {
    /// The permalink of the document being rendered.
    pub current_page_permalink: String,
    /// The permalink of every document.
    pub permalinks: Permalinks,
    /// Where heading anchors go.
    pub insert_anchor: InsertAnchor,
    /// The marker that ends the summary.
    pub continue_reading_text: String,
}

impl RenderContext {
    pub fn new(
        current_page_permalink: String,
        permalinks: Permalinks,
        insert_anchor: InsertAnchor,
        continue_reading_text: String,
    ) -> (r: RenderContext)
        ensures
            r.current_page_permalink == current_page_permalink,
            r.permalinks == permalinks,
            r.insert_anchor == insert_anchor,
            r.continue_reading_text == continue_reading_text,
    {
        RenderContext { current_page_permalink, permalinks, insert_anchor, continue_reading_text }
    }
}

proof fn lemma_no_hash(s: Seq<char>, i: int)
    requires
        0 <= i,
        !s.contains('#'),
    ensures
        hash_at(s, i) is None,
    decreases s.len() - i,
{
    if i < s.len() {
        assert(s[i] != '#');
        lemma_no_hash(s, i + 1);
    }
}

/// A link written as `@/` and the root-relative path of a document that the
/// table knows resolves to exactly that document's permalink.
pub proof fn lemma_link_round_trip(table: Permalinks, path: Seq<char>)
    requires
        !path.contains('#'),
        table.lookup_spec(path) is Some,
    ensures
        resolved(seq!['@', '/'] + path, table) == table.lookup_spec(path),
{
    let link = seq!['@', '/'] + path;
    assert(link.skip(2) =~= path);
    lemma_no_hash(path, 0);
    assert(link_anchor(link) =~= seq![]);
    assert(table.lookup_spec(path).unwrap() + seq![] =~= table.lookup_spec(path).unwrap());
}

/// The characters that end a link written in a body.
pub open spec fn is_stop(c: char) -> bool {
    c == ')' || c == ' ' || c == '\n' || c == '\t' || c == '\r'
}

/// The position of the first character at or after `i` that ends a link,
/// or the length of `s`.
pub open spec fn stop_at(s: Seq<char>, i: int) -> int
    decreases s.len() - i,
{
    if i < 0 || i >= s.len() {
        s.len() as int
    } else if is_stop(s[i]) {
        i
    } else {
        stop_at(s, i + 1)
    }
}

/// Whether an internal link (`@/`) starts at position `i` of `s`.
pub open spec fn starts_link(s: Seq<char>, i: int) -> bool {
    0 <= i && i + 1 < s.len() && s[i] == '@' && s[i + 1] == '/'
}

proof fn lemma_stop_at(s: Seq<char>, j: int)
    requires
        0 <= j <= s.len(),
    ensures
        j <= stop_at(s, j) <= s.len(),
    decreases s.len() - j,
{
    if j < s.len() && !is_stop(s[j]) {
        lemma_stop_at(s, j + 1);
    }
}

/// The body from position `i` on with every internal link replaced by
/// what it resolves to; nothing where one of them does not resolve.
pub open spec fn rendered_from(s: Seq<char>, i: int, table: Permalinks) -> Option<Seq<char>>
    decreases s.len() - i,
    via rendered_from_decreases
{
    if i < 0 || i >= s.len() {
        Some(seq![])
    } else if starts_link(s, i) {
        let e = stop_at(s, i + 2);
        match resolved(s.subrange(i, e), table) {
            None => None,
            Some(a) => match rendered_from(s, e, table) {
                None => None,
                Some(b) => Some(a + b),
            },
        }
    } else {
        match rendered_from(s, i + 1, table) {
            None => None,
            Some(b) => Some(seq![s[i]] + b),
        }
    }
}

#[via_fn]
proof fn rendered_from_decreases(s: Seq<char>, i: int, table: Permalinks) {
    if 0 <= i < s.len() && starts_link(s, i) {
        lemma_stop_at(s, i + 2);
    }
}

/// The body with every internal link resolved.
pub open spec fn rendered(s: Seq<char>, table: Permalinks) -> Option<Seq<char>> {
    rendered_from(s, 0, table)
}

/// Replaces every internal link of `body` (`@/` up to a `)` or white
/// space) with the permalink it names. It fails on the first link whose
/// target the table lacks.
pub fn render_links(body: &str, source: &str, permalinks: &Permalinks) -> (r: Result<String, LinkError>)
    requires
        permalinks.paths@.len() == permalinks.links@.len(),
    ensures
        r is Ok <==> rendered(body@, *permalinks) is Some,
        r matches Ok(c) ==> rendered(body@, *permalinks) == Some(c@),
        r matches Err(LinkError::Broken { source: src, target }) ==> src@ == source@ && exists|i: int|
            starts_link(body@, i) && target@ == link_path(body@.subrange(i, stop_at(body@, i + 2)))
                && permalinks.lookup_spec(target@) is None,
{
    let n = body.unicode_len();
    let ghost s = body@;
    let mut out = String::new();
    let mut i: usize = 0;
    while i < n
        invariant
            n == s.len(),
            s == body@,
            i <= n,
            permalinks.paths@.len() == permalinks.links@.len(),
            rendered(s, *permalinks) == match rendered_from(s, i as int, *permalinks) {
                Some(b) => Some(out@ + b),
                None => None,
            },
        decreases n - i,
    {
        if i + 1 < n && body.get_char(i) == '@' && body.get_char(i + 1) == '/' {
            let mut e: usize = i + 2;
            while e < n && !is_stop_exec(body.get_char(e))
                invariant
                    i + 2 <= e <= n,
                    n == s.len(),
                    s == body@,
                    stop_at(s, i + 2) == stop_at(s, e as int),
                decreases n - e,
            {
                e += 1;
            }
            let token = body.substring_char(i, e);
            match resolve_internal_link(token, source, permalinks) {
                Ok(link) => {
                    let ghost before = out@;
                    out.append(link.as_str());
                    assert(out@ =~= before + link@);
                    assert(rendered(s, *permalinks) == match rendered_from(s, e as int, *permalinks) {
                        Some(b) => Some(out@ + b),
                        None => None,
                    }) by {
                        match rendered_from(s, e as int, *permalinks) {
                            Some(b) => {
                                assert(before + (link@ + b) =~= out@ + b);
                            },
                            None => {},
                        }
                    }
                    i = e;
                },
                Err(err) => {
                    return Err(err);
                },
            }
        } else {
            let c = body.substring_char(i, i + 1);
            let ghost before = out@;
            out.append(c);
            assert(c@ =~= seq![s[i as int]]);
            assert(rendered(s, *permalinks) == match rendered_from(s, i + 1, *permalinks) {
                Some(b) => Some(out@ + b),
                None => None,
            }) by {
                match rendered_from(s, i + 1, *permalinks) {
                    Some(b) => {
                        assert(before + (seq![s[i as int]] + b) =~= out@ + b);
                    },
                    None => {},
                }
            }
            i += 1;
        }
    }
    assert(out@ + seq![] =~= out@);
    Ok(out)
}

fn is_stop_exec(c: char) -> (r: bool)
    ensures
        r == is_stop(c),
{
    c == ')' || c == ' ' || c == '\n' || c == '\t' || c == '\r'
}

proof fn lemma_no_stop(s: Seq<char>, j: int)
    requires
        0 <= j <= s.len(),
        forall|k: int| j <= k < s.len() ==> !is_stop(#[trigger] s[k]),
    ensures
        stop_at(s, j) == s.len(),
    decreases s.len() - j,
{
    if j < s.len() {
        lemma_no_stop(s, j + 1);
    }
}

/// A body that is just a link to a document the table knows, by its
/// root-relative path, renders as exactly that document's permalink.
pub proof fn lemma_render_round_trip(table: Permalinks, path: Seq<char>)
    requires
        !path.contains('#'),
        forall|k: int| 0 <= k < path.len() ==> !is_stop(#[trigger] path[k]),
        table.lookup_spec(path) is Some,
    ensures
        rendered(seq!['@', '/'] + path, table) == table.lookup_spec(path),
{
    let body = seq!['@', '/'] + path;
    assert forall|k: int| 2 <= k < body.len() implies !is_stop(#[trigger] body[k]) by {
        assert(body[k] == path[k - 2]);
    }
    lemma_no_stop(body, 2);
    assert(body.subrange(0, body.len() as int) =~= body);
    lemma_link_round_trip(table, path);
    assert(rendered_from(body, body.len() as int, table) == Some(Seq::<char>::empty()));
    assert(table.lookup_spec(path).unwrap() + Seq::<char>::empty() =~= table.lookup_spec(path).unwrap());
}

/// Whether `m` occurs in `s` at position `i`.
pub open spec fn marker_at(s: Seq<char>, m: Seq<char>, i: int) -> bool {
    0 <= i && i + m.len() <= s.len() && s.subrange(i, i + m.len()) == m
}

/// The first position at or after `i` where `m` occurs in `s`.
pub open spec fn first_marker(s: Seq<char>, m: Seq<char>, i: int) -> Option<int>
    decreases s.len() + 1 - i,
{
    if i < 0 || i + m.len() > s.len() {
        None
    } else if marker_at(s, m, i) {
        Some(i)
    } else {
        first_marker(s, m, i + 1)
    }
}

/// Where the summary of `body` ends: the first place the continue-reading
/// `marker` occurs, by character position, if it occurs at all.
pub fn summary_end(body: &str, marker: &str) -> (r: Option<usize>)
    ensures
        r matches Some(i) ==> first_marker(body@, marker@, 0) == Some(i as int),
        r is None ==> first_marker(body@, marker@, 0) is None,
{
    let n = body.unicode_len();
    let m = marker.unicode_len();
    if m > n {
        return None;
    }
    let last = n - m;
    let mut i: usize = 0;
    while i <= last
        invariant
            n == body@.len(),
            m == marker@.len(),
            m <= n,
            last == n - m,
            i <= last + 1,
            first_marker(body@, marker@, 0) == first_marker(body@, marker@, i as int),
        decreases last + 1 - i,
    {
        let part = body.substring_char(i, i + m);
        if same_text(part, marker) {
            return Some(i);
        }
        if i == last {
            assert(first_marker(body@, marker@, i + 1) is None);
            return None;
        }
        i += 1;
    }
    None
}

/// The body from position `i` on with every internal link that resolves
/// replaced, and every other left as written.
pub open spec fn lenient_from(s: Seq<char>, i: int, table: Permalinks) -> Seq<char>
    decreases s.len() - i,
    via lenient_from_decreases
{
    if i < 0 || i >= s.len() {
        seq![]
    } else if starts_link(s, i) {
        let e = stop_at(s, i + 2);
        let tok = s.subrange(i, e);
        match resolved(tok, table) {
            Some(a) => a + lenient_from(s, e, table),
            None => tok + lenient_from(s, e, table),
        }
    } else {
        seq![s[i]] + lenient_from(s, i + 1, table)
    }
}

#[via_fn]
proof fn lenient_from_decreases(s: Seq<char>, i: int, table: Permalinks) {
    if 0 <= i < s.len() && starts_link(s, i) {
        lemma_stop_at(s, i + 2);
    }
}

/// The paths named by the internal links from position `i` on that the
/// table lacks, in order.
pub open spec fn broken_from(s: Seq<char>, i: int, table: Permalinks) -> Seq<Seq<char>>
    decreases s.len() - i,
    via broken_from_decreases
{
    if i < 0 || i >= s.len() {
        seq![]
    } else if starts_link(s, i) {
        let e = stop_at(s, i + 2);
        let tok = s.subrange(i, e);
        match resolved(tok, table) {
            Some(_) => broken_from(s, e, table),
            None => seq![link_path(tok)] + broken_from(s, e, table),
        }
    } else {
        broken_from(s, i + 1, table)
    }
}

#[via_fn]
proof fn broken_from_decreases(s: Seq<char>, i: int, table: Permalinks) {
    if 0 <= i < s.len() && starts_link(s, i) {
        lemma_stop_at(s, i + 2);
    }
}

/// Replaces every internal link of `body` that the table resolves, leaves
/// the others as written, and hands back the paths they name.
pub fn render_links_lenient(body: &str, permalinks: &Permalinks) -> (r: (String, Vec<String>))
    requires
        permalinks.paths@.len() == permalinks.links@.len(),
    ensures
        r.0@ == lenient_from(body@, 0, *permalinks),
        r.1.deep_view() == broken_from(body@, 0, *permalinks),
{
    let n = body.unicode_len();
    let ghost s = body@;
    let mut out = String::new();
    let mut broken: Vec<String> = Vec::new();
    let mut i: usize = 0;
    while i < n
        invariant
            n == s.len(),
            s == body@,
            i <= n,
            permalinks.paths@.len() == permalinks.links@.len(),
            lenient_from(s, 0, *permalinks) == out@ + lenient_from(s, i as int, *permalinks),
            broken_from(s, 0, *permalinks) == broken.deep_view() + broken_from(s, i as int, *permalinks),
        decreases n - i,
    {
        if i + 1 < n && body.get_char(i) == '@' && body.get_char(i + 1) == '/' {
            let mut e: usize = i + 2;
            while e < n && !is_stop_exec(body.get_char(e))
                invariant
                    i + 2 <= e <= n,
                    n == s.len(),
                    s == body@,
                    stop_at(s, i + 2) == stop_at(s, e as int),
                decreases n - e,
            {
                e += 1;
            }
            let token = body.substring_char(i, e);
            let ghost before = out@;
            let ghost bb = broken.deep_view();
            match resolve_internal_link(token, "", permalinks) {
                Ok(link) => {
                    out.append(link.as_str());
                    assert(before + (link@ + lenient_from(s, e as int, *permalinks)) =~= out@ + lenient_from(s, e as int, *permalinks));
                },
                Err(LinkError::Broken { source: _, target }) => {
                    out.append(token);
                    assert(before + (token@ + lenient_from(s, e as int, *permalinks)) =~= out@ + lenient_from(s, e as int, *permalinks));
                    let ghost tv = target@;
                    broken.push(target);
                    assert(broken.deep_view() =~= bb.push(tv));
                    assert(bb + (seq![tv] + broken_from(s, e as int, *permalinks)) =~= broken.deep_view() + broken_from(s, e as int, *permalinks));
                },
            }
            i = e;
        } else {
            let c = body.substring_char(i, i + 1);
            let ghost before = out@;
            out.append(c);
            assert(c@ =~= seq![s[i as int]]);
            assert(before + (seq![s[i as int]] + lenient_from(s, i + 1, *permalinks)) =~= out@ + lenient_from(s, i + 1, *permalinks));
            i += 1;
        }
    }
    assert(out@ + seq![] =~= out@);
    assert(broken.deep_view() + Seq::<Seq<char>>::empty() =~= broken.deep_view());
    (out, broken)
}

/// Wherever the scan of a body reaches a link to a document that the table
/// knows, by its root-relative path, that link renders as exactly the
/// document's permalink, and the scan goes on after it.
pub proof fn lemma_link_in_body(table: Permalinks, s: Seq<char>, i: int)
    requires
        starts_link(s, i),
        !s.subrange(i + 2, stop_at(s, i + 2)).contains('#'),
        table.lookup_spec(s.subrange(i + 2, stop_at(s, i + 2))) is Some,
    ensures
        rendered_from(s, i, table) == match rendered_from(s, stop_at(s, i + 2), table) {
            Some(b) => Some(table.lookup_spec(s.subrange(i + 2, stop_at(s, i + 2))).unwrap() + b),
            None => None,
        },
{
    let e = stop_at(s, i + 2);
    lemma_stop_at(s, i + 2);
    let path = s.subrange(i + 2, e);
    let tok = s.subrange(i, e);
    assert(tok =~= seq!['@', '/'] + path);
    lemma_link_round_trip(table, path);
}

} // verus!
