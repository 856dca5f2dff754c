use vstd::prelude::*;
use crate::render::{
    RenderContext, LinkError, Permalinks, rendered, lenient_from, broken_from, render_links, render_links_lenient,
    first_marker, summary_end,
};
use crate::section::InsertAnchor;
use crate::taxonomy::{slugified, slugify};
use crate::text::{decimal, decimal_string};
use crate::toc::{line_end, hash_run, heading_at};

verus! {

/// The link placed beside a heading whose anchor is `id`.
pub open spec fn anchor_link(id: Seq<char>) -> Seq<char> {
    "<a class=\"zola-anchor\" href=\"#"@ + id + "\" aria-label=\"Anchor link for: "@ + id
        + "\">🔗</a>"@
}

/// A heading of level `k` with text `title`: its id is the slug of the
/// text, and the anchor link goes before the text (`Left`), after it
/// (`Right`), or nowhere (`Off`).
pub open spec fn heading_html(k: nat, title: Seq<char>, anchor: InsertAnchor) -> Seq<char> {
    let id = slugified(title);
    let a = anchor_link(id);
    "<h"@ + decimal(k) + " id=\""@ + id + "\">"@ + (if anchor == InsertAnchor::Left {
        a
    } else {
        seq![]
    }) + title + (if anchor == InsertAnchor::Right {
        a
    } else {
        seq![]
    }) + "</h"@ + decimal(k) + ">"@
}

/// What a line becomes: a heading line turns into its heading; any other
/// line has its internal links resolved, failing on a broken one where
/// `strict` and leaving it as written otherwise.
pub open spec fn line_out(line: Seq<char>, table: Permalinks, anchor: InsertAnchor, strict: bool) -> Option<Seq<char>> {
    if heading_at(line, 0) {
        Some(heading_html(hash_run(line, 0), line.subrange(hash_run(line, 0) + 1int, line.len() as int), anchor))
    } else if strict {
        rendered(line, table)
    } else {
        Some(lenient_from(line, 0, table))
    }
}

/// The paths of the broken links of a line; headings hold none.
pub open spec fn line_broken(line: Seq<char>, table: Permalinks) -> Seq<Seq<char>> {
    if heading_at(line, 0) {
        seq![]
    } else {
        broken_from(line, 0, table)
    }
}

/// The line break that follows the line ending at `e`, if any.
pub open spec fn break_after(s: Seq<char>, e: int) -> Seq<char> {
    if e < s.len() {
        seq!['\n']
    } else {
        seq![]
    }
}

/// The lines from the one starting at `i` on, each rendered, with their
/// line breaks kept.
pub open spec fn lines_out(s: Seq<char>, i: int, table: Permalinks, anchor: InsertAnchor, strict: bool) -> Option<Seq<char>>
    decreases s.len() + 1 - i,
    via lines_out_decreases
{
    if i < 0 || i >= s.len() {
        Some(seq![])
    } else {
        let e = line_end(s, i);
        match line_out(s.subrange(i, e), table, anchor, strict) {
            None => None,
            Some(a) => match lines_out(s, e + 1, table, anchor, strict) {
                None => None,
                Some(b) => Some(a + break_after(s, e) + b),
            },
        }
    }
}

#[via_fn]
proof fn lines_out_decreases(s: Seq<char>, i: int, table: Permalinks, anchor: InsertAnchor, strict: bool) {
    if 0 <= i < s.len() {
        lemma_line_end(s, i);
    }
}

/// The paths of the broken links from the line starting at `i` on.
pub open spec fn lines_broken(s: Seq<char>, i: int, table: Permalinks) -> Seq<Seq<char>>
    decreases s.len() + 1 - i,
    via lines_broken_decreases
{
    if i < 0 || i >= s.len() {
        seq![]
    } else {
        let e = line_end(s, i);
        line_broken(s.subrange(i, e), table) + lines_broken(s, e + 1, table)
    }
}

#[via_fn]
proof fn lines_broken_decreases(s: Seq<char>, i: int, table: Permalinks) {
    if 0 <= i < s.len() {
        lemma_line_end(s, i);
    }
}

proof fn lemma_line_end(s: Seq<char>, i: int)
    requires
        0 <= i <= s.len(),
    ensures
        i <= line_end(s, i) <= s.len(),
        forall|k: int| i <= k < line_end(s, i) ==> s[k] != '\n',
    decreases s.len() - i,
{
    if i < s.len() && s[i] != '\n' {
        lemma_line_end(s, i + 1);
    }
}

/// The level of the heading that `line` is, or 0 where it is none.
fn heading_level(line: &str) -> (r: usize)
    ensures
        r > 0 <==> heading_at(line@, 0),
        r > 0 ==> r == hash_run(line@, 0),
{
    let n = line.unicode_len();
    let mut k: usize = 0;
    while k < n && line.get_char(k) == '#'
        invariant
            k <= n == line@.len(),
            hash_run(line@, 0) == k + hash_run(line@, k as int),
        decreases n - k,
    {
        k += 1;
    }
    assert(hash_run(line@, k as int) == 0);
    if k >= 1 && k <= 6 && k < n && line.get_char(k) == ' ' {
        k
    } else {
        0
    }
}

/// Builds the heading of level `k` with text `title`.
fn heading(k: usize, title: &str, anchor: InsertAnchor) -> (r: String)
    ensures
        r@ == heading_html(k as nat, title@, anchor),
{
    let id = slugify(title);
    let level = decimal_string(k as u64);
    let mut a = String::from_str("<a class=\"zola-anchor\" href=\"#");
    a.append(id.as_str());
    a.append("\" aria-label=\"Anchor link for: ");
    a.append(id.as_str());
    a.append("\">🔗</a>");
    let mut h = String::from_str("<h");
    h.append(level.as_str());
    h.append(" id=\"");
    h.append(id.as_str());
    h.append("\">");
    match anchor {
        InsertAnchor::Left => {
            h.append(a.as_str());
        },
        _ => {},
    }
    h.append(title);
    match anchor {
        InsertAnchor::Right => {
            h.append(a.as_str());
        },
        _ => {},
    }
    h.append("</h");
    h.append(level.as_str());
    h.append(">");
    assert(h@ =~= heading_html(k as nat, title@, anchor));
    h
}

/// The paths of the broken links as errors of the document `source`.
pub open spec fn broken_spec(r: Seq<LinkError>, source: Seq<char>, targets: Seq<Seq<char>>) -> bool {
    &&& r.len() == targets.len()
    &&& forall|k: int|
        0 <= k < r.len() ==> (#[trigger] r[k] matches LinkError::Broken { source: src, target } && src@
            == source && target@ == targets[k])
}

/// Renders one line and hands back the paths of its broken links, which a
/// strict render never has.
fn render_line(line: &str, source: &str, table: &Permalinks, anchor: InsertAnchor, strict: bool) -> (r: Result<
    (String, Vec<String>),
    LinkError,
>)
    requires
        table.paths@.len() == table.links@.len(),
    ensures
        r is Ok <==> line_out(line@, *table, anchor, strict) is Some,
        r matches Ok((c, b)) ==> Some(c@) == line_out(line@, *table, anchor, strict),
        r matches Ok((c, b)) ==> b.deep_view() == if strict {
            seq![]
        } else {
            line_broken(line@, *table)
        },
        r matches Err(LinkError::Broken { source: src, target }) ==> src@ == source@,
{
    let k = heading_level(line);
    if k > 0 {
        let ln = line.unicode_len();
        let title = line.substring_char(k + 1, ln);
        let h = heading(k, title, anchor);
        let b: Vec<String> = Vec::new();
        assert(b.deep_view() =~= seq![]);
        Ok((h, b))
    } else if strict {
        let c = render_links(line, source, table)?;
        let b: Vec<String> = Vec::new();
        assert(b.deep_view() =~= seq![]);
        Ok((c, b))
    } else {
        Ok(render_links_lenient(line, table))
    }
}

/// Renders the lines of `body`: headings with their anchors, other lines
/// with their links resolved. Where `strict`, a broken link fails the
/// render; otherwise it stays as written and comes back as an error of
/// `source`.
#[verifier::rlimit(50)]
pub fn render_lines(body: &str, source: &str, table: &Permalinks, anchor: InsertAnchor, strict: bool) -> (r: Result<
    (String, Vec<LinkError>),
    LinkError,
>)
    requires
        table.paths@.len() == table.links@.len(),
    ensures
        r is Ok <==> lines_out(body@, 0, *table, anchor, strict) is Some,
        r matches Ok((c, b)) ==> Some(c@) == lines_out(body@, 0, *table, anchor, strict),
        r matches Ok((c, b)) ==> broken_spec(b@, source@, if strict {
            seq![]
        } else {
            lines_broken(body@, 0, *table)
        }),
        r matches Err(LinkError::Broken { source: src, target }) ==> src@ == source@,
        !strict ==> r is Ok,
{
    let ghost s = body@;
    let n = body.unicode_len();
    let mut out = String::new();
    let mut broken: Vec<LinkError> = Vec::new();
    let ghost mut done: Seq<Seq<char>> = seq![];
    let mut i: usize = 0;
    while i < n
        invariant
            s == body@,
            n == s.len(),
            i <= n,
            table.paths@.len() == table.links@.len(),
            lines_out(s, 0, *table, anchor, strict) == match lines_out(s, i as int, *table, anchor, strict) {
                Some(b) => Some(out@ + b),
                None => None,
            },
            strict ==> done.len() == 0,
            !strict ==> lines_broken(s, 0, *table) == done + lines_broken(s, i as int, *table),
            broken_spec(broken@, source@, done),
        decreases n - i,
    {
        let mut e: usize = i;
        while e < n && body.get_char(e) != '\n'
            invariant
                i <= e <= n,
                n == s.len(),
                s == body@,
                line_end(s, i as int) == line_end(s, e as int),
            decreases n - e,
        {
            e += 1;
        }
        proof {
            lemma_line_end(s, i as int);
        }
        let line = body.substring_char(i, e);
        let ghost lv = line@;
        let ghost before = out@;
        let ghost old_done = done;
        let (c, targets) = render_line(line, source, table, anchor, strict)?;
        out.append(c.as_str());
        let ghost old_len = broken@.len();
        let mut j: usize = 0;
        while j < targets.len()
            invariant
                j <= targets@.len(),
                broken@.len() == old_len + j,
                old_len == old_done.len(),
                done == old_done + targets.deep_view().take(j as int),
                broken_spec(broken@, source@, done),
            decreases targets@.len() - j,
        {
            let ghost tv = targets@[j as int]@;
            let ghost bv = broken@;
            broken.push(LinkError::Broken { source: String::from_str(source), target: targets[j].clone() });
            proof {
                let od = done;
                done = done.push(tv);
                assert(targets.deep_view()[j as int] == tv);
                assert(old_done + targets.deep_view().take(j + 1) =~= done);
                assert forall|m: int| 0 <= m < broken@.len() implies (#[trigger] broken@[m] matches LinkError::Broken { source: src, target } && src@
                    == source@ && target@ == done[m]) by {
                    if m < bv.len() {
                        assert(broken@[m] == bv[m]);
                        assert(done[m] == od[m]);
                    }
                }
            }
            j += 1;
        }
        proof {
            assert(targets.deep_view().take(targets@.len() as int) =~= targets.deep_view());
            if !strict {
                assert(old_done + (line_broken(lv, *table) + lines_broken(s, e + 1, *table)) =~= done + lines_broken(s, e + 1, *table));
            }
        }
        if e < n {
            proof {
                reveal_strlit("\n");
            }
            out.append("\n");
            i = e + 1;
        } else {
            i = n;
        }
        proof {
            match lines_out(s, e + 1, *table, anchor, strict) {
                Some(b) => {
                    assert(before + (line_out(lv, *table, anchor, strict).unwrap() + break_after(s, e as int) + b) =~= out@ + b);
                },
                None => {},
            }
            if e >= n {
                assert(lines_out(s, n as int, *table, anchor, strict) == Some(Seq::<char>::empty()));
            }
        }
    }
    assert(out@ + seq![] =~= out@);
    assert(done + Seq::<Seq<char>>::empty() =~= done);
    Ok((out, broken))
}

/// The continue-reading marker of a document: an HTML comment around the
/// text that its metadata gives, `more` by default.
pub open spec fn marker_of(text: Option<Seq<char>>) -> Seq<char> {
    "<!-- "@ + match text {
        Some(t) => t,
        None => "more"@,
    } + " -->"@
}

/// What takes the marker's place in the rendered body.
pub open spec fn continue_anchor() -> Seq<char> {
    "<a id=\"zola-continue-reading\" name=\"continue-reading\"></a>"@
}

/// A rendered body: the markup, the summary before the continue-reading
/// marker if there is one, and the broken links set aside.
pub struct Rendered {
    pub content: String,
    pub summary: Option<String>,
    pub broken: Vec<LinkError>,
}

/// What rendering body `s` gives: where the marker occurs, the part before
/// it rendered as the summary, then the continue-reading anchor, then the
/// part after it rendered; else the whole body rendered and no summary.
pub open spec fn body_spec(r: Rendered, s: Seq<char>, source: Seq<char>, table: Permalinks, anchor: InsertAnchor, marker: Seq<char>, strict: bool) -> bool {
    match first_marker(s, marker, 0) {
        Some(m) => {
            let pre = s.take(m);
            let post = s.skip(m + marker.len());
            &&& r.summary matches Some(sum) && Some(sum@) == lines_out(pre, 0, table, anchor, strict)
            &&& lines_out(post, 0, table, anchor, strict) matches Some(b) && r.content@ == r.summary.unwrap()@ + continue_anchor() + b
            &&& broken_spec(r.broken@, source, if strict { seq![] } else { lines_broken(pre, 0, table) + lines_broken(post, 0, table) })
        },
        None => {
            &&& r.summary is None
            &&& Some(r.content@) == lines_out(s, 0, table, anchor, strict)
            &&& broken_spec(r.broken@, source, if strict { seq![] } else { lines_broken(s, 0, table) })
        },
    }
}

/// Whether rendering body `s` succeeds.
pub open spec fn body_ok(s: Seq<char>, table: Permalinks, anchor: InsertAnchor, marker: Seq<char>, strict: bool) -> bool {
    match first_marker(s, marker, 0) {
        Some(m) => lines_out(s.take(m), 0, table, anchor, strict) is Some && lines_out(
            s.skip(m + marker.len()),
            0,
            table,
            anchor,
            strict,
        ) is Some,
        None => lines_out(s, 0, table, anchor, strict) is Some,
    }
}

/// Renders the body of the document at `source`.
pub fn render_body(
    body: &str,
    source: &str,
    table: &Permalinks,
    anchor: InsertAnchor,
    marker: &str,
    strict: bool,
) -> (r: Result<Rendered, LinkError>)
    requires
        table.paths@.len() == table.links@.len(),
    ensures
        r is Ok <==> body_ok(body@, *table, anchor, marker@, strict),
        r matches Ok(x) ==> body_spec(x, body@, source@, *table, anchor, marker@, strict),
        r matches Err(LinkError::Broken { source: src, target }) ==> src@ == source@,
        !strict ==> r is Ok,
{
    match summary_end(body, marker) {
        None => {
            let (content, broken) = render_lines(body, source, table, anchor, strict)?;
            Ok(Rendered { content, summary: None, broken })
        },
        Some(m) => {
            proof {
                lemma_marker_bounds(body@, marker@, 0);
            }
            let n = body.unicode_len();
            let ml = marker.unicode_len();
            let pre = body.substring_char(0, m);
            let post = body.substring_char(m + ml, n);
            assert(pre@ =~= body@.take(m as int));
            assert(post@ =~= body@.skip(m + ml));
            let (summary, mut broken) = render_lines(pre, source, table, anchor, strict)?;
            let (after, more) = render_lines(post, source, table, anchor, strict)?;
            let mut content = summary.clone();
            content.append("<a id=\"zola-continue-reading\" name=\"continue-reading\"></a>");
            content.append(after.as_str());
            let ghost b1 = broken@;
            let ghost t1 = if strict { Seq::<Seq<char>>::empty() } else { lines_broken(pre@, 0, *table) };
            let ghost t2 = if strict { Seq::<Seq<char>>::empty() } else { lines_broken(post@, 0, *table) };
            let mut j: usize = 0;
            while j < more.len()
                invariant
                    j <= more@.len(),
                    broken_spec(b1, source@, t1),
                    broken_spec(more@, source@, t2),
                    broken@ == b1 + more@.take(j as int),
                decreases more@.len() - j,
            {
                let e = match &more[j] {
                    LinkError::Broken { source: s2, target } => LinkError::Broken { source: s2.clone(), target: target.clone() },
                };
                assert(e == more@[j as int]);
                broken.push(e);
                j += 1;
                assert(broken@ =~= b1 + more@.take(j as int));
            }
            assert(more@.take(more@.len() as int) =~= more@);
            proof {
                let all = t1 + t2;
                assert forall|k: int| 0 <= k < broken@.len() implies (#[trigger] broken@[k] matches LinkError::Broken { source: src, target } && src@
                    == source@ && target@ == all[k]) by {
                    if k < b1.len() {
                        assert(broken@[k] == b1[k]);
                    } else {
                        assert(broken@[k] == more@[k - b1.len()]);
                    }
                }
            }
            Ok(Rendered { content, summary: Some(summary), broken })
        },
    }
}

proof fn lemma_marker_bounds(s: Seq<char>, m: Seq<char>, i: int)
    requires
        0 <= i,
    ensures
        first_marker(s, m, i) matches Some(p) ==> i <= p && p + m.len() <= s.len(),
    decreases s.len() + 1 - i,
{
    if i + m.len() <= s.len() && !(0 <= i && i + m.len() <= s.len() && s.subrange(i, i + m.len()) == m) {
        lemma_marker_bounds(s, m, i + 1);
    }
}

impl RenderContext {
    /// Renders the body of the document at `source` with this context's
    /// permalinks, anchor policy and continue-reading text.
    pub fn render(&self, body: &str, source: &str, strict: bool) -> (r: Result<Rendered, LinkError>)
        requires
            self.permalinks.paths@.len() == self.permalinks.links@.len(),
        ensures
            r is Ok <==> body_ok(
                body@,
                self.permalinks,
                self.insert_anchor,
                marker_of(Some(self.continue_reading_text@)),
                strict,
            ),
            r matches Ok(x) ==> body_spec(
                x,
                body@,
                source@,
                self.permalinks,
                self.insert_anchor,
                marker_of(Some(self.continue_reading_text@)),
                strict,
            ),
            r matches Err(LinkError::Broken { source: src, target }) ==> src@ == source@,
    {
        proof {
            reveal_strlit("<!-- ");
            reveal_strlit(" -->");
        }
        let mut marker = String::from_str("<!-- ");
        marker.append(self.continue_reading_text.as_str());
        marker.append(" -->");
        assert(marker@ =~= marker_of(Some(self.continue_reading_text@)));
        render_body(body, source, &self.permalinks, self.insert_anchor, marker.as_str(), strict)
    }
}

} // verus!
