use vstd::prelude::*;
use slotmap::DefaultKey;
use crate::config::{Config, permalink_of};
use crate::section::{FileInfo, InsertAnchor};
use crate::render::{LinkError, Permalinks};
use crate::markup::{Rendered, body_ok, body_spec, marker_of, render_body};
use crate::toc::{Toc, table_of_contents, toc_spec};
use crate::text::{word_count, reading_time, words_spec, reading_time_spec, join_path, path_of, copy_components};

verus! {

/// The terms that a page carries for one taxonomy.
pub struct TaxonomyTerms {
    /// The taxonomy's name, such as `tags`.
    pub name: String,
    /// The terms, as written.
    pub terms: Vec<String>,
}

/// The metadata of a page document.
pub struct PageFrontMatter {
    /// The template that renders the page, if not the section's choice.
    pub template: Option<String>,
    /// The last component of the URL path, if not the file's stem.
    pub slug: Option<String>,
    /// The whole URL path, if set: it ignores where the file lies.
    pub path: Option<String>,
    /// Whether the page is a draft.
    pub draft: bool,
    /// The date, as a count of days, by which sections sort newest first.
    pub date: Option<u64>,
    /// The weight by which sections sort lightest first.
    pub weight: Option<u64>,
    /// Whether the page shows in its section's listing.
    pub in_listing: bool,
    /// The terms it carries, by taxonomy.
    pub taxonomies: Vec<TaxonomyTerms>,
}

impl PageFrontMatter {
    /// The metadata of a listed page that says nothing else.
    pub fn empty() -> (r: PageFrontMatter)
        ensures
            r.template is None,
            r.slug is None,
            r.path is None,
            !r.draft,
            r.date is None,
            r.weight is None,
            r.in_listing,
            r.taxonomies@.len() == 0,
    {
        PageFrontMatter {
            template: None,
            slug: None,
            path: None,
            draft: false,
            date: None,
            weight: None,
            in_listing: true,
            taxonomies: Vec::new(),
        }
    }
}

/// One leaf content document and what the build derives for it.
pub struct Page {
    /// Where the document was found; its name is the file's stem.
    pub file: FileInfo,
    /// Its metadata.
    pub meta: PageFrontMatter,
    /// The URL path, root-relative.
    pub path: String,
    /// The absolute URL.
    pub permalink: String,
    /// The body as written.
    pub raw_content: String,
    /// The body as rendered.
    pub content: String,
    /// The enclosing sections, root first.
    pub ancestors: Vec<DefaultKey>,
    /// The table of contents of the rendered body.
    pub toc: Toc,
    /// The rendered part before the continue-reading marker, if any.
    pub summary: Option<String>,
    /// How many words the body has.
    pub word_count: Option<usize>,
    /// How many minutes the body takes to read.
    pub reading_time: Option<usize>,
}

/// The URL path of a page in directory `dir` whose last component is
/// `slug`, unless `over` sets the whole path.
pub open spec fn page_path(dir: Seq<Seq<char>>, slug: Seq<char>, over: Option<Seq<char>>) -> Seq<char> {
    match over {
        Some(p) => p,
        None => path_of(dir.push(slug)),
    }
}

/// The slug that a page's metadata gives, else its file's name.
pub open spec fn slug_of(meta: PageFrontMatter, file: FileInfo) -> Seq<char> {
    match meta.slug {
        Some(s) => s@,
        None => file.name@,
    }
}

/// The two pages differ in their rendered body alone.
pub open spec fn same_but_content(a: Page, b: Page) -> bool {
    &&& a.file == b.file
    &&& a.meta == b.meta
    &&& a.path == b.path
    &&& a.permalink == b.permalink
    &&& a.raw_content == b.raw_content
    &&& a.ancestors == b.ancestors
    &&& a.word_count == b.word_count
    &&& a.reading_time == b.reading_time
}

impl Page {
    /// Renders the body into `content` with the anchor policy `anchor` of its section and the default continue-reading text: headings get their
    /// ids and anchor links, internal links are resolved through
    /// `permalinks`, and the part before the continue-reading marker is
    /// kept as the summary. Where `strict`, a broken link fails the render
    /// and nothing changes; otherwise it stays as written and comes back as
    /// an error of this document.
    pub fn render_markdown(&mut self, permalinks: &Permalinks, anchor: InsertAnchor, strict: bool) -> (r: Result<
        Vec<LinkError>,
        LinkError,
    >)
        requires
            permalinks.paths@.len() == permalinks.links@.len(),
        ensures
            r is Ok <==> body_ok(
                old(self).raw_content@,
                *permalinks,
                anchor,
                marker_of(None),
                strict,
            ),
            r matches Ok(b) ==> body_spec(
                (Rendered { content: final(self).content, summary: final(self).summary, broken: b }),
                old(self).raw_content@,
                old(self).file.path@,
                *permalinks,
                anchor,
                marker_of(None),
                strict,
            ),
            r matches Err(LinkError::Broken { source, target }) ==> source@ == old(self).file.path@,
            !strict ==> r is Ok,
            r is Ok ==> toc_spec(final(self).toc, old(self).raw_content@),
            r is Ok ==> same_but_content(*final(self), *old(self)),
            r is Err ==> *final(self) == *old(self),
    {
        let marker = String::from_str("<!-- more -->");
        proof {
            reveal_strlit("<!-- ");
            reveal_strlit(" -->");
            reveal_strlit("more");
            reveal_strlit("<!-- more -->");
        }
        assert(marker@ =~= marker_of(None));
        match render_body(self.raw_content.as_str(), self.file.path.as_str(), permalinks, anchor, marker.as_str(), strict) {
            Ok(x) => {
                self.content = x.content;
                self.summary = x.summary;
                self.toc = table_of_contents(self.raw_content.as_str());
                Ok(x.broken)
            },
            Err(e) => Err(e),
        }
    }

    /// A page for the document at `file` with body `content`: its URL
    /// path, permalink and reading figures computed.
    pub fn parse(file: FileInfo, meta: PageFrontMatter, content: String, config: &Config) -> (r: Page)
        ensures
            r.file == file,
            r.meta == meta,
            r.raw_content == content,
            r.path@ == page_path(
                file.components.deep_view(),
                slug_of(meta, file),
                match meta.path {
                    Some(p) => Some(p@),
                    None => None,
                },
            ),
            r.permalink@ == permalink_of(config.base_url@, r.path@),
            r.content@.len() == 0,
            r.summary is None,
            r.toc.headings@.len() == 0,
            r.ancestors@.len() == 0,
            r.word_count == Some(words_spec(content@) as usize),
            r.reading_time == Some(
                reading_time_spec(words_spec(content@)) as usize,
            ),
    {
        let path = match &meta.path {
            Some(p) => p.clone(),
            None => {
                let mut dir = copy_components(&file.components);
                let slug = match &meta.slug {
                    Some(s) => s.clone(),
                    None => file.name.clone(),
                };
                dir.push(slug);
                assert(dir@ == file.components@.push(slug));
                assert(dir.deep_view() =~= file.components.deep_view().push(slug_of(meta, file))) by {
                    assert(dir.deep_view()[file.components@.len() as int] == slug@);
                }
                join_path(&dir)
            },
        };
        let permalink = config.make_permalink(path.as_str());
        let words = word_count(content.as_str());
        Page {
            file,
            meta,
            path,
            permalink,
            raw_content: content,
            content: String::new(),
            ancestors: Vec::new(),
            toc: Toc { headings: Vec::new(), top: Vec::new() },
            summary: None,
            word_count: Some(words),
            reading_time: Some(reading_time(words)),
        }
    }
}

} // verus!
