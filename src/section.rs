use vstd::prelude::*;
use slotmap::DefaultKey;
use crate::config::{Config, permalink_of};
use crate::render::{LinkError, Permalinks};
use crate::markup::{Rendered, body_ok, body_spec, marker_of, render_body};
use crate::pagination::{Pager, paginate, pager_count, pager_spec, items_total};
use crate::toc::{Toc, table_of_contents, toc_spec};
use crate::text::{word_count, reading_time, words_spec, reading_time_spec, join_path, path_of, non_empty, non_empty_components};

verus! {

/// Whether heading anchors are inserted, and on which side of the text.
#[derive(Clone, Copy, Debug, PartialEq, Eq, Structural)]
pub enum InsertAnchor {
    Left,
    Right,
    Off,
}

/// The key by which a section orders its pages.
#[derive(Clone, Copy, Debug, PartialEq, Eq, Structural)]
pub enum SortBy {
    /// The order in which the pages were found.
    Unordered,
    /// Newest first.
    Date,
    /// Lightest first.
    Weight,
}

/// The metadata of a section document.
pub struct SectionFrontMatter {
    /// The template that renders the section, if not the default one.
    pub template: Option<String>,
    /// How many pages each pager shows, if the section is paginated.
    pub paginate_by: Option<usize>,
    /// Where heading anchors go.
    pub insert_anchor_links: InsertAnchor,
    /// The marker that ends a summary, if not `more`.
    pub continue_reading_text: Option<String>,
    /// How the section orders its pages.
    pub sort_by: SortBy,
    /// Whether pages without the sort key are set aside rather than refused.
    pub ignore_unsorted: bool,
    /// The weight by which the section orders among its siblings, lightest
    /// first; without one it follows the weighted ones, by file path.
    pub weight: Option<u64>,
}

impl SectionFrontMatter {
    /// The metadata of a section that says nothing: no template or
    /// pagination, no anchors, pages in the order they were found.
    pub fn empty() -> (r: SectionFrontMatter)
        ensures
            empty_meta(r),
    {
        SectionFrontMatter {
            template: None,
            paginate_by: None,
            insert_anchor_links: InsertAnchor::Off,
            continue_reading_text: None,
            sort_by: SortBy::Unordered,
            ignore_unsorted: false,
            weight: None,
        }
    }
}

/// Where a document was found.
pub struct FileInfo {
    /// The file's path.
    pub path: String,
    /// The file's name without its extension.
    pub name: String,
    /// The components of its directory relative to the content root.
    pub components: Vec<String>,
}

/// One directory-level index document and what the build derives for it.
pub struct Section {
    /// Where the document was found.
    pub file: FileInfo,
    /// Its metadata.
    pub meta: SectionFrontMatter,
    /// The URL path, root-relative, ending in `/`.
    pub path: String,
    /// The non-empty components of `path`.
    pub components: Vec<String>,
    /// The absolute URL.
    pub permalink: String,
    /// The body as written.
    pub raw_content: String,
    /// The body as rendered.
    pub content: String,
    /// The paths of the other files found beside the document.
    pub assets: Vec<String>,
    /// The URLs of those files.
    pub serialized_assets: Vec<String>,
    /// The pages listed here, in the section's order.
    pub pages: Vec<DefaultKey>,
    /// The pages that belong here but are not listed.
    pub ignored_pages: Vec<DefaultKey>,
    /// The enclosing sections, root first.
    pub ancestors: Vec<DefaultKey>,
    /// The sections directly below.
    pub subsections: Vec<DefaultKey>,
    /// The table of contents of the rendered body.
    pub toc: Toc,
    /// The rendered part before the continue-reading marker, if any.
    pub summary: Option<String>,
    /// How many words the body has.
    pub word_count: Option<usize>,
    /// How many minutes the body takes to read.
    pub reading_time: Option<usize>,
}

/// Nothing has been derived for the section yet: no links, no assets, no
/// rendered body and no table of contents.
pub open spec fn underived(r: Section) -> bool {
    &&& r.content@.len() == 0
    &&& r.summary is None
    &&& r.assets@.len() == 0
    &&& r.serialized_assets@.len() == 0
    &&& r.pages@.len() == 0
    &&& r.ignored_pages@.len() == 0
    &&& r.ancestors@.len() == 0
    &&& r.subsections@.len() == 0
    &&& r.toc.headings@.len() == 0
    &&& r.toc.top@.len() == 0
}

/// Whether `m` is the metadata that says nothing.
pub open spec fn empty_meta(m: SectionFrontMatter) -> bool {
    &&& m.template is None
    &&& m.paginate_by is None
    &&& m.insert_anchor_links == InsertAnchor::Off
    &&& m.continue_reading_text is None
    &&& m.sort_by == SortBy::Unordered
    &&& !m.ignore_unsorted
    &&& m.weight is None
}

/// The section at the content root that stands in when none was written.
impl Default for Section {
    fn default() -> (r: Section)
        ensures
            r.file.path@.len() == 0,
            r.file.name@.len() == 0,
            r.file.components@.len() == 0,
            empty_meta(r.meta),
            r.path@.len() == 0,
            r.components@.len() == 0,
            r.permalink@.len() == 0,
            r.raw_content@.len() == 0,
            underived(r),
            r.word_count is None,
            r.reading_time is None,
    {
        Section::new(
            FileInfo { path: String::new(), name: String::new(), components: Vec::new() },
            SectionFrontMatter::empty(),
        )
    }
}

/// The two sections differ in their rendered body alone.
pub open spec fn same_but_content(a: Section, b: Section) -> bool {
    &&& a.file == b.file
    &&& a.meta == b.meta
    &&& a.path == b.path
    &&& a.components == b.components
    &&& a.permalink == b.permalink
    &&& a.raw_content == b.raw_content
    &&& a.assets == b.assets
    &&& a.serialized_assets == b.serialized_assets
    &&& a.pages == b.pages
    &&& a.ignored_pages == b.ignored_pages
    &&& a.ancestors == b.ancestors
    &&& a.subsections == b.subsections
    &&& a.word_count == b.word_count
    &&& a.reading_time == b.reading_time
}

/// Whether an asset at path `p` has a file name: its path ends neither in
/// `/` nor in `..`.
pub open spec fn has_file_name(p: Seq<char>) -> bool {
    file_name_of(p).len() > 0 && file_name_of(p) != seq!['.', '.']
}

/// The URLs of the assets at paths `assets` beside a section at URL path
/// `dir`, those without a file name left out.
pub open spec fn asset_urls(dir: Seq<char>, assets: Seq<Seq<char>>) -> Seq<Seq<char>>
    decreases assets.len(),
{
    if assets.len() == 0 {
        seq![]
    } else {
        let prev = asset_urls(dir, assets.drop_last());
        if has_file_name(assets.last()) {
            prev.push(dir + file_name_of(assets.last()))
        } else {
            prev
        }
    }
}

/// The file name at the end of path `p`: what follows its last `/`.
pub open spec fn file_name_of(p: Seq<char>) -> Seq<char>
    decreases p.len(),
{
    if p.len() == 0 {
        p
    } else if p.last() == '/' {
        seq![]
    } else {
        file_name_of(p.drop_last()).push(p.last())
    }
}

impl Section {
    /// A section for the document at `file`, with nothing derived yet.
    pub fn new(file: FileInfo, meta: SectionFrontMatter) -> (r: Section)
        ensures
            r.file == file,
            r.meta == meta,
            r.path@.len() == 0,
            r.components@.len() == 0,
            r.permalink@.len() == 0,
            r.raw_content@.len() == 0,
            underived(r),
            r.word_count is None,
            r.reading_time is None,
    {
        Section {
            file,
            meta,
            path: String::new(),
            components: Vec::new(),
            permalink: String::new(),
            raw_content: String::new(),
            content: String::new(),
            assets: Vec::new(),
            serialized_assets: Vec::new(),
            pages: Vec::new(),
            ignored_pages: Vec::new(),
            ancestors: Vec::new(),
            subsections: Vec::new(),
            toc: Toc { headings: Vec::new(), top: Vec::new() },
            summary: None,
            word_count: None,
            reading_time: None,
        }
    }

    /// A section for the document at `file` with body `content`: its URL
    /// path, permalink and reading figures computed.
    pub fn parse(file: FileInfo, meta: SectionFrontMatter, content: String, config: &Config) -> (r: Section)
        ensures
            r.file == file,
            r.meta == meta,
            r.raw_content == content,
            r.path@ == path_of(file.components.deep_view()),
            r.components.deep_view() == non_empty(file.components.deep_view()),
            r.permalink@ == permalink_of(config.base_url@, r.path@),
            r.word_count == Some(words_spec(content@) as usize),
            r.reading_time == Some(
                reading_time_spec(words_spec(content@)) as usize,
            ),
            underived(r),
    {
        let mut section = Section::new(file, meta);
        let words = word_count(content.as_str());
        section.word_count = Some(words);
        section.reading_time = Some(reading_time(words));
        section.raw_content = content;
        section.path = join_path(&section.file.components);
        section.components = non_empty_components(&section.file.components);
        section.permalink = config.make_permalink(section.path.as_str());
        section
    }

    /// The template that renders this section.
    pub fn get_template_name(&self) -> (r: String)
        ensures
            self.meta.template matches Some(t) ==> r@ == t@,
            self.meta.template is None && self.file.components@.len() == 0 ==> r@ == seq![
                'i', 'n', 'd', 'e', 'x', '.', 'h', 't', 'm', 'l',
            ],
            self.meta.template is None && self.file.components@.len() > 0 ==> r@ == seq![
                's', 'e', 'c', 't', 'i', 'o', 'n', '.', 'h', 't', 'm', 'l',
            ],
    {
        match &self.meta.template {
            Some(t) => t.clone(),
            None => {
                if self.is_index() {
                    proof {
                        reveal_strlit("index.html");
                    }
                    String::from_str("index.html")
                } else {
                    proof {
                        reveal_strlit("section.html");
                    }
                    String::from_str("section.html")
                }
            },
        }
    }

    /// Renders the body into `content` with the anchor policy and continue-reading text of its metadata: headings get their
    /// ids and anchor links, internal links are resolved through
    /// `permalinks`, and the part before the continue-reading marker is
    /// kept as the summary. Where `strict`, a broken link fails the render
    /// and nothing changes; otherwise it stays as written and comes back as
    /// an error of this document.
    pub fn render_markdown(&mut self, permalinks: &Permalinks, strict: bool) -> (r: Result<
        Vec<LinkError>,
        LinkError,
    >)
        requires
            permalinks.paths@.len() == permalinks.links@.len(),
        ensures
            r is Ok <==> body_ok(
                old(self).raw_content@,
                *permalinks,
                old(self).meta.insert_anchor_links,
                marker_of(match old(self).meta.continue_reading_text {
                Some(t) => Some(t@),
                None => None,
            }),
                strict,
            ),
            r matches Ok(b) ==> body_spec(
                (Rendered { content: final(self).content, summary: final(self).summary, broken: b }),
                old(self).raw_content@,
                old(self).file.path@,
                *permalinks,
                old(self).meta.insert_anchor_links,
                marker_of(match old(self).meta.continue_reading_text {
                Some(t) => Some(t@),
                None => None,
            }),
                strict,
            ),
            r matches Err(LinkError::Broken { source, target }) ==> source@ == old(self).file.path@,
            !strict ==> r is Ok,
            r is Ok ==> toc_spec(final(self).toc, old(self).raw_content@),
            r is Ok ==> same_but_content(*final(self), *old(self)),
            r is Err ==> *final(self) == *old(self),
    {
        let mut marker = String::from_str("<!-- ");
        match &self.meta.continue_reading_text {
            Some(t) => {
                marker.append(t.as_str());
            },
            None => {
                marker.append("more");
            },
        }
        marker.append(" -->");
        let anchor = self.meta.insert_anchor_links;
        proof {
            reveal_strlit("<!-- ");
            reveal_strlit(" -->");
            reveal_strlit("more");
            reveal_strlit("<!-- more -->");
        }
        assert(marker@ =~= marker_of(match self.meta.continue_reading_text {
                Some(t) => Some(t@),
                None => None,
            }));
        match render_body(self.raw_content.as_str(), self.file.path.as_str(), permalinks, anchor, marker.as_str(), strict) {
            Ok(x) => {
                self.content = x.content;
                self.summary = x.summary;
                self.toc = table_of_contents(self.raw_content.as_str());
                Ok(x.broken)
            },
            Err(e) => Err(e),
        }
    }

    /// The section's listing split into pagers, where its metadata asks for
    /// a page size of one or more.
    pub fn paginate(&self, segment: &String) -> (r: Option<Vec<Pager<DefaultKey>>>)
        ensures
            r is Some <==> (self.meta.paginate_by matches Some(n) && n >= 1),
            r matches Some(v) ==> {
                let n = self.meta.paginate_by.unwrap() as nat;
                &&& v@.len() == pager_count(self.pages@.len(), n)
                &&& items_total(v@) == self.pages@.len()
                &&& forall|i: int|
                    0 <= i < v@.len() ==> pager_spec(
                        #[trigger] v@[i],
                        self.pages@,
                        n,
                        self.permalink@,
                        segment@,
                        i as nat,
                    )
            },
    {
        match self.meta.paginate_by {
            Some(n) => {
                if n >= 1 {
                    Some(paginate(&self.pages, n, &self.permalink, segment))
                } else {
                    None
                }
            },
            None => None,
        }
    }

    /// Whether this is the section at the content root.
    pub fn is_index(&self) -> (r: bool)
        ensures
            r == (self.file.components@.len() == 0),
    {
        self.file.components.len() == 0
    }

    /// The URL of each asset that has a file name: the section's URL path,
    /// then that name. An asset whose path ends in `/` or `..` has none and
    /// is left out.
    pub fn serialize_assets(&self) -> (r: Vec<String>)
        ensures
            r.deep_view() == asset_urls(self.path@, self.assets.deep_view()),
    {
        let mut r: Vec<String> = Vec::new();
        let mut i: usize = 0;
        while i < self.assets.len()
            invariant
                i <= self.assets@.len(),
                r.deep_view() == asset_urls(self.path@, self.assets.deep_view().take(i as int)),
            decreases self.assets@.len() - i,
        {
            assert(self.assets.deep_view().take(i + 1).drop_last() =~= self.assets.deep_view().take(i as int));
            assert(self.assets.deep_view()[i as int] == self.assets@[i as int]@);
            let name = file_name(self.assets[i].as_str());
            let ln = name.unicode_len();
            let parent = ln == 2 && name.get_char(0) == '.' && name.get_char(1) == '.';
            let ghost before = r.deep_view();
            if ln > 0 && !parent {
                let mut url = self.path.clone();
                url.append(name);
                let ghost uv = url@;
                r.push(url);
                assert(r.deep_view() =~= before.push(uv));
            } else {
                assert(name@.len() == 0 || name@ =~= seq!['.', '.']);
            }
            i += 1;
        }
        assert(self.assets.deep_view().take(self.assets@.len() as int) =~= self.assets.deep_view());
        r
    }
}

/// What follows the last `/` of `p`.
pub fn file_name(p: &str) -> (r: &str)
    ensures
        r@ == file_name_of(p@),
{
    let n = p.unicode_len();
    let mut start: usize = n;
    assert(p@.take(n as int) =~= p@);
    assert(p@.subrange(n as int, n as int) =~= seq![]);
    while start > 0 && p.get_char(start - 1) != '/'
        invariant
            start <= n == p@.len(),
            file_name_of(p@) == file_name_of(p@.take(start as int)) + p@.subrange(start as int, n as int),
        decreases start,
    {
        assert(p@.take(start as int).drop_last() =~= p@.take(start - 1));
        assert(p@.subrange(start - 1, n as int) =~= seq![p@[start - 1]] + p@.subrange(start as int, n as int));
        start -= 1;
    }
    if start > 0 {
        assert(p@.take(start as int).last() == '/');
    }
    assert(file_name_of(p@.take(start as int)) =~= seq![]);
    p.substring_char(start, n)
}

} // verus!
