use content_graph::config::Config;
use content_graph::page::{Page, PageFrontMatter};
use content_graph::library::Library;
use content_graph::render::{
    render_links, render_links_lenient, resolve_internal_link, summary_end, LinkError, Permalinks, RenderContext,
};
use content_graph::section::{FileInfo, InsertAnchor, Section, SectionFrontMatter};

fn table() -> Permalinks {
    let mut t = Permalinks::new();
    t.insert("posts/a.md".to_string(), "https://example.com/posts/a/".to_string());
    t.insert("pages/about.md".to_string(), "https://example.com/about/".to_string());
    t.insert("posts/a.md".to_string(), "https://example.com/other/".to_string());
    t
}

#[test]
fn internal_link_resolves_to_the_exact_permalink() {
    let t = table();
    assert_eq!(resolve_internal_link("@/posts/a.md", "doc.md", &t).ok(), Some("https://example.com/posts/a/".to_string()));
    assert_eq!(
        resolve_internal_link("@/pages/about.md#team", "doc.md", &t).ok(),
        Some("https://example.com/about/#team".to_string())
    );
    assert_eq!(t.lookup("posts/a.md"), Some(&"https://example.com/posts/a/".to_string()));
}

#[test]
fn other_links_stay_as_written() {
    let t = table();
    assert_eq!(resolve_internal_link("https://rust-lang.org", "doc.md", &t).ok(), Some("https://rust-lang.org".to_string()));
    assert_eq!(resolve_internal_link("@", "doc.md", &t).ok(), Some("@".to_string()));
}

#[test]
fn unknown_target_is_a_broken_link() {
    let t = table();
    match resolve_internal_link("@/posts/missing.md#x", "doc.md", &t) {
        Err(LinkError::Broken { source, target }) => {
            assert_eq!(source, "doc.md");
            assert_eq!(target, "posts/missing.md");
        },
        Ok(_) => panic!("the link should not resolve"),
    }
}

#[test]
fn render_context_keeps_its_parts() {
    let c = RenderContext::new("https://example.com/".to_string(), table(), InsertAnchor::Left, "more".to_string());
    assert_eq!(c.current_page_permalink, "https://example.com/");
    assert_eq!(c.insert_anchor, InsertAnchor::Left);
    assert_eq!(c.continue_reading_text, "more");
}

#[test]
fn body_links_render_to_permalinks() {
    let t = table();
    let body = "See [a](@/posts/a.md) and [us](@/pages/about.md#team) or [ext](https://x.org).";
    assert_eq!(
        render_links(body, "doc.md", &t).ok(),
        Some("See [a](https://example.com/posts/a/) and [us](https://example.com/about/#team) or [ext](https://x.org).".to_string())
    );
    assert_eq!(render_links("", "doc.md", &t).ok(), Some(String::new()));
    assert_eq!(render_links("no links, an @ sign", "doc.md", &t).ok(), Some("no links, an @ sign".to_string()));
    match render_links("[x](@/nope.md) then [a](@/posts/a.md)", "doc.md", &t) {
        Err(LinkError::Broken { source, target }) => {
            assert_eq!(source, "doc.md");
            assert_eq!(target, "nope.md");
        },
        Ok(_) => panic!("the body has a broken link"),
    }
}

#[test]
fn a_page_renders_its_links() {
    let config = Config::new("https://example.com");
    let file = FileInfo { path: "content/b.md".to_string(), name: "b".to_string(), components: vec![] };
    let mut p = Page::parse(file, PageFrontMatter::empty(), "go to @/posts/a.md now".to_string(), &config);
    assert_eq!(p.render_markdown(&table(), InsertAnchor::Off, true).ok(), Some(vec![]));
    assert_eq!(p.content, "go to https://example.com/posts/a/ now");
    let file = FileInfo { path: "content/c.md".to_string(), name: "c".to_string(), components: vec![] };
    let mut q = Page::parse(file, PageFrontMatter::empty(), "@/gone.md".to_string(), &config);
    assert!(q.render_markdown(&table(), InsertAnchor::Off, true).is_err());
    assert_eq!(q.content, "");
    assert_eq!(
        q.render_markdown(&table(), InsertAnchor::Off, false).ok(),
        Some(vec![LinkError::Broken { source: "content/c.md".to_string(), target: "gone.md".to_string() }])
    );
    assert_eq!(q.content, "@/gone.md");
}

#[test]
fn summary_ends_at_the_first_marker() {
    assert_eq!(summary_end("intro <!-- more --> rest <!-- more -->", "<!-- more -->"), Some(6));
    assert_eq!(summary_end("no marker here", "<!-- more -->"), None);
    assert_eq!(summary_end("ab", "abc"), None);
    assert_eq!(summary_end("héllo more", "more"), Some(6));
    assert_eq!(summary_end("more", "more"), Some(0));
}

#[test]
fn library_table_resolves_links_between_documents() {
    let config = Config::new("https://example.com");
    let mut lib = Library::new();
    let file = FileInfo { path: "posts/_index.md".to_string(), name: "_index".to_string(), components: vec!["posts".to_string()] };
    let s = lib.insert_section(Section::parse(file, SectionFrontMatter::empty(), String::new(), &config));
    let file = FileInfo { path: "posts/a.md".to_string(), name: "a".to_string(), components: vec!["posts".to_string()] };
    lib.insert_page(Page::parse(file, PageFrontMatter::empty(), String::new(), &config));
    let t = lib.permalinks();
    assert_eq!(t.paths, vec!["posts/_index.md".to_string(), "posts/a.md".to_string()]);
    assert_eq!(resolve_internal_link("@/posts/a.md", "doc.md", &t).ok(), Some("https://example.com/posts/a/".to_string()));
    assert_eq!(resolve_internal_link("@/posts/_index.md", "doc.md", &t).ok(), Some("https://example.com/posts/".to_string()));
    assert!(lib.get_section(s).is_some());
}

#[test]
fn lenient_rendering_keeps_broken_links_and_reports_them() {
    let t = table();
    let (out, broken) = render_links_lenient("[a](@/posts/a.md) [b](@/x.md) [c](@/y.md#z)", &t);
    assert_eq!(out, "[a](https://example.com/posts/a/) [b](@/x.md) [c](@/y.md#z)");
    assert_eq!(broken, vec!["x.md".to_string(), "y.md".to_string()]);
}

#[test]
fn section_render_collects_its_toc() {
    let config = Config::new("https://example.com");
    let file = FileInfo { path: "content/_index.md".to_string(), name: "_index".to_string(), components: vec![] };
    let mut s = Section::parse(file, SectionFrontMatter::empty(), "# Intro
see @/posts/a.md
## Part".to_string(), &config);
    assert_eq!(s.render_markdown(&table(), true).ok(), Some(vec![]));
    assert_eq!(s.content, "<h1 id=\"intro\">Intro</h1>\nsee https://example.com/posts/a/\n<h2 id=\"part\">Part</h2>");
    assert_eq!(s.toc.top, vec![0]);
    assert_eq!(s.toc.headings[0].children, vec![1]);
}

fn section_with(body: &str, anchor: InsertAnchor, text: Option<&str>) -> Section {
    let config = Config::new("https://example.com");
    let file = FileInfo { path: "content/s/_index.md".to_string(), name: "_index".to_string(), components: vec!["s".to_string()] };
    let mut meta = SectionFrontMatter::empty();
    meta.insert_anchor_links = anchor;
    meta.continue_reading_text = text.map(|t| t.to_string());
    Section::parse(file, meta, body.to_string(), &config)
}

#[test]
fn heading_anchors_follow_the_policy() {
    let mut left = section_with("# Title", InsertAnchor::Left, None);
    left.render_markdown(&table(), true).ok().unwrap();
    assert_eq!(
        left.content,
        "<h1 id=\"title\"><a class=\"zola-anchor\" href=\"#title\" aria-label=\"Anchor link for: title\">🔗</a>Title</h1>"
    );
    assert!(left.content.starts_with("<h1 id=\"title\"><a class=\"zola-anchor\" href=\"#title\""));
    let mut right = section_with("## Two Words", InsertAnchor::Right, None);
    right.render_markdown(&table(), true).ok().unwrap();
    assert_eq!(
        right.content,
        "<h2 id=\"two-words\">Two Words<a class=\"zola-anchor\" href=\"#two-words\" aria-label=\"Anchor link for: two-words\">🔗</a></h2>"
    );
    let mut off = section_with("# Title", InsertAnchor::Off, None);
    off.render_markdown(&table(), true).ok().unwrap();
    assert!(!off.content.contains("zola-anchor"));
}

#[test]
fn continue_reading_marker_ends_the_summary() {
    let mut s = section_with("Intro text\n<!-- more -->\nThe rest", InsertAnchor::Off, None);
    s.render_markdown(&table(), true).ok().unwrap();
    assert_eq!(s.summary, Some("Intro text\n".to_string()));
    assert_eq!(
        s.content,
        "Intro text\n<a id=\"zola-continue-reading\" name=\"continue-reading\"></a>\nThe rest"
    );
    let mut none = section_with("No marker here", InsertAnchor::Off, None);
    none.render_markdown(&table(), true).ok().unwrap();
    assert_eq!(none.summary, None);
    assert!(!none.content.contains("continue-reading"));
    let mut custom = section_with("A <!-- cut --> B <!-- more -->", InsertAnchor::Off, Some("cut"));
    custom.render_markdown(&table(), true).ok().unwrap();
    assert_eq!(custom.summary, Some("A ".to_string()));
    assert!(custom.content.ends_with("</a> B <!-- more -->"));
}

#[test]
fn broken_links_name_their_document() {
    let mut s = section_with("see @/missing.md", InsertAnchor::Off, None);
    match s.render_markdown(&table(), true) {
        Err(LinkError::Broken { source, target }) => {
            assert_eq!(source, "content/s/_index.md");
            assert_eq!(target, "missing.md");
        },
        Ok(_) => panic!("the link is broken"),
    }
    assert_eq!(s.content, "");
    let report = s.render_markdown(&table(), false).ok().unwrap();
    assert_eq!(report, vec![LinkError::Broken { source: "content/s/_index.md".to_string(), target: "missing.md".to_string() }]);
    assert_eq!(s.content, "see @/missing.md");
}

#[test]
fn render_context_renders_with_its_settings() {
    let c = RenderContext::new("https://example.com/".to_string(), table(), InsertAnchor::Right, "fold".to_string());
    let r = c.render("# Hi\nsee @/posts/a.md <!-- fold --> end", "x.md", true).ok().unwrap();
    assert_eq!(r.summary, Some("<h1 id=\"hi\">Hi<a class=\"zola-anchor\" href=\"#hi\" aria-label=\"Anchor link for: hi\">🔗</a></h1>\nsee https://example.com/posts/a/ ".to_string()));
    assert!(r.content.ends_with("<a id=\"zola-continue-reading\" name=\"continue-reading\"></a> end"));
    assert!(r.broken.is_empty());
}
