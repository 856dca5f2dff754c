use content_graph::config::Config;
use content_graph::library::{BuildError, Library};
use content_graph::page::{Page, PageFrontMatter};
use content_graph::section::{file_name, FileInfo, Section, SectionFrontMatter, SortBy};

fn info(path: &str, name: &str, comps: &[&str]) -> FileInfo {
    FileInfo {
        path: path.to_string(),
        name: name.to_string(),
        components: comps.iter().map(|c| c.to_string()).collect(),
    }
}

fn section(comps: &[&str], meta: SectionFrontMatter, config: &Config) -> Section {
    let path = format!("content/{}/_index.md", comps.join("/"));
    Section::parse(info(&path, "_index", comps), meta, String::new(), config)
}

fn page(comps: &[&str], name: &str, meta: PageFrontMatter, config: &Config) -> Page {
    let path = format!("content/{}/{}.md", comps.join("/"), name);
    Page::parse(info(&path, name, comps), meta, "some words here".to_string(), config)
}

#[test]
fn section_permalink_and_assets() {
    let config = Config::new("http://a-website.com");
    let mut s = section(&["posts", "with-assets"], SectionFrontMatter::empty(), &config);
    assert_eq!(s.permalink, "http://a-website.com/posts/with-assets/");
    assert_eq!(s.path, "posts/with-assets/");
    assert_eq!(s.components, vec!["posts".to_string(), "with-assets".to_string()]);
    s.assets = vec![
        "content/posts/with-assets/example.js".to_string(),
        "content/posts/with-assets/graph.jpg".to_string(),
    ];
    let urls = s.serialize_assets();
    assert_eq!(urls, vec!["posts/with-assets/example.js".to_string(), "posts/with-assets/graph.jpg".to_string()]);
    assert_eq!(file_name("a/b/fail.png"), "fail.png");
    assert_eq!(file_name("plain"), "plain");
}

#[test]
fn section_reading_figures() {
    let config = Config::new("https://example.com");
    let body = "word ".repeat(450);
    let s = Section::parse(info("content/_index.md", "_index", &[]), SectionFrontMatter::empty(), body, &config);
    assert_eq!(s.word_count, Some(450));
    assert_eq!(s.reading_time, Some(3));
    assert_eq!(s.path, "/");
    assert_eq!(s.permalink, "https://example.com/");
}

#[test]
fn template_names() {
    let config = Config::new("https://example.com");
    let root = section(&[], SectionFrontMatter::empty(), &config);
    assert!(root.is_index());
    assert_eq!(root.get_template_name(), "index.html");
    let posts = section(&["posts"], SectionFrontMatter::empty(), &config);
    assert!(!posts.is_index());
    assert_eq!(posts.get_template_name(), "section.html");
    let mut meta = SectionFrontMatter::empty();
    meta.template = Some("custom.html".to_string());
    let custom = section(&["posts"], meta, &config);
    assert_eq!(custom.get_template_name(), "custom.html");
    let default = Section::default();
    assert!(default.is_index());
}

#[test]
fn page_paths_and_overrides() {
    let config = Config::new("https://example.com");
    let p = page(&["posts"], "simple", PageFrontMatter::empty(), &config);
    assert_eq!(p.path, "posts/simple/");
    assert_eq!(p.permalink, "https://example.com/posts/simple/");
    assert_eq!(p.word_count, Some(3));
    let mut meta = PageFrontMatter::empty();
    meta.slug = Some("renamed".to_string());
    let q = page(&["posts"], "simple", meta, &config);
    assert_eq!(q.permalink, "https://example.com/posts/renamed/");
    let mut meta = PageFrontMatter::empty();
    meta.path = Some("a-fixed-url/".to_string());
    let r = page(&["posts"], "fixed-url", meta, &config);
    assert_eq!(r.path, "a-fixed-url/");
    assert_eq!(r.permalink, "https://example.com/a-fixed-url/");
}

#[test]
fn library_links_sections_and_pages() {
    let config = Config::new("https://example.com");
    let mut lib = Library::new();
    let root = lib.insert_section(section(&[], SectionFrontMatter::empty(), &config));
    let posts = lib.insert_section(section(&["posts"], SectionFrontMatter::empty(), &config));
    let tutorials = lib.insert_section(section(&["posts", "tutorials"], SectionFrontMatter::empty(), &config));
    let devops = lib.insert_section(section(&["posts", "tutorials", "devops"], SectionFrontMatter::empty(), &config));
    let p1 = lib.insert_page(page(&["posts"], "a", PageFrontMatter::empty(), &config));
    let p2 = lib.insert_page(page(&["posts", "tutorials", "devops"], "nix", PageFrontMatter::empty(), &config));
    let mut hidden = PageFrontMatter::empty();
    hidden.in_listing = false;
    let p3 = lib.insert_page(page(&["posts"], "hidden", hidden, &config));
    let p4 = lib.insert_page(page(&["posts", "no-section"], "orphan", PageFrontMatter::empty(), &config));
    assert!(lib.populate().is_ok());

    let s = lib.get_section(devops).unwrap();
    assert_eq!(s.ancestors, vec![root, posts, tutorials]);
    assert_eq!(s.pages, vec![p2]);
    let s = lib.get_section(posts).unwrap();
    assert_eq!(s.ancestors, vec![root]);
    assert_eq!(s.subsections, vec![tutorials]);
    assert_eq!(s.pages, vec![p1, p4]);
    assert_eq!(s.ignored_pages, vec![p3]);
    let s = lib.get_section(root).unwrap();
    assert!(s.ancestors.is_empty());
    assert_eq!(s.subsections, vec![posts]);
    assert_eq!(lib.get_page(p2).unwrap().ancestors, vec![root, posts, tutorials, devops]);
    assert_eq!(lib.get_page(p4).unwrap().ancestors, vec![root, posts]);
    assert!(lib.get_page(devops).is_none());
    assert!(lib.get_section(p1).is_none());
    assert_eq!(lib.find_section_by_path("content/posts/_index.md"), Some(posts));
    assert_eq!(lib.find_page_by_path("content/posts/a.md"), Some(p1));
    assert_eq!(lib.find_page_by_path("content/nothing.md"), None);
}

#[test]
fn page_ancestors_end_with_their_section() {
    let config = Config::new("https://example.com");
    let mut lib = Library::new();
    let mut sections = Vec::new();
    for comps in [vec![], vec!["a"], vec!["a", "b"], vec!["a", "b", "c"]] {
        sections.push(lib.insert_section(section(&comps, SectionFrontMatter::empty(), &config)));
    }
    let p = lib.insert_page(page(&["a", "b", "c"], "leaf", PageFrontMatter::empty(), &config));
    lib.populate().ok().unwrap();
    let leaf = lib.get_section(sections[3]).unwrap();
    let mut expected = leaf.ancestors.clone();
    expected.push(sections[3]);
    assert_eq!(lib.get_page(p).unwrap().ancestors, expected);
    for (depth, key) in sections.iter().enumerate() {
        let s = lib.get_section(*key).unwrap();
        assert_eq!(s.ancestors.len(), depth);
        assert!(!s.ancestors.contains(key));
    }
}

#[test]
fn missing_sort_key_stops_the_build() {
    let config = Config::new("https://example.com");
    let mut lib = Library::new();
    let mut meta = SectionFrontMatter::empty();
    meta.sort_by = SortBy::Date;
    lib.insert_section(section(&["posts"], meta, &config));
    lib.insert_page(page(&["posts"], "undated", PageFrontMatter::empty(), &config));
    match lib.populate() {
        Err(BuildError::MissingSortKey { page, key }) => {
            assert_eq!(page, "content/posts/undated.md");
            assert_eq!(key, SortBy::Date);
        },
        _ => panic!("the build should fail on the missing date"),
    }
}

#[test]
fn duplicate_url_paths_stop_the_build() {
    let config = Config::new("https://example.com");
    let mut lib = Library::new();
    lib.insert_section(section(&["posts"], SectionFrontMatter::empty(), &config));
    lib.insert_page(page(&["posts"], "first", PageFrontMatter::empty(), &config));
    let mut meta = PageFrontMatter::empty();
    meta.slug = Some("first".to_string());
    lib.insert_page(page(&["posts"], "second", meta, &config));
    match lib.populate() {
        Err(BuildError::DuplicatePath { first, second }) => {
            assert_eq!(first, "content/posts/first.md");
            assert_eq!(second, "content/posts/second.md");
        },
        _ => panic!("the build should fail on the shared path"),
    }
    assert!(lib.get_section(lib.sections[0]).unwrap().pages.is_empty());
}

#[test]
fn sections_order_their_pages() {
    let config = Config::new("https://example.com");
    let mut lib = Library::new();
    let mut by_weight = SectionFrontMatter::empty();
    by_weight.sort_by = SortBy::Weight;
    let w = lib.insert_section(section(&["docs"], by_weight, &config));
    let mut by_date = SectionFrontMatter::empty();
    by_date.sort_by = SortBy::Date;
    let d = lib.insert_section(section(&["blog"], by_date, &config));
    let mut docs = Vec::new();
    for (name, weight) in [("c", 3u64), ("a", 1), ("b", 2), ("a2", 1)] {
        let mut meta = PageFrontMatter::empty();
        meta.weight = Some(weight);
        docs.push(lib.insert_page(page(&["docs"], name, meta, &config)));
    }
    let mut posts = Vec::new();
    for (name, date) in [("old", 10u64), ("new", 30), ("mid", 20)] {
        let mut meta = PageFrontMatter::empty();
        meta.date = Some(date);
        posts.push(lib.insert_page(page(&["blog"], name, meta, &config)));
    }
    assert!(lib.populate().is_ok());
    assert_eq!(lib.get_section(w).unwrap().pages, vec![docs[1], docs[3], docs[2], docs[0]]);
    assert_eq!(lib.get_section(d).unwrap().pages, vec![posts[1], posts[2], posts[0]]);
}

#[test]
fn full_tree_of_eleven_sections_and_twenty_two_pages() {
    let config = Config::new("https://example.com");
    let mut lib = Library::new();
    let dirs: Vec<Vec<&str>> = vec![
        vec![],
        vec!["a"],
        vec!["a", "b"],
        vec!["a", "b", "c"],
        vec!["a", "b", "d"],
        vec!["a", "e"],
        vec!["f"],
        vec!["f", "g"],
        vec!["h"],
        vec!["h", "i"],
        vec!["j"],
    ];
    let mut sections = Vec::new();
    for (i, d) in dirs.iter().enumerate() {
        let mut meta = SectionFrontMatter::empty();
        if i == 6 {
            meta.sort_by = SortBy::Weight;
            meta.ignore_unsorted = true;
        }
        sections.push(lib.insert_section(section(d, meta, &config)));
    }
    let mut pages = Vec::new();
    for (i, d) in dirs.iter().enumerate() {
        for n in 0..2 {
            let mut meta = PageFrontMatter::empty();
            if i == 3 && n == 0 {
                meta.path = Some("a-fixed-url/".to_string());
            }
            if i == 6 && n == 1 {
                meta.weight = Some(3);
            }
            pages.push(lib.insert_page(page(d, &format!("p{}", n), meta, &config)));
        }
    }
    assert!(lib.populate().is_ok());
    assert_eq!(lib.sections.len(), 11);
    assert_eq!(lib.pages.len(), 22);
    let fixed = lib.get_page(pages[6]).unwrap();
    assert_eq!(fixed.permalink, "https://example.com/a-fixed-url/");
    assert_eq!(fixed.ancestors.last(), Some(&sections[3]));
    let excluding = lib.get_section(sections[6]).unwrap();
    assert_eq!(excluding.pages, vec![pages[13]]);
    assert_eq!(excluding.ignored_pages, vec![pages[12]]);
    let deepest = lib.get_section(sections[3]).unwrap();
    assert_eq!(deepest.ancestors.len(), 3);
    let total_listed: usize = sections.iter().map(|k| lib.get_section(*k).unwrap().pages.len()).sum();
    let total_ignored: usize = sections.iter().map(|k| lib.get_section(*k).unwrap().ignored_pages.len()).sum();
    assert_eq!(total_listed + total_ignored, 22);
}

#[test]
fn subsections_follow_file_path_order() {
    let config = Config::new("https://example.com");
    let mut lib = Library::new();
    let root = lib.insert_section(section(&[], SectionFrontMatter::empty(), &config));
    let z = lib.insert_section(section(&["zeta"], SectionFrontMatter::empty(), &config));
    let a = lib.insert_section(section(&["alpha"], SectionFrontMatter::empty(), &config));
    let m = lib.insert_section(section(&["mu"], SectionFrontMatter::empty(), &config));
    assert!(lib.populate().is_ok());
    assert_eq!(lib.get_section(root).unwrap().subsections, vec![a, m, z]);
}

#[test]
fn paginated_section_and_plain_section() {
    let config = Config::new("https://example.com");
    let mut lib = Library::new();
    let mut meta = SectionFrontMatter::empty();
    meta.paginate_by = Some(2);
    let s = lib.insert_section(section(&["posts"], meta, &config));
    let plain = lib.insert_section(section(&["misc"], SectionFrontMatter::empty(), &config));
    for n in 0..5 {
        lib.insert_page(page(&["posts"], &format!("p{}", n), PageFrontMatter::empty(), &config));
    }
    assert!(lib.populate().is_ok());
    let sec = lib.get_section(s).unwrap();
    let pagers = sec.paginate(&config.paginate_path).unwrap();
    assert_eq!(pagers.len(), 3);
    assert_eq!(pagers[0].items, vec![lib.pages[0], lib.pages[1]]);
    assert_eq!(pagers[2].items, vec![lib.pages[4]]);
    assert_eq!(pagers[2].permalink, "https://example.com/posts/page/3/");
    assert!(lib.get_section(plain).unwrap().paginate(&config.paginate_path).is_none());
}

#[test]
fn missing_root_section_is_synthesized() {
    let config = Config::new("https://example.com");
    let mut lib = Library::new();
    let posts = lib.insert_section(section(&["posts"], SectionFrontMatter::empty(), &config));
    let root = lib.ensure_index();
    assert_eq!(lib.sections, vec![posts, root]);
    assert!(lib.get_section(root).unwrap().is_index());
    assert_eq!(lib.ensure_index(), root);
    assert_eq!(lib.sections.len(), 2);
    assert!(lib.populate().is_ok());
    assert_eq!(lib.get_section(posts).unwrap().ancestors, vec![root]);
    assert_eq!(lib.get_section(root).unwrap().subsections, vec![posts]);
}

#[test]
fn a_page_on_a_section_url_stops_the_build() {
    let config = Config::new("https://example.com");
    let mut lib = Library::new();
    lib.insert_section(section(&["posts"], SectionFrontMatter::empty(), &config));
    let mut meta = PageFrontMatter::empty();
    meta.path = Some("posts/".to_string());
    lib.insert_page(page(&["misc"], "x", meta, &config));
    match lib.populate() {
        Err(BuildError::DuplicatePath { first, second }) => {
            assert_eq!(first, "content/posts/_index.md");
            assert_eq!(second, "content/misc/x.md");
        },
        _ => panic!("the build should fail on the shared URL"),
    }
}

#[test]
fn weights_order_subsections_before_paths() {
    let config = Config::new("https://example.com");
    let mut lib = Library::new();
    let root = lib.insert_section(section(&[], SectionFrontMatter::empty(), &config));
    let mut heavy = SectionFrontMatter::empty();
    heavy.weight = Some(2);
    let programming = lib.insert_section(section(&["programming"], heavy, &config));
    let mut light = SectionFrontMatter::empty();
    light.weight = Some(1);
    let devops = lib.insert_section(section(&["devops"], light, &config));
    let zeta = lib.insert_section(section(&["zeta"], SectionFrontMatter::empty(), &config));
    let alpha = lib.insert_section(section(&["alpha"], SectionFrontMatter::empty(), &config));
    assert!(lib.populate().is_ok());
    assert_eq!(lib.get_section(root).unwrap().subsections, vec![devops, programming, alpha, zeta]);
}

#[test]
fn assets_without_a_file_name_are_left_out() {
    let config = Config::new("https://example.com");
    let mut s = section(&["posts"], SectionFrontMatter::empty(), &config);
    s.assets = vec!["content/posts/a.png".to_string(), "content/posts/sub/".to_string(), "content/posts/..".to_string()];
    assert_eq!(s.serialize_assets(), vec!["posts/a.png".to_string()]);
}
