use content_graph::config::Config;
use content_graph::taxonomy::{build_taxonomy, fold_terms, Taxonomy, TaxonomyConfig};
use slotmap::{DefaultKey, SlotMap};

fn keys(n: usize) -> Vec<DefaultKey> {
    let mut sm: SlotMap<DefaultKey, usize> = SlotMap::new();
    (0..n).map(|i| sm.insert(i)).collect()
}

#[test]
fn alternating_terms_split_evenly() {
    let k = keys(22);
    let terms: Vec<Vec<String>> =
        (0..22).map(|i| vec![if i % 2 == 0 { "A".to_string() } else { "B".to_string() }]).collect();
    let drafts = vec![false; 22];
    let config = Config::new("https://example.com");
    let t = build_taxonomy(&"categories".to_string(), &k, &terms, &drafts, &vec![0; 22], false, &config);
    assert_eq!(t.kind, "categories");
    assert_eq!(t.items.len(), 2);
    let a = t.items.iter().find(|i| i.name == "A").unwrap();
    let b = t.items.iter().find(|i| i.name == "B").unwrap();
    assert_eq!(a.pages.len(), 11);
    assert_eq!(b.pages.len(), 11);
    assert_eq!(a.pages[0], k[0]);
    assert_eq!(b.pages[10], k[21]);
    assert_eq!(a.slug, "a");
    assert_eq!(a.permalink, "https://example.com/categories/a/");
}

#[test]
fn drafts_and_empty_pages_count_for_nothing() {
    let k = keys(4);
    let terms: Vec<Vec<String>> = vec![
        vec!["Rust Lang".to_string(), "rust lang".to_string()],
        vec![],
        vec!["Only Draft".to_string()],
        vec!["Rust Lang".to_string(), "Rust Lang".to_string()],
    ];
    let drafts = vec![false, false, true, false];
    let config = Config::new("https://example.com/");
    let t = build_taxonomy(&"tags".to_string(), &k, &terms, &drafts, &vec![0; 4], false, &config);
    let names: Vec<&str> = t.items.iter().map(|i| i.name.as_str()).collect();
    assert_eq!(names, vec!["Rust Lang", "rust lang"]);
    assert_eq!(t.items[0].pages, vec![k[0], k[3]]);
    assert_eq!(t.items[1].pages, vec![k[0]]);
    assert_eq!(t.items[0].slug, "rust-lang");
    assert_eq!(t.items[0].permalink, "https://example.com/tags/rust-lang/");
}

#[test]
fn term_listing_paginates_under_its_url() {
    let k = keys(5);
    let terms: Vec<Vec<String>> = (0..5).map(|_| vec!["x".to_string()]).collect();
    let config = Config::new("https://example.com");
    let t = build_taxonomy(&"tags".to_string(), &k, &terms, &vec![false; 5], &vec![0; 5], false, &config);
    let pagers = t.items[0].paginate(2, &"page".to_string());
    assert_eq!(pagers.len(), 3);
    assert_eq!(pagers[0].permalink, "https://example.com/tags/x/");
    assert_eq!(pagers[2].permalink, "https://example.com/tags/x/page/3/");
    assert_eq!(pagers[2].items, vec![k[4]]);
}

#[test]
fn case_insensitive_kinds_merge_terms() {
    let k = keys(3);
    let terms: Vec<Vec<String>> = vec![vec!["Rust".to_string()], vec!["rust".to_string()], vec!["Go".to_string()]];
    let config = Config::new("https://example.com");
    let insensitive = TaxonomyConfig { name: "tags".to_string(), paginate_by: None, case_sensitive: false };
    let t = Taxonomy::build(&insensitive, &k, &terms, &vec![false; 3], &vec![0; 3], false, &config);
    let names: Vec<&str> = t.items.iter().map(|i| i.name.as_str()).collect();
    assert_eq!(names, vec!["rust", "go"]);
    assert_eq!(t.items[0].pages, vec![k[0], k[1]]);
    let sensitive = TaxonomyConfig { name: "tags".to_string(), paginate_by: Some(2), case_sensitive: true };
    let t = Taxonomy::build(&sensitive, &k, &terms, &vec![false; 3], &vec![0; 3], false, &config);
    assert_eq!(t.items.len(), 3);
    assert_eq!(fold_terms(&vec![vec!["ÀBC Def".to_string()]]), vec![vec!["àbc def".to_string()]]);
}

#[test]
fn term_pages_follow_the_pages_own_order() {
    let k = keys(4);
    let terms: Vec<Vec<String>> = (0..4).map(|_| vec!["t".to_string()]).collect();
    let dates = vec![10, 40, 20, 40];
    let config = Config::new("https://example.com");
    let t = build_taxonomy(&"tags".to_string(), &k, &terms, &vec![false; 4], &dates, true, &config);
    assert_eq!(t.items[0].pages, vec![k[1], k[3], k[2], k[0]]);
    let t = build_taxonomy(&"tags".to_string(), &k, &terms, &vec![false; 4], &dates, false, &config);
    assert_eq!(t.items[0].pages, vec![k[0], k[2], k[1], k[3]]);
}
