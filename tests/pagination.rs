use content_graph::pagination::paginate;

fn s(x: &str) -> String {
    x.to_string()
}

#[test]
fn ten_items_by_two_make_five_full_pagers() {
    let items: Vec<u32> = (0..10).collect();
    let pagers = paginate(&items, 2, &s("https://example.com/posts/"), &s("page"));
    assert_eq!(pagers.len(), 5);
    for (i, p) in pagers.iter().enumerate() {
        assert_eq!(p.items.len(), 2);
        assert_eq!(p.index, i + 1);
        assert_eq!(p.total, 5);
        assert_eq!(p.items, vec![2 * i as u32, 2 * i as u32 + 1]);
    }
    assert!(!pagers[0].has_prev());
    assert!(pagers[0].has_next());
    assert!(pagers[4].has_prev());
    assert!(!pagers[4].has_next());
    let total: usize = pagers.iter().map(|p| p.items.len()).sum();
    assert_eq!(total, 10);
}

#[test]
fn pager_urls_use_the_segment_after_the_first() {
    let items: Vec<u32> = (0..10).collect();
    let pagers = paginate(&items, 2, &s("https://example.com/posts/"), &s("page"));
    assert_eq!(pagers[0].permalink, "https://example.com/posts/");
    assert_eq!(pagers[1].permalink, "https://example.com/posts/page/2/");
    assert_eq!(pagers[0].first, "https://example.com/posts/");
    assert_eq!(pagers[0].last, "https://example.com/posts/page/5/");
    assert_eq!(pagers[2].previous, Some(s("https://example.com/posts/page/2/")));
    assert_eq!(pagers[2].next, Some(s("https://example.com/posts/page/4/")));
    assert_eq!(pagers[1].previous, Some(s("https://example.com/posts/")));
}

#[test]
fn empty_listing_has_one_empty_pager() {
    let items: Vec<u32> = Vec::new();
    let pagers = paginate(&items, 3, &s("https://example.com/"), &s("page"));
    assert_eq!(pagers.len(), 1);
    assert_eq!(pagers[0].items.len(), 0);
    assert!(!pagers[0].has_prev());
    assert!(!pagers[0].has_next());
    assert_eq!(pagers[0].permalink, "https://example.com/");
    assert_eq!(pagers[0].last, "https://example.com/");
}

#[test]
fn last_pager_holds_the_rest() {
    let items: Vec<u32> = (0..7).collect();
    let pagers = paginate(&items, 3, &s("https://example.com/tags/a/"), &s("p"));
    assert_eq!(pagers.len(), 3);
    assert_eq!(pagers[2].items, vec![6]);
    assert_eq!(pagers[2].permalink, "https://example.com/tags/a/p/3/");
}

#[test]
fn double_digit_pager_index() {
    let items: Vec<u32> = (0..12).collect();
    let pagers = paginate(&items, 1, &s("https://example.com/"), &s("page"));
    assert_eq!(pagers.len(), 12);
    assert_eq!(pagers[11].permalink, "https://example.com/page/12/");
}

#[test]
fn same_input_gives_same_urls() {
    let items: Vec<u32> = (0..9).collect();
    let a = paginate(&items, 4, &s("https://example.com/posts/"), &s("page"));
    let b = paginate(&items, 4, &s("https://example.com/posts/"), &s("page"));
    assert_eq!(a.len(), b.len());
    for (x, y) in a.iter().zip(b.iter()) {
        assert_eq!(x.permalink, y.permalink);
        assert_eq!(x.previous, y.previous);
        assert_eq!(x.next, y.next);
        assert_eq!(x.items, y.items);
    }
}
