use content_graph::toc::table_of_contents;

#[test]
fn headings_nest_under_the_nearest_shallower_one() {
    let body = "# Title\nsome text\n## Sub A\ntext\n### Deep Dive\n## Sub B\n# Second\n#nospace\n####### seven\n";
    let toc = table_of_contents(body);
    let flat: Vec<(usize, &str)> = toc.headings.iter().map(|h| (h.level, h.title.as_str())).collect();
    assert_eq!(flat, vec![(1, "Title"), (2, "Sub A"), (3, "Deep Dive"), (2, "Sub B"), (1, "Second")]);
    assert_eq!(toc.top, vec![0, 4]);
    assert_eq!(toc.headings[0].children, vec![1, 3]);
    assert_eq!(toc.headings[1].children, vec![2]);
    assert!(toc.headings[2].children.is_empty());
    assert_eq!(toc.headings[2].id, "deep-dive");
    assert_eq!(toc.headings[0].id, "title");
}

#[test]
fn a_body_without_headings_has_an_empty_table() {
    let toc = table_of_contents("just text\nand more");
    assert!(toc.headings.is_empty());
    assert!(toc.top.is_empty());
    let toc = table_of_contents("## Starts deep\n# Then top");
    assert_eq!(toc.top, vec![0, 1]);
}
