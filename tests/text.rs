use content_graph::config::Config;
use content_graph::text::{decimal_string, join_path, reading_time, word_count};

#[test]
fn decimal_digits() {
    assert_eq!(decimal_string(0), "0");
    assert_eq!(decimal_string(7), "7");
    assert_eq!(decimal_string(1203), "1203");
}

#[test]
fn words_and_reading_time() {
    assert_eq!(word_count(""), 0);
    assert_eq!(word_count("  hello \n world\tagain  "), 3);
    assert_eq!(word_count("héllo wörld"), 2);
    assert_eq!(word_count("a\u{3000}b"), 2);
    assert_eq!(word_count("a\u{a0}b\u{2028}c\u{85}d"), 4);
    assert_eq!(reading_time(0), 1);
    assert_eq!(reading_time(200), 1);
    assert_eq!(reading_time(201), 2);
    assert_eq!(reading_time(1000), 5);
}

#[test]
fn url_paths_from_components() {
    assert_eq!(join_path(&vec![]), "/");
    assert_eq!(join_path(&vec!["posts".to_string()]), "posts/");
    assert_eq!(join_path(&vec!["posts".to_string(), "with-assets".to_string()]), "posts/with-assets/");
}

#[test]
fn permalinks_have_one_slash_between_base_and_path() {
    let c = Config::new("http://a-website.com");
    assert_eq!(c.make_permalink("posts/with-assets/"), "http://a-website.com/posts/with-assets/");
    assert_eq!(c.make_permalink("/"), "http://a-website.com/");
    let d = Config::new("http://a-website.com/");
    assert_eq!(d.make_permalink("/posts/"), "http://a-website.com/posts/");
    assert_eq!(d.paginate_path, "page");
}
