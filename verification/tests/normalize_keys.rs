use crawler::normalize::normalize;
use regex::Regex;

/// The same key, made with a regular expression: scheme, optional `www.`,
/// everything up to the first `?`, then one trailing `/` less.
fn key_by_pattern(url: &str) -> String {
    let re = Regex::new(r"^https?://(www\.)?([^?]*).*").unwrap();
    let replaced = re.replace(url, "$2").to_string();
    match replaced.strip_suffix('/') {
        Some(shorter) => shorter.to_string(),
        None => replaced,
    }
}

#[test]
fn scheme_www_and_slash_give_one_key() {
    assert_eq!(normalize("https://www.cnn.com/"), "cnn.com");
    assert_eq!(normalize("http://cnn.com"), "cnn.com");
    assert_eq!(normalize("https://www.cnn.com/"), normalize("http://cnn.com"));
}

#[test]
fn query_is_dropped() {
    assert_eq!(normalize("https://a.com/x?utm=1&b=2"), "a.com/x");
    assert_eq!(normalize("https://a.com/x/?utm=1"), "a.com/x");
    assert_eq!(normalize("https://a.com/x?a?b"), "a.com/x");
    assert_eq!(normalize("https://a.com?"), "a.com");
}

#[test]
fn urls_that_differ_in_what_is_stripped_share_a_key() {
    let variants = [
        "http://example.org/news",
        "https://example.org/news",
        "http://www.example.org/news",
        "https://www.example.org/news/",
        "https://www.example.org/news?ref=front",
        "https://example.org/news/?ref=front&x=1",
    ];
    for v in variants {
        assert_eq!(normalize(v), "example.org/news");
    }
}

#[test]
fn path_and_case_are_kept() {
    assert_eq!(normalize("https://www.A.com/Some/Path.html"), "A.com/Some/Path.html");
    assert_eq!(normalize("HTTP://a.com"), "HTTP://a.com");
    assert_eq!(normalize("https://a.com/x#frag"), "a.com/x#frag");
}

#[test]
fn only_one_trailing_slash_goes() {
    assert_eq!(normalize("http://a.com//"), "a.com/");
    assert_eq!(normalize("a.com/x///"), "a.com/x//");
    assert_eq!(normalize("/"), "");
}

#[test]
fn strings_that_are_no_urls_still_get_a_key() {
    assert_eq!(normalize(""), "");
    assert_eq!(normalize("?"), "");
    assert_eq!(normalize("plain text"), "plain text");
    assert_eq!(normalize("www.a.com/x/?q=1"), "a.com/x");
    assert_eq!(normalize("/section/x/"), "/section/x");
    assert_eq!(normalize("ftp://www.a.com/"), "ftp://www.a.com");
    assert_eq!(normalize("http:/a.com"), "http:/a.com");
    assert_eq!(normalize("https://"), "");
    assert_eq!(normalize("http://www."), "");
}

#[test]
fn www_goes_only_where_it_leads() {
    assert_eq!(normalize("https://www.www.a.com"), "www.a.com");
    assert_eq!(normalize("https://a.www.com"), "a.www.com");
    assert_eq!(normalize("https://wwwa.com"), "wwwa.com");
}

#[test]
fn characters_outside_ascii_are_whole() {
    assert_eq!(normalize("https://www.exämple.com/päth/?q=ü"), "exämple.com/päth");
    assert_eq!(normalize("http://日本.jp/"), "日本.jp");
}

#[test]
fn normalizing_a_settled_key_changes_nothing() {
    let urls = [
        "https://www.cnn.com/",
        "http://cnn.com",
        "https://a.com/x/y?z=1",
        "plain",
        "",
        "https://www.exämple.com/päth/",
    ];
    for u in urls {
        let once = normalize(u);
        assert_eq!(normalize(&once), once);
    }
}

#[test]
fn an_unsettled_key_shrinks_when_normalized_again() {
    let once = normalize("http://a.com//");
    assert_eq!(once, "a.com/");
    assert_eq!(normalize(&once), "a.com");
    let nested = normalize("http://https://a.com");
    assert_eq!(nested, "https://a.com");
    assert_eq!(normalize(&nested), "a.com");
}

#[test]
fn key_agrees_with_the_pattern_on_http_urls() {
    let urls = [
        "https://www.cnn.com",
        "https://www.cnn.com/",
        "http://cnn.com/world/europe?page=2",
        "https://edition.cnn.com/2023/01/01/story/index.html",
        "http://www.a.com/?x",
        "https://a.com/path/",
        "https://www.exämple.com/päth/?q=ü",
        "http://a.com//",
        "https://",
    ];
    for u in urls {
        assert_eq!(normalize(u), key_by_pattern(u), "for {}", u);
    }
}
