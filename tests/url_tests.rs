use spider::url::{canonical, normalize, UrlError};

fn norm(base: &str, reference: &str) -> Result<String, UrlError> {
    normalize(base.as_bytes(), reference.as_bytes()).map(|k| String::from_utf8(k).unwrap())
}

#[test]
fn relative_image_path_joins_gallery_directory() {
    assert_eq!(
        norm("https://x.test/gallery/", "img/a.png"),
        Ok("https://x.test/gallery/img/a.png".to_string())
    );
}

#[test]
fn parent_segments_are_removed_and_fragment_dropped() {
    assert_eq!(
        norm("https://x.test/a/b.html", "../c/d.png#frag"),
        Ok("https://x.test/c/d.png".to_string())
    );
}

#[test]
fn query_only_reference_replaces_query() {
    assert_eq!(norm("https://x.test/a/b?x=1", "?y=2"), Ok("https://x.test/a/b?y=2".to_string()));
}

#[test]
fn fragment_only_reference_is_the_base() {
    assert_eq!(norm("https://x.test/a/b?x=1", "#top"), Ok("https://x.test/a/b?x=1".to_string()));
}

#[test]
fn scheme_relative_reference_keeps_base_scheme() {
    assert_eq!(norm("https://x.test/a/", "//cdn.test/i.png"), Ok("https://cdn.test/i.png".to_string()));
}

#[test]
fn absolute_path_reference_keeps_host_and_query() {
    assert_eq!(norm("http://x.test/a/", "/root.png?q=1"), Ok("http://x.test/root.png?q=1".to_string()));
}

#[test]
fn absolute_reference_is_lowercased_and_gets_a_path() {
    assert_eq!(norm("https://x.test/", "HTTP://Example.COM"), Ok("http://example.com/".to_string()));
}

#[test]
fn trailing_dot_segment_keeps_directory_slash() {
    assert_eq!(norm("https://x.test/a/b/", "./c/./d/.."), Ok("https://x.test/a/b/c/".to_string()));
}

#[test]
fn unsupported_scheme_is_rejected() {
    assert_eq!(norm("https://x.test/", "mailto:me@x.test"), Err(UrlError::UnsupportedScheme));
    assert_eq!(norm("ftp://x.test/", "a.png"), Err(UrlError::UnsupportedScheme));
}

#[test]
fn missing_host_or_scheme_is_malformed() {
    assert_eq!(canonical(b"https://"), Err(UrlError::Malformed));
    assert_eq!(canonical(b"x.test/page"), Err(UrlError::Malformed));
    assert_eq!(canonical(b"https:x.test"), Err(UrlError::Malformed));
}

#[test]
fn equivalent_urls_share_one_key() {
    assert_eq!(canonical(b"HTTPS://X.test/a/./b#f"), canonical(b"https://x.test/a/b"));
    assert_eq!(canonical(b"https://x.test/a/b"), Ok(b"https://x.test/a/b".to_vec()));
}

#[test]
fn distinct_queries_stay_distinct() {
    assert_ne!(canonical(b"https://x.test/p?a=1"), canonical(b"https://x.test/p?a=2"));
}
