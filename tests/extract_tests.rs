use spider::extract::{extract, RefKind};

const BASE: &[u8] = b"https://x.test/dir/";
const PAGE: &[u8] = b"<html><a href=\"/first\">one</a> <img src=\"img/a.png\">\n<img data-src='lazy.jpg'>\
<a href=\"/first\">again</a> <a href=\"mailto:x@x.test\">mail</a> <a HREF=\"second#sec\">two</a>";

fn strings(v: Vec<Vec<u8>>) -> Vec<String> {
    v.into_iter().map(|u| String::from_utf8(u).unwrap()).collect()
}

#[test]
fn page_links_are_normalized_and_deduplicated() {
    assert_eq!(
        strings(extract(PAGE, BASE, RefKind::Page)),
        vec!["https://x.test/first".to_string(), "https://x.test/dir/second".to_string()]
    );
}

#[test]
fn image_sources_include_lazy_sources() {
    assert_eq!(
        strings(extract(PAGE, BASE, RefKind::Image)),
        vec!["https://x.test/dir/img/a.png".to_string(), "https://x.test/dir/lazy.jpg".to_string()]
    );
}

#[test]
fn malformed_markup_yields_what_was_found() {
    let html = b"<a href=\"ok.html\"> <a href=\"never closed";
    assert_eq!(strings(extract(html, BASE, RefKind::Page)), vec!["https://x.test/dir/ok.html".to_string()]);
    assert!(extract(b"", BASE, RefKind::Page).is_empty());
    assert!(extract(b"<<<>>>\"'=", BASE, RefKind::Image).is_empty());
}

#[test]
fn invalid_base_drops_every_link() {
    assert!(extract(PAGE, b"not a url", RefKind::Page).is_empty());
}
