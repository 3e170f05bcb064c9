use spider::download::{candidate_name, decimal_digits, file_name, temp_name, Claim, NameRegistry};

fn s(v: Vec<u8>) -> String {
    String::from_utf8(v).unwrap()
}

#[test]
fn file_name_is_last_path_segment() {
    assert_eq!(s(file_name(b"https://x.test/img/photo.jpg?size=2")), "photo.jpg");
    assert_eq!(s(file_name(b"https://x.test/")), "image");
    assert_eq!(s(file_name(b"https://x.test/a/b%20c.png")), "b_20c.png");
    assert_eq!(s(file_name(b"https://x.test/.hidden")), "_hidden");
}

#[test]
fn candidates_number_before_the_extension() {
    assert_eq!(s(candidate_name(b"photo.jpg", 0)), "photo.jpg");
    assert_eq!(s(candidate_name(b"photo.jpg", 1)), "photo-1.jpg");
    assert_eq!(s(candidate_name(b"photo.jpg", 12)), "photo-12.jpg");
    assert_eq!(s(candidate_name(b"noext", 2)), "noext-2");
    assert_eq!(s(candidate_name(b"archive.tar.gz", 1)), "archive.tar-1.gz");
}

#[test]
fn decimal_digits_are_exact() {
    assert_eq!(s(decimal_digits(0)), "0");
    assert_eq!(s(decimal_digits(907)), "907");
}

#[test]
fn two_sources_with_one_file_name_get_two_files() {
    let mut reg = NameRegistry::new();
    let first = reg.claim(b"https://a.test/x/image1.jpg");
    let second = reg.claim(b"https://b.test/y/image1.jpg");
    match (first, second) {
        (Claim::Fresh(a), Claim::Fresh(b)) => {
            assert_eq!(s(a), "image1.jpg");
            assert_eq!(s(b), "image1-1.jpg");
        }
        _ => panic!("both sources should get a name"),
    }
    assert!(matches!(reg.claim(b"https://a.test/x/image1.jpg"), Claim::Taken));
}

#[test]
fn temp_name_never_looks_finished() {
    let t = s(temp_name(b"image1.jpg"));
    assert_eq!(t, ".image1.jpg.part");
    assert_ne!(t, "image1.jpg");
    assert!(t.starts_with('.'));
}
