use futures_tutorial::path::{file_name, file_name_range, path_filename};

fn name(p: &str) -> Option<String> {
    file_name(p)
}

#[test]
fn file_name_of_plain_paths() {
    assert_eq!(name("foo/bar.txt"), Some("bar.txt".to_string()));
    assert_eq!(name("bar.txt"), Some("bar.txt".to_string()));
    assert_eq!(name("/usr/lib/x"), Some("x".to_string()));
    assert_eq!(name("./examples/UCD"), Some("UCD".to_string()));
}

#[test]
fn file_name_skips_empty_and_dot_components() {
    assert_eq!(name("foo/"), Some("foo".to_string()));
    assert_eq!(name("foo//"), Some("foo".to_string()));
    assert_eq!(name("a//b"), Some("b".to_string()));
    assert_eq!(name("foo.txt/."), Some("foo.txt".to_string()));
    assert_eq!(name("a/./."), Some("a".to_string()));
    assert_eq!(name(".hidden"), Some(".hidden".to_string()));
    assert_eq!(name("x/..y"), Some("..y".to_string()));
}

#[test]
fn file_name_none_cases() {
    assert_eq!(name(""), None);
    assert_eq!(name("/"), None);
    assert_eq!(name("."), None);
    assert_eq!(name("./"), None);
    assert_eq!(name(".."), None);
    assert_eq!(name("foo/.."), None);
    assert_eq!(name("/.."), None);
}

#[test]
fn file_name_keeps_unicode() {
    assert_eq!(name("dir/résumé.txt"), Some("résumé.txt".to_string()));
    assert_eq!(name("日本/語"), Some("語".to_string()));
}

#[test]
fn file_name_matches_std() {
    for p in ["a/b", "a/b/", "/", "..", "a/..", "./a", "a/.", "", "x//y//", "é/ü"] {
        let expected = std::path::Path::new(p).file_name().map(|n| n.to_str().unwrap().to_string());
        assert_eq!(name(p), expected, "path {:?}", p);
    }
}

#[test]
fn path_filename_returns_name() {
    assert_eq!(path_filename("examples/UCD/NormalizationTest.txt"), "NormalizationTest.txt");
}

#[test]
fn file_name_range_in_bytes() {
    assert_eq!(file_name_range(b"dir/sub/name.txt/"), Some((8, 16)));
    assert_eq!(file_name_range(b"name"), Some((0, 4)));
    assert_eq!(file_name_range(b"a/.."), None);
    assert_eq!(file_name_range(b"a/\xff\xfe"), Some((2, 4)));
}

#[test]
fn joined_path_has_entry_name() {
    for dir in ["", "/", "a", "a/b/", "/x/./y", ".."] {
        for entry in ["n", "name.txt", "..x", "é"] {
            let joined = std::path::Path::new(dir).join(entry);
            assert_eq!(path_filename(joined.to_str().unwrap()), entry);
        }
    }
}
