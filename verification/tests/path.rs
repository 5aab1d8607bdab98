use nizm::path::{comes_before, directory_of, insert_path, name_of_file};

#[test]
fn paths_compare_by_components() {
    assert!(comes_before("a/z", "a.b/c"));
    assert!(!comes_before("a.b/c", "a/z"));
    assert!(comes_before("a", "a/b"));
    assert!(comes_before("A", "a"));
    assert!(!comes_before("a", "a"));
}

#[test]
fn paths_are_inserted_in_order_and_once() {
    let mut paths: Vec<String> = Vec::new();
    for p in ["b", "a/c", "a", "b", "a/c"] {
        insert_path(&mut paths, p);
    }
    assert_eq!(paths, ["a", "a/c", "b"]);
}

#[test]
fn directories_end_before_the_last_name() {
    assert_eq!(directory_of("a/b/c"), "a/b");
    assert_eq!(directory_of("c"), "");
    assert_eq!(directory_of("./c"), ".");
    assert_eq!(directory_of("a//c"), "a");
    assert_eq!(directory_of("a/./c"), "a");
    assert_eq!(directory_of("../c"), "..");
    assert_eq!(directory_of("/c"), "/");
}

#[test]
fn names_are_the_last_parts_that_name_something() {
    assert_eq!(name_of_file("a/b/c"), Some("c".to_string()));
    assert_eq!(name_of_file("c"), Some("c".to_string()));
    assert_eq!(name_of_file("a/"), Some("a".to_string()));
    assert_eq!(name_of_file("a/."), Some("a".to_string()));
    assert_eq!(name_of_file("a/.."), None);
    assert_eq!(name_of_file("."), None);
    assert_eq!(name_of_file(""), None);
}

#[test]
fn names_and_directories_agree_with_the_standard_library() {
    for p in ["a", "a/b", "a//b", "./a", "a/./b", "a/b/", "a/b/.", "/a", "//a", "/a/b", "..", "a/..", "."] {
        let path = std::path::Path::new(p);
        assert_eq!(name_of_file(p), path.file_name().map(|n| n.to_string_lossy().into_owned()));
        assert_eq!(directory_of(p), path.parent().unwrap().to_string_lossy());
    }
}
