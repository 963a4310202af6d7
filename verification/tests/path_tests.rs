use photors::order::path_less;
use photors::path::{extension, file_name, file_stem, join_path};

#[test]
fn join_paths() {
    assert_eq!(join_path("dest", "2024"), "dest/2024");
    assert_eq!(join_path("dest/", "2024"), "dest/2024");
    assert_eq!(join_path("", "2024"), "2024");
    assert_eq!(join_path("dest", "/abs"), "/abs");
    assert_eq!(join_path("dest", ""), "dest/");
}

#[test]
fn file_names() {
    assert_eq!(file_name("a/b/c.jpg").as_deref(), Some("c.jpg"));
    assert_eq!(file_name("a/b/").as_deref(), Some("b"));
    assert_eq!(file_name("a/b/.").as_deref(), Some("b"));
    assert_eq!(file_name("a/.."), None);
    assert_eq!(file_name("/"), None);
    assert_eq!(file_name(""), None);
    assert_eq!(file_name("."), None);
}

#[test]
fn stems_and_extensions() {
    assert_eq!(file_stem("a/PXL_1.TS.mp4").as_deref(), Some("PXL_1.TS"));
    assert_eq!(extension("a/PXL_1.TS.mp4").as_deref(), Some("mp4"));
    assert_eq!(file_stem("a/.bashrc").as_deref(), Some(".bashrc"));
    assert_eq!(extension("a/.bashrc"), None);
    assert_eq!(file_stem("a/noext").as_deref(), Some("noext"));
    assert_eq!(extension("a/noext"), None);
    assert_eq!(file_stem("a/x.").as_deref(), Some("x"));
    assert_eq!(extension("a/x.").as_deref(), Some(""));
    assert_eq!(file_stem("a/.."), None);
}

#[test]
fn path_order_is_by_component() {
    // Component order differs from plain text order here.
    assert!(path_less("2020/x.jpg", "2020-old/x.jpg"));
    assert!(!path_less("2020-old/x.jpg", "2020/x.jpg"));
    assert!(path_less("a/b", "a/c"));
    assert!(path_less("a", "a/b"));
    assert!(!path_less("a/./b", "a/b"));
    assert!(!path_less("a/b", "a//b"));
    assert!(path_less("/z", "a"));
    assert!(path_less("./z", "a"));
    assert!(path_less("../z", "a"));
}
