use photors::scan::{is_media_file, parse_exts, select_media_files, ScanEntry, DEFAULT_EXTS};

fn sorted(mut v: Vec<String>) -> Vec<String> {
    v.sort();
    v
}

#[test]
fn extension_list_is_normalized() {
    let exts = parse_exts(" JPG, png,,jpg , Heic ");
    assert_eq!(sorted(exts), vec!["heic", "jpg", "png"]);
}

#[test]
fn default_extensions() {
    let exts = parse_exts(DEFAULT_EXTS);
    assert_eq!(
        sorted(exts),
        vec!["avi", "heic", "jpeg", "jpg", "m4v", "mov", "mp4", "png"]
    );
}

#[test]
fn empty_extension_list() {
    assert!(parse_exts("").is_empty());
    assert!(parse_exts(" , ,").is_empty());
}

#[test]
fn media_files_are_filtered() {
    let allowed = parse_exts("jpg,mp4");
    assert!(is_media_file("a/B.JPG", false, &allowed));
    assert!(!is_media_file("a/B.JPG", true, &allowed));
    assert!(!is_media_file("a/notes.txt", false, &allowed));
    assert!(!is_media_file("a/jpg", false, &allowed));
    let entries = vec![
        ScanEntry { path: "p/a.jpg".to_string(), is_dir: false },
        ScanEntry { path: "p/sub.jpg".to_string(), is_dir: true },
        ScanEntry { path: "p/b.txt".to_string(), is_dir: false },
        ScanEntry { path: "p/c.MP4".to_string(), is_dir: false },
    ];
    assert_eq!(select_media_files(&entries, &allowed), vec!["p/a.jpg", "p/c.MP4"]);
}

#[test]
fn parsing_the_joined_list_again_gives_the_same_list() {
    let first = parse_exts(" JPG, png,,jpg , Heic ");
    let again = parse_exts(&first.join(","));
    assert_eq!(sorted(again), sorted(first));
}
