use photors::dedup::{content_hash, deletion_targets, find_duplicates, hex_digest, HashedPath};

fn hp(path: &str, hash: &str) -> HashedPath {
    HashedPath { path: path.to_string(), hash: hash.to_string() }
}

#[test]
fn sha256_hex_of_known_inputs() {
    assert_eq!(
        content_hash(b"abc"),
        "ba7816bf8f01cfea414140de5dae2223b00361a396177a9cb410ff61f20015ad"
    );
    assert_eq!(
        content_hash(b""),
        "e3b0c44298fc1c149afbf4c8996fb92427ae41e4649b934ca495991b7852b855"
    );
}

#[test]
fn groups_only_real_duplicates() {
    let entries = vec![
        hp("d/z.jpg", "h1"),
        hp("d/a.jpg", "h2"),
        hp("d/b.jpg", "h1"),
        hp("d/c.jpg", "h3"),
        hp("d/a2.jpg", "h2"),
        hp("d/y.jpg", "h1"),
    ];
    let groups = find_duplicates(&entries);
    // Groups ordered by their first path in input order: d/z.jpg (h1) after d/a.jpg (h2).
    assert_eq!(
        groups,
        vec![
            vec!["d/a.jpg".to_string(), "d/a2.jpg".to_string()],
            vec!["d/b.jpg".to_string(), "d/y.jpg".to_string(), "d/z.jpg".to_string()],
        ]
    );
}

#[test]
fn no_duplicates_gives_no_groups() {
    let entries = vec![hp("a", "1"), hp("b", "2")];
    assert!(find_duplicates(&entries).is_empty());
    assert!(find_duplicates(&Vec::new()).is_empty());
}

#[test]
fn groups_sort_paths_by_component() {
    let entries = vec![hp("2020-old/x.jpg", "h"), hp("2020/x.jpg", "h")];
    let groups = find_duplicates(&entries);
    assert_eq!(groups, vec![vec!["2020/x.jpg".to_string(), "2020-old/x.jpg".to_string()]]);
}

#[test]
fn deletion_keeps_first_of_each_group() {
    let groups = vec![
        vec!["a".to_string(), "b".to_string(), "c".to_string()],
        vec!["d".to_string(), "e".to_string()],
        vec![],
    ];
    assert_eq!(deletion_targets(&groups), vec!["b", "c", "e"]);
}

#[test]
fn a_path_listed_twice_is_one_file() {
    let entries = vec![hp("d/p.jpg", "h"), hp("d/p.jpg", "h")];
    assert!(find_duplicates(&entries).is_empty());
    let entries = vec![hp("d/p.jpg", "h"), hp("d/q.jpg", "h"), hp("d/p.jpg", "h")];
    assert_eq!(find_duplicates(&entries), vec![vec!["d/p.jpg".to_string(), "d/q.jpg".to_string()]]);
}

#[test]
fn hex_of_bytes() {
    assert_eq!(hex_digest(&[0x00, 0x0f, 0xa5, 0xff]), "000fa5ff");
    assert_eq!(hex_digest(&[]), "");
}

#[test]
fn paths_in_neither_order_keep_their_input_order() {
    let entries = vec![hp("d//a", "h"), hp("d/a", "h"), hp("c/a", "h")];
    assert_eq!(
        find_duplicates(&entries),
        vec![vec!["c/a".to_string(), "d//a".to_string(), "d/a".to_string()]]
    );
    let entries = vec![hp("d/a", "h"), hp("d//a", "h")];
    assert_eq!(find_duplicates(&entries), vec![vec!["d/a".to_string(), "d//a".to_string()]]);
}
