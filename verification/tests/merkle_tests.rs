use sumpig::hash::{FileHash, hash_to_hex};
use sumpig::merkle::{
    EntryType, FlatEntry, compute_manifest, metadata_hash, sort_by_components, synthetic_hash,
};

/// Helper: create a Blake3 FileHash from content bytes.
fn blake3_hash(content: &[u8]) -> FileHash {
    FileHash::Blake3(*blake3::hash(content).as_bytes())
}

/// The components of a relative path written with `/`.
fn comps(path: &str) -> Vec<String> {
    path.split('/').map(|c| c.to_string()).collect()
}

#[test]
fn basic_tree_produces_correct_entries() {
    // Tree: ./a.txt, ./dir/b.txt
    let entries = vec![
        (comps("a.txt"), blake3_hash(b"content_a")),
        (comps("dir/b.txt"), blake3_hash(b"content_b")),
    ];

    let (flat, root_hash) = compute_manifest(&entries, 10);

    // Should have: ./ (root dir), a.txt, dir/, dir/b.txt
    let paths: Vec<&str> = flat.iter().map(|e| e.path.as_str()).collect();
    assert!(paths.contains(&"./"));
    assert!(paths.contains(&"./a.txt"));
    assert!(paths.contains(&"./dir/"));
    assert!(paths.contains(&"./dir/b.txt"));
    assert_eq!(flat.len(), 4);

    // Root hash should be non-zero.
    assert_ne!(root_hash, [0u8; 32]);
}

#[test]
fn deterministic_regardless_of_input_order() {
    let entries_a = vec![
        (comps("a.txt"), blake3_hash(b"a")),
        (comps("b.txt"), blake3_hash(b"b")),
    ];
    let entries_b = vec![
        (comps("b.txt"), blake3_hash(b"b")),
        (comps("a.txt"), blake3_hash(b"a")),
    ];

    // Both should be sorted before calling, so we sort here.
    let mut entries_b_sorted = entries_b;
    entries_b_sorted.sort_by(|a, b| a.0.cmp(&b.0));

    let (_, hash_a) = compute_manifest(&entries_a, 10);
    let (_, hash_b) = compute_manifest(&entries_b_sorted, 10);
    assert_eq!(hash_a, hash_b);
}

#[test]
fn changing_one_file_changes_root_hash() {
    let entries_original = vec![
        (comps("a.txt"), blake3_hash(b"original")),
        (comps("b.txt"), blake3_hash(b"same")),
    ];
    let entries_modified = vec![
        (comps("a.txt"), blake3_hash(b"modified")),
        (comps("b.txt"), blake3_hash(b"same")),
    ];

    let (_, hash_original) = compute_manifest(&entries_original, 10);
    let (_, hash_modified) = compute_manifest(&entries_modified, 10);
    assert_ne!(hash_original, hash_modified);
}

#[test]
fn changing_file_changes_parent_but_not_sibling_dir() {
    // Tree: ./dir_a/file.txt, ./dir_b/file.txt
    let entries_original = vec![
        (comps("dir_a/file.txt"), blake3_hash(b"original")),
        (comps("dir_b/file.txt"), blake3_hash(b"same")),
    ];
    let entries_modified = vec![
        (comps("dir_a/file.txt"), blake3_hash(b"modified")),
        (comps("dir_b/file.txt"), blake3_hash(b"same")),
    ];

    let (flat_orig, _) = compute_manifest(&entries_original, 10);
    let (flat_mod, _) = compute_manifest(&entries_modified, 10);

    let get_hash = |flat: &[FlatEntry], path: &str| -> String {
        flat.iter().find(|e| e.path == path).unwrap().value.clone()
    };

    // dir_a hash should change.
    assert_ne!(
        get_hash(&flat_orig, "./dir_a/"),
        get_hash(&flat_mod, "./dir_a/")
    );
    // dir_b hash should NOT change.
    assert_eq!(
        get_hash(&flat_orig, "./dir_b/"),
        get_hash(&flat_mod, "./dir_b/")
    );
}

#[test]
fn empty_input_produces_root_only() {
    let entries: Vec<(Vec<String>, FileHash)> = vec![];
    let (flat, root_hash) = compute_manifest(&entries, 10);

    assert_eq!(flat.len(), 1);
    assert_eq!(flat[0].path, "./");
    assert_ne!(root_hash, [0u8; 32]);
}

#[test]
fn depth_zero_only_root() {
    let entries = vec![
        (comps("a.txt"), blake3_hash(b"a")),
        (comps("dir/b.txt"), blake3_hash(b"b")),
    ];

    let (flat, _) = compute_manifest(&entries, 0);
    assert_eq!(flat.len(), 1);
    assert_eq!(flat[0].path, "./");
}

#[test]
fn depth_one_root_plus_children() {
    let entries = vec![
        (comps("a.txt"), blake3_hash(b"a")),
        (comps("dir/b.txt"), blake3_hash(b"b")),
    ];

    let (flat, _) = compute_manifest(&entries, 1);
    let paths: Vec<&str> = flat.iter().map(|e| e.path.as_str()).collect();

    // Should include root, a.txt, dir/ but NOT dir/b.txt
    assert!(paths.contains(&"./"));
    assert!(paths.contains(&"./a.txt"));
    assert!(paths.contains(&"./dir/"));
    assert!(!paths.contains(&"./dir/b.txt"));
}

#[test]
fn same_root_hash_regardless_of_depth() {
    let entries = vec![
        (comps("a.txt"), blake3_hash(b"a")),
        (comps("dir/b.txt"), blake3_hash(b"b")),
        (comps("dir/sub/c.txt"), blake3_hash(b"c")),
    ];

    let (_, hash_depth_0) = compute_manifest(&entries, 0);
    let (_, hash_depth_1) = compute_manifest(&entries, 1);
    let (_, hash_depth_6) = compute_manifest(&entries, 6);
    let (_, hash_depth_100) = compute_manifest(&entries, 100);

    assert_eq!(hash_depth_0, hash_depth_1);
    assert_eq!(hash_depth_1, hash_depth_6);
    assert_eq!(hash_depth_6, hash_depth_100);
}

#[test]
fn dataless_contributes_to_dir_hash() {
    let entries_normal = vec![(comps("file.txt"), blake3_hash(b"content"))];
    let entries_dataless = vec![(comps("file.txt"), FileHash::Dataless(12345))];

    let (_, hash_normal) = compute_manifest(&entries_normal, 10);
    let (_, hash_dataless) = compute_manifest(&entries_dataless, 10);
    assert_ne!(hash_normal, hash_dataless);
}

#[test]
fn error_contributes_to_dir_hash() {
    let entries_normal = vec![(comps("file.txt"), blake3_hash(b"content"))];
    let entries_error = vec![(
        comps("file.txt"),
        FileHash::Error("permission denied".to_string()),
    )];

    let (_, hash_normal) = compute_manifest(&entries_normal, 10);
    let (_, hash_error) = compute_manifest(&entries_error, 10);
    assert_ne!(hash_normal, hash_error);
}

#[test]
fn symlink_contributes_to_dir_hash() {
    let entries_normal = vec![(comps("link"), blake3_hash(b"content"))];
    let entries_symlink = vec![(
        comps("link"),
        FileHash::Symlink("/target/path".to_string()),
    )];

    let (_, hash_normal) = compute_manifest(&entries_normal, 10);
    let (_, hash_symlink) = compute_manifest(&entries_symlink, 10);
    assert_ne!(hash_normal, hash_symlink);
}

#[test]
fn flat_entries_have_correct_types() {
    let entries = vec![
        (
            comps("error.txt"),
            FileHash::Error("read error".to_string()),
        ),
        (comps("evicted.dat"), FileHash::Dataless(99)),
        (comps("link"), FileHash::Symlink("/target".to_string())),
        (comps("normal.txt"), blake3_hash(b"data")),
    ];

    let (flat, _) = compute_manifest(&entries, 10);

    let find = |path: &str| flat.iter().find(|e| e.path == path).unwrap();

    assert_eq!(find("./normal.txt").entry_type, EntryType::Blake3);
    assert_eq!(find("./evicted.dat").entry_type, EntryType::Dataless);
    assert_eq!(find("./evicted.dat").value, "99");
    assert_eq!(find("./error.txt").entry_type, EntryType::Error);
    assert_eq!(find("./error.txt").value, "read error");
    assert_eq!(find("./link").entry_type, EntryType::Symlink);
    assert_eq!(find("./link").value, "/target");
    assert_eq!(find("./").entry_type, EntryType::Dir);
}

#[test]
fn directory_entries_have_hex_hashes() {
    let entries = vec![(comps("file.txt"), blake3_hash(b"content"))];

    let (flat, root_hash) = compute_manifest(&entries, 10);
    let root_entry = flat.iter().find(|e| e.path == "./").unwrap();

    assert_eq!(root_entry.entry_type, EntryType::Dir);
    assert_eq!(root_entry.value, hash_to_hex(&root_hash));
}

// Further cases.

/// The hash input a directory feeds for one child.
fn record(name: &str, hash: &[u8; 32]) -> Vec<u8> {
    let mut v = name.as_bytes().to_vec();
    v.push(0);
    v.extend_from_slice(hash);
    v
}

#[test]
fn root_hash_is_blake3_of_child_records() {
    let ha = *blake3::hash(b"a").as_bytes();
    let hb = *blake3::hash(b"b").as_bytes();
    let entries = vec![
        (comps("a.txt"), FileHash::Blake3(ha)),
        (comps("d/b.txt"), FileHash::Blake3(hb)),
    ];
    let (flat, root) = compute_manifest(&entries, 10);
    let dir_hash = *blake3::hash(&record("b.txt", &hb)).as_bytes();
    let mut root_input = record("a.txt", &ha);
    root_input.extend(record("d", &dir_hash));
    assert_eq!(root, *blake3::hash(&root_input).as_bytes());
    let d = flat.iter().find(|e| e.path == "./d/").unwrap();
    assert_eq!(d.value, hash_to_hex(&dir_hash));
    let paths: Vec<&str> = flat.iter().map(|e| e.path.as_str()).collect();
    assert_eq!(paths, vec!["./", "./a.txt", "./d/", "./d/b.txt"]);
}

#[test]
fn synthetic_hash_is_blake3_of_kind_and_value() {
    assert_eq!(
        synthetic_hash("symlink", "/t"),
        *blake3::hash(b"symlink:/t").as_bytes()
    );
    let entries = vec![(comps("x"), FileHash::Dataless(42))];
    let (_, root) = compute_manifest(&entries, 10);
    let expected = *blake3::hash(&record("x", &synthetic_hash("dataless", "42"))).as_bytes();
    assert_eq!(root, expected);
}

#[test]
fn empty_tree_root_is_hash_of_nothing() {
    let entries: Vec<(Vec<String>, FileHash)> = vec![];
    let (flat, root) = compute_manifest(&entries, 0);
    assert_eq!(root, *blake3::hash(b"").as_bytes());
    assert_eq!(flat[0].value, hash_to_hex(&root));
}

#[test]
fn deeper_listing_keeps_every_shallower_entry() {
    let entries = vec![
        (comps("a.txt"), blake3_hash(b"a")),
        (comps("dir/b.txt"), blake3_hash(b"b")),
        (comps("dir/sub/c.txt"), blake3_hash(b"c")),
    ];
    let (shallow, r1) = compute_manifest(&entries, 1);
    let (deep, r2) = compute_manifest(&entries, 3);
    assert_eq!(r1, r2);
    assert_eq!(shallow[0].path, "./");
    assert_eq!(shallow[0].value, deep[0].value);
    for e in &shallow {
        assert!(deep
            .iter()
            .any(|d| d.path == e.path && d.value == e.value && d.entry_type == e.entry_type));
    }
    assert_eq!(shallow.len(), 3);
    assert_eq!(deep.len(), 6);
}

#[test]
fn same_input_gives_same_listing() {
    let entries = vec![
        (comps("x/1"), blake3_hash(b"1")),
        (comps("x/2"), FileHash::Error("e".to_string())),
        (comps("y"), FileHash::Symlink("t".to_string())),
    ];
    let (a, ra) = compute_manifest(&entries, 10);
    let (b, rb) = compute_manifest(&entries, 10);
    assert_eq!(ra, rb);
    let pa: Vec<(String, String)> = a.iter().map(|e| (e.path.clone(), e.value.clone())).collect();
    let pb: Vec<(String, String)> = b.iter().map(|e| (e.path.clone(), e.value.clone())).collect();
    assert_eq!(pa, pb);
}

#[test]
fn sorting_by_components_makes_the_root_independent_of_order() {
    let make = |order: &[&str]| -> Vec<(Vec<String>, FileHash)> {
        order
            .iter()
            .map(|p| (comps(p), blake3_hash(p.as_bytes())))
            .collect()
    };
    let a = sort_by_components(make(&["b/x", "a.txt", "b/a", "a/z"]));
    let b = sort_by_components(make(&["a/z", "b/a", "a.txt", "b/x"]));
    let paths: Vec<Vec<String>> = a.iter().map(|e| e.0.clone()).collect();
    assert_eq!(
        paths,
        vec![comps("a/z"), comps("a.txt"), comps("b/a"), comps("b/x")]
    );
    let (_, ra) = compute_manifest(&a, 10);
    let (_, rb) = compute_manifest(&b, 10);
    assert_eq!(ra, rb);
}

#[test]
fn metadata_hash_covers_size_and_time() {
    assert_eq!(
        metadata_hash(1024, 1700000000, 5),
        *blake3::hash(b"metadata:1024:1700000000.5").as_bytes()
    );
    assert_ne!(metadata_hash(1024, 1700000000, 5), metadata_hash(1025, 1700000000, 5));
}
