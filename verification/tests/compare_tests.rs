use sumpig::compare::{ChangedEntry, CompareResult, compare_manifests, format_report};
use sumpig::hash::{FileHash, hash_to_hex};
use sumpig::manifest::{ManifestEntry, ManifestHeader, parse_manifest, write_manifest};
use sumpig::merkle::compute_manifest;
use sumpig::merkle::EntryType;

fn entry(entry_type: EntryType, value: &str, path: &str) -> ManifestEntry {
    ManifestEntry {
        entry_type,
        value: value.to_string(),
        path: path.to_string(),
    }
}

fn dir(value: &str, path: &str) -> ManifestEntry {
    entry(EntryType::Dir, value, path)
}

fn file(value: &str, path: &str) -> ManifestEntry {
    entry(EntryType::Blake3, value, path)
}

fn changed(path: &str, value1: &str, value2: &str) -> ChangedEntry {
    ChangedEntry {
        path: path.to_string(),
        value1: value1.to_string(),
        value2: value2.to_string(),
    }
}

fn result_with(
    host1: &str,
    host2: &str,
    changed_dirs: Vec<ChangedEntry>,
    changed_files: Vec<ChangedEntry>,
    only_in_first: Vec<String>,
    only_in_second: Vec<String>,
) -> CompareResult {
    CompareResult {
        identical: false,
        host1: host1.to_string(),
        host2: host2.to_string(),
        changed_dirs,
        changed_files,
        only_in_first,
        only_in_second,
        dataless_warnings: vec![],
        error_warnings: vec![],
    }
}

#[test]
fn identical_manifests() {
    let entries = vec![dir("aaa", "./"), file("bbb", "./file.txt")];

    let result = compare_manifests(&entries, &entries, "host1", "host2");
    assert!(result.identical);
    assert!(result.changed_dirs.is_empty());
    assert!(result.changed_files.is_empty());
    assert!(result.only_in_first.is_empty());
    assert!(result.only_in_second.is_empty());
}

#[test]
fn one_file_differs() {
    let entries1 = vec![
        dir("root1", "./"),
        dir("dir1", "./dir/"),
        file("aaa", "./dir/file.txt"),
    ];
    let entries2 = vec![
        dir("root2", "./"),
        dir("dir2", "./dir/"),
        file("bbb", "./dir/file.txt"),
    ];

    let result = compare_manifests(&entries1, &entries2, "h1", "h2");
    assert!(!result.identical);
    assert_eq!(result.changed_files.len(), 1);
    assert_eq!(result.changed_files[0].path, "./dir/file.txt");
    assert_eq!(result.changed_files[0].value1, "aaa");
    assert_eq!(result.changed_files[0].value2, "bbb");
    // Parent dirs with different hashes should appear in changed_dirs.
    assert!(result.changed_dirs.iter().any(|d| d.path == "./dir/"));
}

#[test]
fn file_only_in_first() {
    let entries1 = vec![
        dir("root1", "./"),
        file("aaa", "./exists.txt"),
        file("bbb", "./gone.txt"),
    ];
    let entries2 = vec![dir("root2", "./"), file("aaa", "./exists.txt")];

    let result = compare_manifests(&entries1, &entries2, "h1", "h2");
    assert!(!result.identical);
    assert!(result.only_in_first.contains(&"./gone.txt".to_string()));
}

#[test]
fn file_only_in_second() {
    let entries1 = vec![dir("root1", "./"), file("aaa", "./exists.txt")];
    let entries2 = vec![
        dir("root2", "./"),
        file("aaa", "./exists.txt"),
        file("ccc", "./added.txt"),
    ];

    let result = compare_manifests(&entries1, &entries2, "h1", "h2");
    assert!(!result.identical);
    assert!(result.only_in_second.contains(&"./added.txt".to_string()));
}

#[test]
fn directory_only_in_one() {
    let entries1 = vec![
        dir("root1", "./"),
        dir("d1", "./extra_dir/"),
        file("f1", "./extra_dir/file.txt"),
    ];
    let entries2 = vec![dir("root2", "./")];

    let result = compare_manifests(&entries1, &entries2, "h1", "h2");
    assert!(!result.identical);
    assert!(result.only_in_first.contains(&"./extra_dir/".to_string()));
    assert!(
        result
            .only_in_first
            .contains(&"./extra_dir/file.txt".to_string())
    );
}

#[test]
fn merkle_skip_matching_directory() {
    // Both manifests have dir/ with the same hash but different file entries listed.
    // The Merkle skip should mean dir/'s children are NOT compared.
    let entries1 = vec![
        dir("root1", "./"),
        dir("same_hash", "./dir/"),
        file("aaa", "./dir/file.txt"),
        file("xxx", "./other.txt"),
    ];
    let entries2 = vec![
        dir("root2", "./"),
        dir("same_hash", "./dir/"),
        file("bbb", "./dir/file.txt"), // Different file hash, but dir hash matches!
        file("yyy", "./other.txt"),
    ];

    let result = compare_manifests(&entries1, &entries2, "h1", "h2");
    // dir/ hashes match, so children should be skipped.
    // Only other.txt should show as changed.
    assert!(!result.identical);
    assert!(
        !result
            .changed_files
            .iter()
            .any(|f| f.path == "./dir/file.txt"),
        "dir/file.txt should be skipped because dir/ hashes match"
    );
    assert!(result.changed_files.iter().any(|f| f.path == "./other.txt"));
}

#[test]
fn dataless_entry_produces_warning() {
    let entries1 = vec![dir("root1", "./"), file("aaa", "./file.txt")];
    let entries2 = vec![
        dir("root2", "./"),
        entry(EntryType::Dataless, "12345", "./file.txt"),
    ];

    let result = compare_manifests(&entries1, &entries2, "h1", "h2");
    assert!(!result.dataless_warnings.is_empty());
    assert!(result.dataless_warnings.contains(&"./file.txt".to_string()));
}

#[test]
fn dataless_both_sides_still_warns() {
    let entries1 = vec![
        dir("root1", "./"),
        entry(EntryType::Dataless, "12345", "./file.txt"),
    ];
    let entries2 = vec![
        dir("root2", "./"),
        entry(EntryType::Dataless, "12345", "./file.txt"),
    ];

    let result = compare_manifests(&entries1, &entries2, "h1", "h2");
    assert!(!result.dataless_warnings.is_empty());
}

#[test]
fn error_entry_produces_warning() {
    let entries1 = vec![
        dir("root1", "./"),
        entry(EntryType::Error, "permission denied", "./locked.db"),
    ];
    let entries2 = vec![dir("root2", "./"), file("aaa", "./locked.db")];

    let result = compare_manifests(&entries1, &entries2, "h1", "h2");
    assert!(!result.error_warnings.is_empty());
    assert!(result.error_warnings.contains(&"./locked.db".to_string()));
}

#[test]
fn compact_identical_stdout_empty() {
    let result = CompareResult {
        identical: true,
        host1: "mac1".to_string(),
        host2: "mac2".to_string(),
        changed_dirs: vec![],
        changed_files: vec![],
        only_in_first: vec![],
        only_in_second: vec![],
        dataless_warnings: vec![],
        error_warnings: vec![],
    };

    let report = format_report(&result, false);
    assert!(report.stdout.is_empty());
    assert!(report.stderr.contains("identical"));
}

#[test]
fn compact_changed_file_uses_bang_prefix() {
    let result = result_with(
        "cardinal",
        "macstudio",
        vec![changed("./", "aaa", "bbb")],
        vec![changed("./file.txt", "aaa", "bbb")],
        vec![],
        vec![],
    );

    let report = format_report(&result, false);
    assert!(report.stdout.contains("!\t./file.txt\n"));
    // Changed dirs should NOT appear in default compact output.
    assert!(!report.stdout.contains("./\n"));
}

#[test]
fn compact_only_in_first_uses_less_than_prefix() {
    let result = result_with(
        "cardinal",
        "macstudio",
        vec![],
        vec![],
        vec!["./gone.txt".to_string()],
        vec![],
    );

    let report = format_report(&result, false);
    assert!(report.stdout.contains("<\t./gone.txt\n"));
}

#[test]
fn compact_only_in_second_uses_greater_than_prefix() {
    let result = result_with(
        "cardinal",
        "macstudio",
        vec![],
        vec![],
        vec![],
        vec!["./added.txt".to_string()],
    );

    let report = format_report(&result, false);
    assert!(report.stdout.contains(">\t./added.txt\n"));
}

#[test]
fn compact_summary_on_stderr() {
    let result = result_with(
        "cardinal",
        "macstudio",
        vec![],
        vec![changed("./file.txt", "aaa", "bbb")],
        vec!["./gone.txt".to_string()],
        vec![],
    );

    let report = format_report(&result, false);
    assert!(report.stderr.contains("Summary:"));
    assert!(report.stderr.contains("Root hashes differ"));
    // Summary should NOT be on stdout.
    assert!(!report.stdout.contains("Summary"));
}

#[test]
fn compact_no_dirs_in_stdout_by_default() {
    let result = result_with(
        "h1",
        "h2",
        vec![changed("./", "aaa", "bbb"), changed("./subdir/", "ccc", "ddd")],
        vec![changed("./subdir/file.txt", "eee", "fff")],
        vec![],
        vec![],
    );

    let report = format_report(&result, false);
    // Only the file should be on stdout.
    assert_eq!(report.stdout, "!\t./subdir/file.txt\n");
}

#[test]
fn show_directories_includes_dirs_in_stdout() {
    let result = result_with(
        "h1",
        "h2",
        vec![changed("./subdir/", "aaa", "bbb")],
        vec![changed("./subdir/file.txt", "ccc", "ddd")],
        vec!["./extra_dir/".to_string()],
        vec![],
    );

    let report = format_report(&result, true);
    assert!(report.stdout.contains("!\t./subdir/\n"));
    assert!(report.stdout.contains("!\t./subdir/file.txt\n"));
    assert!(report.stdout.contains("<\t./extra_dir/\n"));
}

#[test]
fn compact_warnings_on_stderr() {
    let mut result = result_with("h1", "h2", vec![], vec![], vec![], vec![]);
    result.dataless_warnings = vec!["./cloud.txt".to_string()];
    result.error_warnings = vec!["./locked.db".to_string()];

    let report = format_report(&result, false);
    assert!(report.stderr.contains("cloud.txt"));
    assert!(report.stderr.contains("locked.db"));
    // Warnings should NOT be on stdout.
    assert!(!report.stdout.contains("cloud.txt"));
    assert!(!report.stdout.contains("locked.db"));
}

// Further cases.

#[test]
fn compare_with_itself_is_identical_and_reports_nothing() {
    let entries = vec![
        dir("r", "./"),
        dir("d", "./dir/"),
        file("x", "./dir/a.txt"),
        entry(EntryType::Symlink, "/t", "./link"),
    ];
    let result = compare_manifests(&entries, &entries, "a", "b");
    assert!(result.identical);
    assert!(result.dataless_warnings.is_empty());
    assert!(result.error_warnings.is_empty());
    let report = format_report(&result, true);
    assert_eq!(report.stdout, "");
    assert_eq!(report.stderr, "Trees are identical.\n");
}

#[test]
fn type_change_is_reported_even_with_same_value() {
    let entries1 = vec![dir("r1", "./"), file("v", "./x")];
    let entries2 = vec![dir("r2", "./"), entry(EntryType::Symlink, "v", "./x")];
    let result = compare_manifests(&entries1, &entries2, "a", "b");
    assert_eq!(result.changed_files.len(), 1);
    assert_eq!(result.changed_files[0].path, "./x");
    assert_eq!(result.changed_dirs.len(), 1);
    assert_eq!(result.changed_dirs[0].path, "./");
}

#[test]
fn dir_against_file_is_a_changed_dir() {
    let entries1 = vec![dir("r1", "./"), dir("h", "./x")];
    let entries2 = vec![dir("r2", "./"), file("h2", "./x")];
    let result = compare_manifests(&entries1, &entries2, "a", "b");
    assert!(result.changed_dirs.iter().any(|c| c.path == "./x"));
    assert!(result.changed_files.is_empty());
}

#[test]
fn last_entry_of_a_repeated_path_is_the_one_compared() {
    let entries1 = vec![dir("r", "./"), file("new", "./x")];
    let entries2 = vec![dir("r", "./"), file("old", "./x"), file("new", "./x")];
    let result = compare_manifests(&entries1, &entries2, "a", "b");
    assert!(result.changed_files.is_empty());
}

#[test]
fn warnings_are_listed_once_and_sorted_in_report() {
    let entries1 = vec![
        dir("r1", "./"),
        entry(EntryType::Dataless, "1", "./z.txt"),
        entry(EntryType::Dataless, "2", "./a.txt"),
    ];
    let entries2 = vec![
        dir("r2", "./"),
        entry(EntryType::Dataless, "1", "./z.txt"),
        entry(EntryType::Dataless, "2", "./a.txt"),
    ];
    let result = compare_manifests(&entries1, &entries2, "one", "two");
    assert_eq!(
        result.dataless_warnings,
        vec!["./z.txt".to_string(), "./a.txt".to_string()]
    );
    let report = format_report(&result, false);
    assert_eq!(report.stdout, "");
    assert_eq!(
        report.stderr,
        "Root hashes differ.\n\nDataless warnings (content not verified):\n  ./a.txt\n  ./z.txt\n\nSummary: 0 files differ, 1 dirs differ, 0 only in one, 0 only in two\n"
    );
}

#[test]
fn full_report_text() {
    let mut result = result_with(
        "h1 (d1)",
        "h2 (d2)",
        vec![changed("./", "a", "b")],
        vec![changed("./f", "c", "d")],
        vec!["./gone/".to_string(), "./gone.txt".to_string()],
        vec!["./new.txt".to_string()],
    );
    result.error_warnings = vec!["./e2".to_string(), "./e1".to_string()];
    let report = format_report(&result, false);
    assert_eq!(report.stdout, "!\t./f\n<\t./gone.txt\n>\t./new.txt\n");
    assert_eq!(
        report.stderr,
        "Root hashes differ.\n\nError warnings (could not read):\n  ./e1\n  ./e2\n\nSummary: 1 files differ, 1 dirs differ, 2 only in h1 (d1), 1 only in h2 (d2)\n"
    );
    let shown = format_report(&result, true);
    assert_eq!(shown.stdout, "!\t./\n!\t./f\n<\t./gone/\n<\t./gone.txt\n>\t./new.txt\n");
}

#[test]
fn skipped_subtree_hides_one_sided_entries() {
    let entries1 = vec![
        dir("r1", "./"),
        dir("same", "./d/"),
        file("a", "./d/only1.txt"),
    ];
    let entries2 = vec![dir("r2", "./"), dir("same", "./d/"), file("b", "./d/only2.txt")];
    let result = compare_manifests(&entries1, &entries2, "a", "b");
    assert!(result.only_in_first.is_empty());
    assert!(result.only_in_second.is_empty());
    assert!(result.changed_files.is_empty());
    assert_eq!(result.changed_dirs.len(), 1);
    assert!(!result.identical);
}

#[test]
fn same_root_hash_means_identical() {
    let entries1 = vec![dir("same", "./"), file("a", "./x"), dir("d1", "./d/")];
    let entries2 = vec![dir("same", "./"), file("b", "./x"), file("c", "./new")];
    let result = compare_manifests(&entries1, &entries2, "a", "b");
    assert!(result.identical);
    assert!(result.changed_files.is_empty());
    assert!(result.only_in_first.is_empty());
    assert!(result.only_in_second.is_empty());
}

#[test]
fn manifests_of_one_tree_at_two_depths_compare_identical() {
    let comps = |p: &str| p.split('/').map(|c| c.to_string()).collect::<Vec<String>>();
    let files = vec![
        (comps("a.txt"), FileHash::Blake3([1u8; 32])),
        (comps("d/b.txt"), FileHash::Blake3([2u8; 32])),
        (comps("d/e/c.txt"), FileHash::Dataless(7)),
    ];
    let text_at = |depth: usize| {
        let (flat, root) = compute_manifest(&files, depth);
        let header = ManifestHeader {
            host: "h".to_string(),
            path: "/p".to_string(),
            depth,
            date: "2026-01-01T00:00:00".to_string(),
            total_files: 3,
            total_dirs: 3,
            total_bytes: 0,
            root_hash: hash_to_hex(&root),
            mode: "content".to_string(),
        };
        write_manifest(&header, &flat)
    };
    let (_, shallow) = parse_manifest(&text_at(1)).unwrap();
    let (_, deep) = parse_manifest(&text_at(6)).unwrap();
    assert!(shallow.len() < deep.len());
    let result = compare_manifests(&shallow, &deep, "h1", "h2");
    assert!(result.identical);
    assert!(result.changed_files.is_empty());
    assert!(result.only_in_second.is_empty());
    assert!(result.dataless_warnings.is_empty());
}

#[test]
fn comparing_the_other_way_round_mirrors_the_result() {
    let first = vec![
        dir("r1", "./"),
        file("a1", "./a"),
        dir("s", "./same/"),
        file("x", "./same/x"),
        file("o", "./only1"),
        entry(EntryType::Dataless, "5", "./d"),
        dir("k1", "./k/"),
    ];
    let second = vec![
        dir("r2", "./"),
        file("a2", "./a"),
        dir("s", "./same/"),
        file("n", "./only2"),
        entry(EntryType::Dataless, "5", "./d"),
        file("k2", "./k/"),
    ];
    let ab = compare_manifests(&first, &second, "one", "two");
    let ba = compare_manifests(&second, &first, "two", "one");
    assert_eq!(ab.identical, ba.identical);
    assert_eq!(ab.only_in_first, ba.only_in_second);
    assert_eq!(ab.only_in_second, ba.only_in_first);
    assert_eq!(ab.only_in_first, vec!["./only1".to_string()]);
    let swap = |c: &ChangedEntry| (c.path.clone(), c.value2.clone(), c.value1.clone());
    let view = |c: &ChangedEntry| (c.path.clone(), c.value1.clone(), c.value2.clone());
    let mut files_ab: Vec<_> = ab.changed_files.iter().map(swap).collect();
    let mut files_ba: Vec<_> = ba.changed_files.iter().map(view).collect();
    files_ab.sort();
    files_ba.sort();
    assert_eq!(files_ab, files_ba);
    let mut dirs_ab: Vec<_> = ab.changed_dirs.iter().map(swap).collect();
    let mut dirs_ba: Vec<_> = ba.changed_dirs.iter().map(view).collect();
    dirs_ab.sort();
    dirs_ba.sort();
    assert_eq!(dirs_ab, dirs_ba);
    assert_eq!(dirs_ab.len(), 2);
    assert_eq!(ab.dataless_warnings, ba.dataless_warnings);
}
