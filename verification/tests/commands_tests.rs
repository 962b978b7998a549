use sumpig::commands::{
    compare_label, count_dirs, is_fast_mode, mismatch_warnings, mode_name, output_file_name,
    pick_fingerprint_pair, resolve_settings,
};
use sumpig::manifest::ManifestHeader;
use sumpig::merkle::{EntryType, FlatEntry};

fn header(host: &str, path: &str, depth: usize, date: &str, mode: &str) -> ManifestHeader {
    ManifestHeader {
        host: host.to_string(),
        path: path.to_string(),
        depth,
        date: date.to_string(),
        total_files: 0,
        total_dirs: 0,
        total_bytes: 0,
        root_hash: "abc".to_string(),
        mode: mode.to_string(),
    }
}

#[test]
fn output_file_names() {
    assert_eq!(output_file_name("cardinal", None, "2026-03-29T15:30:00Z"), "cardinal.txt");
    assert_eq!(
        output_file_name("cardinal", Some("before-upgrade"), "2026-03-29T15:30:00Z"),
        "cardinal-before-upgrade.txt"
    );
    assert_eq!(
        output_file_name("cardinal", Some(""), "2026-03-29T15:30:00Z"),
        "cardinal-2026-03-29T15-30-00Z.txt"
    );
}

#[test]
fn labels_and_modes() {
    let h = header("mac", "/p", 6, "2026-01-01T00:00:00Z", "fast");
    assert_eq!(compare_label(&h), "mac (2026-01-01T00:00:00Z)");
    assert!(is_fast_mode(&h));
    assert!(!is_fast_mode(&header("mac", "/p", 6, "d", "content")));
    assert_eq!(mode_name(true), "fast");
    assert_eq!(mode_name(false), "content");
}

#[test]
fn header_mismatch_warnings() {
    let a = header("a", "/x", 6, "d", "content");
    let b = header("b", "/y", 3, "e", "fast");
    assert_eq!(
        mismatch_warnings(&a, &b),
        vec![
            "warning: depth mismatch (6 vs 3), comparing available entries".to_string(),
            "warning: different root paths (/x vs /y)".to_string(),
            "warning: mode mismatch (content vs fast), results may not be meaningful".to_string(),
        ]
    );
    assert!(mismatch_warnings(&a, &header("z", "/x", 6, "q", "content")).is_empty());
}

#[test]
fn counts_directory_entries() {
    let e = |t: EntryType, p: &str| FlatEntry {
        entry_type: t,
        value: "v".to_string(),
        path: p.to_string(),
    };
    let entries = vec![
        e(EntryType::Dir, "./"),
        e(EntryType::Blake3, "./a"),
        e(EntryType::Dir, "./d/"),
        e(EntryType::Symlink, "./l"),
    ];
    assert_eq!(count_dirs(&entries), 2);
    assert_eq!(count_dirs(&[]), 0);
}

fn listing(entries: &[(&str, bool)]) -> Vec<(String, bool)> {
    entries.iter().map(|(n, f)| (n.to_string(), *f)).collect()
}

#[test]
fn fingerprint_pair_is_the_two_txt_files_in_text_order() {
    let entries = listing(&[("studio.txt", true), ("notes.md", true), ("air.txt", true)]);
    assert_eq!(
        pick_fingerprint_pair(&entries),
        Ok(("air.txt".to_string(), "studio.txt".to_string()))
    );
}

#[test]
fn fingerprint_pair_skips_directories_and_other_names() {
    let entries = listing(&[
        ("b.txt", true),
        ("old.txt", false),
        (".txt", true),
        ("a.txt.bak", true),
        ("a.txt", true),
    ]);
    assert_eq!(
        pick_fingerprint_pair(&entries),
        Ok(("a.txt".to_string(), "b.txt".to_string()))
    );
}

#[test]
fn fingerprint_pair_counts_when_not_two() {
    assert_eq!(pick_fingerprint_pair(&listing(&[])), Err(0));
    assert_eq!(pick_fingerprint_pair(&listing(&[("a.txt", true)])), Err(1));
    let three = listing(&[("a.txt", true), ("b.txt", true), ("c.txt", true)]);
    assert_eq!(pick_fingerprint_pair(&three), Err(3));
}

#[test]
fn settings_come_from_the_reference_manifest() {
    let mut reference = header("h", "/p", 3, "2026-01-01T00:00:00", "fast");
    assert_eq!(resolve_settings(Some(&reference), None, false), (3, true));
    reference.mode = "content".to_string();
    assert_eq!(resolve_settings(Some(&reference), None, true), (3, false));
}

#[test]
fn settings_default_to_depth_ten() {
    assert_eq!(resolve_settings(None, None, false), (10, false));
    assert_eq!(resolve_settings(None, Some(4), true), (4, true));
}
