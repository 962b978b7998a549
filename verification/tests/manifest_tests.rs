use sumpig::manifest::{
    ManifestHeader, ParseError, civil_from_days, get_iso_date, iso_date, parse_manifest,
    parse_manifest_header, write_manifest,
};
use sumpig::hash::{FileHash, hash_to_hex};
use sumpig::merkle::{EntryType, FlatEntry, compute_manifest, sort_by_components};

fn sample_header() -> ManifestHeader {
    ManifestHeader {
        host: "testhost".to_string(),
        path: "/tmp/test".to_string(),
        depth: 6,
        date: "2026-03-28T15:30:00".to_string(),
        total_files: 3,
        total_dirs: 2,
        total_bytes: 1024,
        root_hash: "a1b2c3d4e5f67890a1b2c3d4e5f67890".to_string(),
        mode: "content".to_string(),
    }
}

fn sample_entries() -> Vec<FlatEntry> {
    vec![
        FlatEntry {
            entry_type: EntryType::Dir,
            value: "a1b2c3d4e5f67890a1b2c3d4e5f67890".to_string(),
            path: "./".to_string(),
        },
        FlatEntry {
            entry_type: EntryType::Blake3,
            value: "deadbeefdeadbeefdeadbeefdeadbeef".to_string(),
            path: "./file.txt".to_string(),
        },
        FlatEntry {
            entry_type: EntryType::Dir,
            value: "cafebabecafebabecafebabecafebabe".to_string(),
            path: "./subdir/".to_string(),
        },
    ]
}

#[test]
fn write_then_parse_round_trip() {
    let header = sample_header();
    let entries = sample_entries();

    let buf = write_manifest(&header, &entries);

    let (parsed_header, parsed_entries) = parse_manifest(&buf).unwrap();

    assert_eq!(parsed_header.host, "testhost");
    assert_eq!(parsed_header.path, "/tmp/test");
    assert_eq!(parsed_header.depth, 6);
    assert_eq!(parsed_header.total_files, 3);
    assert_eq!(parsed_header.total_dirs, 2);
    assert_eq!(parsed_header.root_hash, "a1b2c3d4e5f67890a1b2c3d4e5f67890");
    assert_eq!(parsed_header.mode, "content");

    assert_eq!(parsed_entries.len(), 3);
}

#[test]
fn parse_blake3_entry() {
    let manifest = "# sumpig fingerprint\n# version: 2\n# host: h\n# path: /p\n# depth: 6\n# date: 2026-01-01T00:00:00Z\n# total_files: 1\n# total_dirs: 0\n# root: abc123\nblake3:deadbeefdeadbeefdeadbeefdeadbeef\t./file.txt\n";

    let (_, entries) = parse_manifest(manifest).unwrap();
    assert_eq!(entries.len(), 1);
    assert_eq!(entries[0].entry_type, EntryType::Blake3);
    assert_eq!(entries[0].value, "deadbeefdeadbeefdeadbeefdeadbeef");
    assert_eq!(entries[0].path, "./file.txt");
}

#[test]
fn parse_dataless_entry() {
    let manifest = "# sumpig fingerprint\n# version: 2\n# host: h\n# path: /p\n# depth: 6\n# date: 2026-01-01T00:00:00Z\n# total_files: 1\n# total_dirs: 0\n# root: abc123\ndataless:12345\t./evicted.dat\n";

    let (_, entries) = parse_manifest(manifest).unwrap();
    assert_eq!(entries[0].entry_type, EntryType::Dataless);
    assert_eq!(entries[0].value, "12345");
}

#[test]
fn parse_error_entry() {
    let manifest = "# sumpig fingerprint\n# version: 2\n# host: h\n# path: /p\n# depth: 6\n# date: 2026-01-01T00:00:00Z\n# total_files: 1\n# total_dirs: 0\n# root: abc123\nerror:permission denied\t./locked.db\n";

    let (_, entries) = parse_manifest(manifest).unwrap();
    assert_eq!(entries[0].entry_type, EntryType::Error);
    assert_eq!(entries[0].value, "permission denied");
}

#[test]
fn parse_symlink_entry() {
    let manifest = "# sumpig fingerprint\n# version: 2\n# host: h\n# path: /p\n# depth: 6\n# date: 2026-01-01T00:00:00Z\n# total_files: 1\n# total_dirs: 0\n# root: abc123\nsymlink:/target/path\t./link\n";

    let (_, entries) = parse_manifest(manifest).unwrap();
    assert_eq!(entries[0].entry_type, EntryType::Symlink);
    assert_eq!(entries[0].value, "/target/path");
}

#[test]
fn parse_rejects_malformed_data_line() {
    let manifest = "# sumpig fingerprint\n# version: 2\n# host: h\n# path: /p\n# depth: 6\n# date: 2026-01-01T00:00:00Z\n# total_files: 0\n# total_dirs: 0\n# root: abc\nthis is not valid\n";

    let result = parse_manifest(manifest);
    assert!(result.is_err());
}

#[test]
fn parse_rejects_unknown_entry_type() {
    let manifest = "# sumpig fingerprint\n# version: 2\n# host: h\n# path: /p\n# depth: 6\n# date: 2026-01-01T00:00:00Z\n# total_files: 1\n# total_dirs: 0\n# root: abc\nunknown:value\t./file.txt\n";

    let result = parse_manifest(manifest);
    assert!(result.is_err());
}

#[test]
fn parse_ignores_unknown_header_fields() {
    let manifest = "# sumpig fingerprint\n# version: 2\n# host: h\n# path: /p\n# depth: 6\n# date: 2026-01-01T00:00:00Z\n# total_files: 0\n# total_dirs: 0\n# root: abc\n# unknown_field: whatever\n";

    let result = parse_manifest(manifest);
    assert!(result.is_ok());
}

#[test]
fn parse_empty_manifest_header_only() {
    let manifest = "# sumpig fingerprint\n# version: 2\n# host: h\n# path: /p\n# depth: 6\n# date: 2026-01-01T00:00:00Z\n# total_files: 0\n# total_dirs: 0\n# root: abc\n";

    let (header, entries) = parse_manifest(manifest).unwrap();
    assert_eq!(header.host, "h");
    assert_eq!(entries.len(), 0);
}

#[test]
fn write_manifest_format() {
    let header = sample_header();
    let entries = sample_entries();

    let output = write_manifest(&header, &entries);

    // Should start with header comments.
    assert!(output.starts_with("# sumpig fingerprint\n"));
    assert!(output.contains("# host: testhost\n"));
    assert!(output.contains("# depth: 6\n"));

    assert!(output.contains("# version: 2\n"));
    assert!(output.contains("# mode: content\n"));

    // Data lines use tab separator.
    assert!(output.contains("blake3:deadbeefdeadbeefdeadbeefdeadbeef\t./file.txt\n"));
    assert!(output.contains("dir:cafebabecafebabecafebabecafebabe\t./subdir/\n"));
}

#[test]
fn parse_header_only_stops_before_entries() {
    let manifest = "# sumpig fingerprint\n# version: 2\n# host: cardinal\n# path: /Users/ted/workspace\n# depth: 4\n# date: 2026-03-29T06:03:18Z\n# total_files: 100000\n# total_dirs: 50\n# total_bytes: 9999\n# root: abc123def456abc123def456abc123de\n# mode: content\nblake3:deadbeefdeadbeefdeadbeefdeadbeef\t./file.txt\n";

    let header = parse_manifest_header(manifest).unwrap();
    assert_eq!(header.host, "cardinal");
    assert_eq!(header.path, "/Users/ted/workspace");
    assert_eq!(header.depth, 4);
    assert_eq!(header.mode, "content");
    assert_eq!(header.total_files, 100000);
}

#[test]
fn parse_header_only_works_without_entries() {
    let manifest = "# sumpig fingerprint\n# version: 2\n# host: h\n# path: /p\n# depth: 6\n# date: 2026-01-01T00:00:00Z\n# total_files: 0\n# total_dirs: 0\n# total_bytes: 0\n# root: abc123\n# mode: fast\n";

    let header = parse_manifest_header(manifest).unwrap();
    assert_eq!(header.depth, 6);
    assert_eq!(header.mode, "fast");
}

#[test]
fn get_iso_date_format() {
    let date = get_iso_date().unwrap();
    // Should look like 2026-03-28T15:30:00Z (20 chars, trailing Z for UTC).
    assert_eq!(date.len(), 20, "ISO date should be 20 chars: {date}");
    assert_eq!(&date[4..5], "-");
    assert_eq!(&date[7..8], "-");
    assert_eq!(&date[10..11], "T");
    assert_eq!(&date[13..14], ":");
    assert_eq!(&date[16..17], ":");
    assert!(date.ends_with('Z'), "ISO date should end with Z: {date}");
}

// Further cases.

#[test]
fn write_manifest_exact_text() {
    let header = sample_header();
    let entries = vec![FlatEntry {
        entry_type: EntryType::Symlink,
        value: "/t".to_string(),
        path: "./l".to_string(),
    }];
    let output = write_manifest(&header, &entries);
    assert_eq!(
        output,
        "# sumpig fingerprint\n# version: 2\n# host: testhost\n# path: /tmp/test\n# depth: 6\n# date: 2026-03-28T15:30:00\n# total_files: 3\n# total_dirs: 2\n# total_bytes: 1024\n# root: a1b2c3d4e5f67890a1b2c3d4e5f67890\n# mode: content\nsymlink:/t\t./l\n"
    );
}

#[test]
fn round_trip_keeps_every_field_and_entry() {
    let header = sample_header();
    let entries = sample_entries();
    let text = write_manifest(&header, &entries);
    let (h, es) = parse_manifest(&text).unwrap();
    assert_eq!(h.date, header.date);
    assert_eq!(h.total_bytes, 1024);
    for (a, b) in entries.iter().zip(es.iter()) {
        assert_eq!(a.entry_type, b.entry_type);
        assert_eq!(a.value, b.value);
        assert_eq!(a.path, b.path);
    }
    let only_header = parse_manifest_header(&text).unwrap();
    assert_eq!(only_header.root_hash, header.root_hash);
    assert_eq!(only_header.total_dirs, 2);
}

#[test]
fn missing_mode_reads_as_content_and_blank_lines_are_skipped() {
    let text = "# host: h\n\n   \n# depth: 3\r\nblake3:x\t./a \n";
    let (h, es) = parse_manifest(text).unwrap();
    assert_eq!(h.mode, "content");
    assert_eq!(h.depth, 3);
    assert_eq!(es.len(), 1);
    assert_eq!(es[0].path, "./a");
}

#[test]
fn invalid_numbers_give_format_errors() {
    match parse_manifest("# depth: x1\n") {
        Err(ParseError::Format(m)) => assert_eq!(m, "invalid depth: x1"),
        _ => panic!("expected a format error"),
    }
    match parse_manifest("# total_files: -1\n") {
        Err(ParseError::Format(m)) => assert_eq!(m, "invalid total_files: -1"),
        _ => panic!("expected a format error"),
    }
    match parse_manifest("# total_dirs: \n# total_dirs: 1 2\n") {
        Err(ParseError::Format(m)) => assert_eq!(m, "invalid total_dirs: 1 2"),
        _ => panic!("expected a format error"),
    }
    match parse_manifest_header("# total_bytes: 18446744073709551616\n") {
        Err(ParseError::Format(m)) => {
            assert_eq!(m, "invalid total_bytes: 18446744073709551616")
        }
        _ => panic!("expected a format error"),
    }
    let h = parse_manifest_header("# total_bytes: +18446744073709551615\n").unwrap();
    assert_eq!(h.total_bytes, u64::MAX);
}

#[test]
fn data_line_errors_name_the_line() {
    match parse_manifest("no tab here\n") {
        Err(ParseError::Format(m)) => assert_eq!(m, "invalid data line: no tab here"),
        _ => panic!("expected a format error"),
    }
    match parse_manifest("notype\t./x\n") {
        Err(ParseError::Format(m)) => {
            assert_eq!(m, "invalid type:value in data line: notype\t./x")
        }
        _ => panic!("expected a format error"),
    }
    match parse_manifest("file:abc\t./x\n") {
        Err(ParseError::Format(m)) => assert_eq!(m, "unknown entry type: file"),
        _ => panic!("expected a format error"),
    }
}

#[test]
fn header_parse_stops_at_first_data_line() {
    let text = "# host: a\nblake3:x\t./f\n# host: b\n";
    let h = parse_manifest_header(text).unwrap();
    assert_eq!(h.host, "a");
    let (full, _) = parse_manifest(text).unwrap();
    assert_eq!(full.host, "b");
    // A malformed line after the header does not matter to the header reader.
    let h2 = parse_manifest_header("# host: a\ngarbage\n# depth: zz\n").unwrap();
    assert_eq!(h2.host, "a");
}

#[test]
fn parse_error_messages() {
    let e = ParseError::Format("bad".to_string());
    assert_eq!(e.to_string(), "format error: bad");
    let io = std::io::Error::new(std::io::ErrorKind::Other, "disk");
    let e2: ParseError = ParseError::from(io);
    assert!(matches!(e2, ParseError::Io(_)));
    assert!(e2.to_string().starts_with("I/O error: "));
}

#[test]
fn civil_dates_of_known_days() {
    assert_eq!(civil_from_days(0), (1970, 1, 1));
    assert_eq!(civil_from_days(-1), (1969, 12, 31));
    assert_eq!(civil_from_days(11016), (2000, 2, 29));
    assert_eq!(civil_from_days(19782), (2024, 2, 29));
    assert_eq!(civil_from_days(-25508), (1900, 3, 1));
    assert_eq!(civil_from_days(47541), (2100, 3, 1));
    assert_eq!(civil_from_days(-135081), (1600, 2, 29));
    assert_eq!(civil_from_days(-719162), (1, 1, 1));
    assert_eq!(civil_from_days(2932896), (9999, 12, 31));
}

#[test]
fn iso_dates_of_known_times() {
    assert_eq!(iso_date(0).unwrap(), "1970-01-01T00:00:00Z");
    assert_eq!(iso_date(1774711805).unwrap(), "2026-03-28T15:30:05Z");
    assert_eq!(iso_date(11016 * 86400 + 86399).unwrap(), "2000-02-29T23:59:59Z");
    assert_eq!(iso_date(u64::MAX), None);
}

#[test]
fn calendar_covers_every_year_of_an_i32() {
    assert_eq!(civil_from_days(784_351_576_776), (2147483647, 12, 31));
    assert_eq!(civil_from_days(-784_353_015_833), (-2147483648, 1, 1));
    assert_eq!(
        iso_date(784_351_576_776 * 86400 + 86399).unwrap(),
        "2147483647-12-31T23:59:59Z"
    );
    assert_eq!(iso_date(784_351_576_777 * 86400), None);
}

#[test]
fn header_only_parse_agrees_with_full_parse() {
    let text = "# sumpig v1\n\n# host: studio\n# colour: blue\n# depth: 3   \n# mode: fast\n\
                blake3:abc\t./a.txt\n\ndir:def\t./d/\n";
    let (full, entries) = parse_manifest(text).unwrap();
    let header = parse_manifest_header(text).unwrap();
    assert_eq!(entries.len(), 2);
    assert_eq!(header.host, full.host);
    assert_eq!(header.host, "studio");
    assert_eq!(header.depth, 3);
    assert_eq!(header.depth, full.depth);
    assert_eq!(header.mode, full.mode);
    assert_eq!(header.mode, "fast");
    assert_eq!(header.path, full.path);
    assert_eq!(header.total_bytes, full.total_bytes);
}

#[test]
fn fingerprints_of_one_tree_differ_only_in_date() {
    let comps = |p: &str| p.split('/').map(|c| c.to_string()).collect::<Vec<String>>();
    let run = |order: &[usize], date: &str| {
        let files = [
            (comps("b/x.txt"), FileHash::Blake3([3u8; 32])),
            (comps("a.txt"), FileHash::Blake3([1u8; 32])),
            (comps("b/y"), FileHash::Symlink("../a.txt".to_string())),
        ];
        let found: Vec<(Vec<String>, FileHash)> = order
            .iter()
            .map(|&i| match &files[i].1 {
                FileHash::Blake3(h) => (files[i].0.clone(), FileHash::Blake3(*h)),
                FileHash::Symlink(t) => (files[i].0.clone(), FileHash::Symlink(t.clone())),
                _ => unreachable!(),
            })
            .collect();
        let sorted = sort_by_components(found);
        let (flat, root) = compute_manifest(&sorted, 10);
        let header = ManifestHeader {
            host: "h".to_string(),
            path: "/p".to_string(),
            depth: 10,
            date: date.to_string(),
            total_files: 3,
            total_dirs: 2,
            total_bytes: 0,
            root_hash: hash_to_hex(&root),
            mode: "content".to_string(),
        };
        write_manifest(&header, &flat)
    };
    let first = run(&[0, 1, 2], "2026-01-01T00:00:00Z");
    let second = run(&[2, 0, 1], "2026-02-02T12:00:00Z");
    let l1: Vec<&str> = first.lines().collect();
    let l2: Vec<&str> = second.lines().collect();
    assert_eq!(l1.len(), l2.len());
    for (x, (a, b)) in l1.iter().zip(l2.iter()).enumerate() {
        if x == 5 {
            assert!(a.starts_with("# date: ") && b.starts_with("# date: "));
            assert_ne!(a, b);
        } else {
            assert_eq!(a, b);
        }
    }
}
