use lib::fnv::fnv1a_64;
use lib::manifest::{build_manifest, ScannedFile};
use lib::verify::{files_to_measure, verify_manifest, Measurement, VerifyReport};

fn comps(parts: &[&str]) -> Vec<String> {
    parts.iter().map(|s| s.to_string()).collect()
}

fn file(parts: &[&str], contents: &[u8]) -> ScannedFile {
    ScannedFile { components: comps(parts), size: contents.len() as u64, hash: fnv1a_64(contents) }
}

/// The files of the usual test directory.
fn test_dir() -> Vec<ScannedFile> {
    vec![
        file(&["hello.txt"], b"hello world"),
        file(&["sub", "nested.txt"], b"nested file content"),
        file(&["empty.bin"], b""),
    ]
}

/// Verifies the manifest of the usual test directory against the directory
/// now holding `now` (path, contents).
fn verify_against(now: &[(&str, &[u8])]) -> VerifyReport {
    let manifest = build_manifest(&test_dir());
    let disk_paths: Vec<String> = now.iter().map(|(p, _)| p.to_string()).collect();
    let needed = files_to_measure(&manifest, &disk_paths);
    let measured: Vec<Option<Measurement>> = manifest
        .entries
        .iter()
        .zip(needed.iter())
        .map(|(e, need)| {
            if *need {
                let (_, contents) = now.iter().find(|(p, _)| *p == e.path).unwrap();
                Some(Measurement { size: contents.len() as u64, hash: fnv1a_64(contents) })
            } else {
                None
            }
        })
        .collect();
    verify_manifest(&manifest, &disk_paths, &measured)
}

fn clean_dir() -> Vec<(&'static str, &'static [u8])> {
    vec![
        ("hello.txt", b"hello world".as_slice()),
        ("sub/nested.txt", b"nested file content".as_slice()),
        ("empty.bin", b"".as_slice()),
    ]
}

#[test]
fn verify_clean_directory() {
    let report = verify_against(&clean_dir());
    assert!(report.is_clean());
    assert_eq!(report.ok_count, 3);
}

#[test]
fn verify_detects_modification() {
    let mut now = clean_dir();
    now[0] = ("hello.txt", b"tampered content".as_slice());
    let report = verify_against(&now);
    assert!(!report.is_clean());
    assert_eq!(report.modified.len(), 1);
    assert_eq!(report.modified[0].path, "hello.txt");
    assert_eq!(report.missing.len(), 0);
    assert_eq!(report.extra.len(), 0);
    assert_eq!(report.modified[0].expected_size, 11);
    assert_eq!(report.modified[0].actual_size, 16);
    assert_eq!(report.modified[0].actual_hash, 0x6d9f_2180_1317_da24);
    assert_eq!(report.ok_count, 2);
}

#[test]
fn verify_detects_missing_file() {
    let now = vec![("hello.txt", b"hello world".as_slice()), ("empty.bin", b"".as_slice())];
    let report = verify_against(&now);
    assert!(!report.is_clean());
    assert_eq!(report.missing.len(), 1);
    assert_eq!(report.missing[0], "sub/nested.txt");
}

#[test]
fn verify_detects_extra_file() {
    let mut now = clean_dir();
    now.push(("extra.txt", b"unexpected".as_slice()));
    let report = verify_against(&now);
    assert!(!report.is_clean());
    assert_eq!(report.extra.len(), 1);
    assert_eq!(report.extra[0], "extra.txt");
}

#[test]
fn verify_extra_files_sorted_and_once() {
    let mut now = clean_dir();
    now.push(("z.txt", b"1".as_slice()));
    now.push(("a.txt", b"2".as_slice()));
    now.push(("z.txt", b"1".as_slice()));
    let report = verify_against(&now);
    assert_eq!(report.extra, vec!["a.txt".to_string(), "z.txt".to_string()]);
    assert_eq!(report.ok_count, 3);
}

#[test]
fn verify_counts_every_entry_once() {
    let now = vec![("hello.txt", b"changed".as_slice()), ("empty.bin", b"".as_slice())];
    let report = verify_against(&now);
    assert_eq!(report.ok_count + report.modified.len() + report.missing.len(), 3);
    assert_eq!(report.ok_count, 1);
}

#[test]
fn files_to_measure_follows_disk() {
    let manifest = build_manifest(&test_dir());
    let disk = vec!["hello.txt".to_string(), "other".to_string()];
    // Manifest order: empty.bin, hello.txt, sub/nested.txt.
    assert_eq!(files_to_measure(&manifest, &disk), vec![false, true, false]);
}

#[test]
fn is_clean_needs_all_empty() {
    let report = VerifyReport { modified: vec![], missing: vec![], extra: vec!["x".to_string()], ok_count: 0 };
    assert!(!report.is_clean());
    let report = VerifyReport { modified: vec![], missing: vec![], extra: vec![], ok_count: 0 };
    assert!(report.is_clean());
}

#[test]
fn verify_missing_follows_disk_in_manifest_order() {
    // Only the file named in the middle of the manifest is left on disk.
    let now = vec![("hello.txt", b"hello world".as_slice()), ("unrelated.txt", b"x".as_slice())];
    let report = verify_against(&now);
    assert_eq!(report.missing, vec!["empty.bin".to_string(), "sub/nested.txt".to_string()]);
    assert_eq!(report.ok_count, 1);
    assert_eq!(report.extra, vec!["unrelated.txt".to_string()]);
}
