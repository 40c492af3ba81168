use lib::diff::{diff_manifests, index_by_path};
use lib::fnv::fnv1a_64;
use lib::manifest::{build_manifest, Manifest, ManifestEntry, ScannedFile};

fn file(parts: &[&str], contents: &[u8]) -> ScannedFile {
    ScannedFile {
        components: parts.iter().map(|s| s.to_string()).collect(),
        size: contents.len() as u64,
        hash: fnv1a_64(contents),
    }
}

fn test_dir() -> Vec<ScannedFile> {
    vec![
        file(&["hello.txt"], b"hello world"),
        file(&["sub", "nested.txt"], b"nested file content"),
        file(&["empty.bin"], b""),
    ]
}

fn entry(path: &str, size: u64, hash: u64) -> ManifestEntry {
    ManifestEntry { path: path.to_string(), size, hash }
}

#[test]
fn diff_identical_manifests() {
    let m1 = build_manifest(&test_dir());
    let m2 = build_manifest(&test_dir());

    let report = diff_manifests(&m1, &m2);
    assert!(report.only_in_first.is_empty());
    assert!(report.only_in_second.is_empty());
    assert!(report.changed.is_empty());
    assert_eq!(report.unchanged_count, 3);
}

#[test]
fn diff_detects_added_file() {
    let m1 = build_manifest(&test_dir());
    let mut files = test_dir();
    files.push(file(&["new.txt"], b"brand new"));
    let m2 = build_manifest(&files);

    let report = diff_manifests(&m1, &m2);
    assert!(report.only_in_first.is_empty());
    assert_eq!(report.only_in_second.len(), 1);
    assert_eq!(report.only_in_second[0].path, "new.txt");
}

#[test]
fn diff_detects_removed_file() {
    let m1 = build_manifest(&test_dir());
    let mut files = test_dir();
    files.remove(0);
    let m2 = build_manifest(&files);

    let report = diff_manifests(&m1, &m2);
    assert_eq!(report.only_in_first.len(), 1);
    assert_eq!(report.only_in_first[0].path, "hello.txt");
    assert!(report.only_in_second.is_empty());
}

#[test]
fn diff_detects_changed_file() {
    let m1 = build_manifest(&test_dir());
    let mut files = test_dir();
    files[0] = file(&["hello.txt"], b"modified content here");
    let m2 = build_manifest(&files);

    let report = diff_manifests(&m1, &m2);
    assert!(report.only_in_first.is_empty());
    assert!(report.only_in_second.is_empty());
    assert_eq!(report.changed.len(), 1);
    assert_eq!(report.changed[0].path, "hello.txt");
    assert_eq!(report.changed[0].first_size, 11);
    assert_eq!(report.changed[0].second_size, 21);
    assert_eq!(report.unchanged_count, 2);
}

#[test]
fn diff_last_entry_of_a_path_wins() {
    let mut a = Manifest::new();
    a.push(entry("p", 1, 1));
    a.push(entry("p", 2, 2));
    let mut b = Manifest::new();
    b.push(entry("p", 2, 2));
    let report = diff_manifests(&a, &b);
    assert!(report.changed.is_empty());
    assert_eq!(report.unchanged_count, 1);
    let report = diff_manifests(&b, &a);
    assert_eq!(report.unchanged_count, 1);
}

#[test]
fn diff_lists_in_path_order() {
    let mut a = Manifest::new();
    a.push(entry("z", 1, 1));
    a.push(entry("m", 1, 1));
    a.push(entry("b", 1, 1));
    a.push(entry("k", 5, 5));
    let mut b = Manifest::new();
    b.push(entry("y", 1, 1));
    b.push(entry("c", 1, 1));
    b.push(entry("k", 5, 6));
    let report = diff_manifests(&a, &b);
    let first: Vec<&str> = report.only_in_first.iter().map(|e| e.path.as_str()).collect();
    let second: Vec<&str> = report.only_in_second.iter().map(|e| e.path.as_str()).collect();
    assert_eq!(first, vec!["b", "m", "z"]);
    assert_eq!(second, vec!["c", "y"]);
    assert_eq!(report.changed.len(), 1);
    assert_eq!(report.changed[0].first_hash, 5);
    assert_eq!(report.changed[0].second_hash, 6);
    assert_eq!(report.unchanged_count, 0);
    // Every path of the first is counted once.
    assert_eq!(report.only_in_first.len() + report.changed.len() + report.unchanged_count, 4);
}

#[test]
fn diff_swapped_mirrors() {
    let mut a = Manifest::new();
    a.push(entry("x", 1, 1));
    a.push(entry("y", 2, 2));
    let mut b = Manifest::new();
    b.push(entry("y", 3, 3));
    b.push(entry("z", 4, 4));
    let ab = diff_manifests(&a, &b);
    let ba = diff_manifests(&b, &a);
    assert_eq!(ab.only_in_first, ba.only_in_second);
    assert_eq!(ab.only_in_second, ba.only_in_first);
    assert_eq!(ab.changed[0].first_size, ba.changed[0].second_size);
}

#[test]
fn index_by_path_keeps_last() {
    let entries = vec![entry("b", 1, 0), entry("a", 2, 0), entry("b", 3, 0)];
    let idx = index_by_path(&entries);
    let got: Vec<(&str, u64)> = idx.iter().map(|e| (e.path.as_str(), e.size)).collect();
    assert_eq!(got, vec![("a", 2), ("b", 3)]);
}
