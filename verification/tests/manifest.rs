use lib::fnv::{fnv1a_64, FNV_OFFSET_BASIS};
use lib::manifest::{build_manifest, path_to_manifest_string, Manifest, ManifestEntry, ScannedFile};
use std::path::PathBuf;

fn entry(path: &str, size: u64, hash: u64) -> ManifestEntry {
    ManifestEntry { path: path.to_string(), size, hash }
}

fn comps(parts: &[&str]) -> Vec<String> {
    parts.iter().map(|s| s.to_string()).collect()
}

/// The files of the usual test directory, in the order a walk may find them.
fn scanned_test_dir() -> Vec<ScannedFile> {
    vec![
        ScannedFile { components: comps(&["sub", "nested.txt"]), size: 19, hash: fnv1a_64(b"nested file content") },
        ScannedFile { components: comps(&["hello.txt"]), size: 11, hash: fnv1a_64(b"hello world") },
        ScannedFile { components: comps(&["empty.bin"]), size: 0, hash: fnv1a_64(b"") },
    ]
}

#[test]
fn manifest_entry_display() {
    let entry = ManifestEntry { path: "foo/bar.txt".to_string(), size: 42, hash: 0x0123_4567_89ab_cdef };
    assert_eq!(entry.to_line(), "VHS1|foo/bar.txt|42|0123456789abcdef");
}

#[test]
fn manifest_display_has_header() {
    let mut m = Manifest::new();
    m.push(ManifestEntry { path: "a.txt".to_string(), size: 1, hash: 0 });
    let output = m.to_text();
    assert!(output.starts_with("# vhsvault manifest v1"));
    assert!(output.contains("VHS1|a.txt|1|0000000000000000"));
}

#[test]
fn manifest_text_exact() {
    let mut m = Manifest::new();
    m.push(entry("a.txt", 1, 0xff));
    m.push(entry("b c|d", 18446744073709551615, 0xffff_ffff_ffff_ffff));
    assert_eq!(
        m.to_text(),
        "# vhsvault manifest v1 (FNV-1a 64-bit)\n# format: VHS1|path|size|hash\nVHS1|a.txt|1|00000000000000ff\nVHS1|b c|d|18446744073709551615|ffffffffffffffff\n"
    );
    assert_eq!(Manifest::new().to_text(), "# vhsvault manifest v1 (FNV-1a 64-bit)\n# format: VHS1|path|size|hash\n");
}

#[test]
fn entry_line_zero_and_unicode() {
    assert_eq!(entry("é/ü.txt", 0, 0).to_line(), "VHS1|é/ü.txt|0|0000000000000000");
    assert_eq!(entry("x", 10, 0x10).to_line(), "VHS1|x|10|0000000000000010");
}

#[test]
fn path_conversion_uses_forward_slashes() {
    let p = PathBuf::from("sub").join("nested").join("file.txt");
    let parts: Vec<String> = p.components().map(|c| c.as_os_str().to_string_lossy().into_owned()).collect();
    assert_eq!(path_to_manifest_string(&parts), "sub/nested/file.txt");
}

#[test]
fn path_conversion_single_and_empty() {
    assert_eq!(path_to_manifest_string(&comps(&["top.txt"])), "top.txt");
    assert_eq!(path_to_manifest_string(&Vec::new()), "");
}

#[test]
fn manifest_get_finds_entry() {
    let mut m = Manifest::new();
    m.push(ManifestEntry { path: "a.txt".to_string(), size: 10, hash: 42 });
    assert!(m.get("a.txt").is_some());
    assert!(m.get("nonexistent").is_none());
}

#[test]
fn manifest_get_returns_first_match() {
    let mut m = Manifest::new();
    m.push(entry("a.txt", 1, 1));
    m.push(entry("a.txt", 2, 2));
    assert_eq!(m.get("a.txt").unwrap().size, 1);
    assert!(m.get("a.tx").is_none());
}

#[test]
fn manifest_sorted_output() {
    let mut m = Manifest::new();
    m.push(ManifestEntry { path: "z.txt".to_string(), size: 1, hash: 0 });
    m.push(ManifestEntry { path: "a.txt".to_string(), size: 1, hash: 0 });
    m.sort();
    assert_eq!(m.entries[0].path, "a.txt");
    assert_eq!(m.entries[1].path, "z.txt");
}

#[test]
fn sort_is_stable_and_bytewise() {
    let mut m = Manifest::new();
    m.push(entry("b", 1, 0));
    m.push(entry("a/b", 2, 0));
    m.push(entry("b", 3, 0));
    m.push(entry("a-b", 4, 0));
    m.push(entry("B", 5, 0));
    m.push(entry("a", 6, 0));
    m.sort();
    let got: Vec<(String, u64)> = m.entries.iter().map(|e| (e.path.clone(), e.size)).collect();
    let want: Vec<(String, u64)> = vec![
        ("B".to_string(), 5),
        ("a".to_string(), 6),
        ("a-b".to_string(), 4),
        ("a/b".to_string(), 2),
        ("b".to_string(), 1),
        ("b".to_string(), 3),
    ];
    assert_eq!(got, want);
}

#[test]
fn sort_twice_changes_nothing() {
    let mut m = Manifest::new();
    m.push(entry("q", 1, 0));
    m.push(entry("p", 2, 0));
    m.push(entry("q", 3, 0));
    m.sort();
    let once = m.to_text();
    m.sort();
    assert_eq!(m.to_text(), once);
}

#[test]
fn paths_lists_in_order() {
    let mut m = Manifest::new();
    m.push(entry("x", 1, 0));
    m.push(entry("y/z", 1, 0));
    assert_eq!(m.paths(), vec!["x", "y/z"]);
}

#[test]
fn build_manifest_finds_all_files() {
    let m = build_manifest(&scanned_test_dir());
    assert_eq!(m.entries.len(), 3);

    let paths = m.paths();
    assert!(paths.contains(&"hello.txt"));
    assert!(paths.contains(&"sub/nested.txt"));
    assert!(paths.contains(&"empty.bin"));
}

#[test]
fn build_manifest_deterministic() {
    let m1 = build_manifest(&scanned_test_dir());
    let mut reversed = scanned_test_dir();
    reversed.reverse();
    let m2 = build_manifest(&reversed);
    assert_eq!(m1.to_text(), m2.to_text());
}

#[test]
fn build_manifest_correct_hashes() {
    let m = build_manifest(&scanned_test_dir());

    let hello = m.get("hello.txt").unwrap();
    assert_eq!(hello.size, 11);
    assert_eq!(hello.hash, fnv1a_64(b"hello world"));

    let empty = m.get("empty.bin").unwrap();
    assert_eq!(empty.size, 0);
    assert_eq!(empty.hash, FNV_OFFSET_BASIS);
}

#[test]
fn build_manifest_sorted_by_path() {
    let m = build_manifest(&scanned_test_dir());
    assert_eq!(m.paths(), vec!["empty.bin", "hello.txt", "sub/nested.txt"]);
}
