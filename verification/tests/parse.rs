use lib::manifest::{Manifest, ManifestEntry};
use lib::parse::{parse_manifest, parse_manifest_bytes, ParseError, ReadError};

#[test]
fn parse_valid_manifest() {
    let input = "# comment\nVHS1|a.txt|5|af63dc4c8601ec8c\n\nVHS1|b.txt|0|cbf29ce484222325\n";
    let m = parse_manifest(input).unwrap();
    assert_eq!(m.entries.len(), 2);
    assert_eq!(m.entries[0].path, "a.txt");
    assert_eq!(m.entries[0].size, 5);
    assert_eq!(m.entries[0].hash, 0xaf63_dc4c_8601_ec8c);
    assert_eq!(m.entries[1].path, "b.txt");
}

#[test]
fn parse_rejects_bad_version() {
    let input = "VHS2|a.txt|5|af63dc4c8601ec8c\n";
    let err = parse_manifest(input).unwrap_err();
    assert!(matches!(err, ParseError::BadVersion(_)));
}

#[test]
fn parse_rejects_malformed_line() {
    let input = "VHS1|a.txt|5\n"; // missing hash field
    let err = parse_manifest(input).unwrap_err();
    assert!(matches!(err, ParseError::BadLine(1, _)));
}

#[test]
fn parse_rejects_bad_size() {
    let input = "VHS1|a.txt|abc|af63dc4c8601ec8c\n";
    let err = parse_manifest(input).unwrap_err();
    assert!(matches!(err, ParseError::BadSize(1, _)));
}

#[test]
fn parse_rejects_bad_hash() {
    let input = "VHS1|a.txt|5|nothex\n";
    let err = parse_manifest(input).unwrap_err();
    assert!(matches!(err, ParseError::BadHash(1, _)));
}

#[test]
fn parse_rejects_empty_path() {
    let input = "VHS1||5|af63dc4c8601ec8c\n";
    let err = parse_manifest(input).unwrap_err();
    assert!(matches!(err, ParseError::EmptyPath(1)));
}

#[test]
fn parse_skips_comments_and_blanks() {
    let input = "# header\n\n# another comment\nVHS1|x|1|0000000000000001\n";
    let m = parse_manifest(input).unwrap();
    assert_eq!(m.entries.len(), 1);
}

#[test]
fn parse_empty_manifest() {
    let input = "# only comments\n\n";
    let m = parse_manifest(input).unwrap();
    assert_eq!(m.entries.len(), 0);
}

#[test]
fn manifest_roundtrip() {
    let mut written = Manifest::new();
    written.push(ManifestEntry {
        path: "deep/nested/file.txt".to_string(),
        size: 12345,
        hash: 0xdead_beef_cafe_f00d,
    });
    written.push(ManifestEntry { path: "top.txt".to_string(), size: 0, hash: 0 });
    written.sort();

    let serialized = written.to_text();
    let parsed = parse_manifest(&serialized).unwrap();

    assert_eq!(written.entries, parsed.entries);
}

#[test]
fn roundtrip_of_unsorted_gives_sorted() {
    let mut m = Manifest::new();
    m.push(ManifestEntry { path: "z z".to_string(), size: 3, hash: 3 });
    m.push(ManifestEntry { path: "a".to_string(), size: u64::MAX, hash: u64::MAX });
    let parsed = parse_manifest(&m.to_text()).unwrap();
    m.sort();
    assert_eq!(parsed.entries, m.entries);
}

#[test]
fn parse_error_fields() {
    match parse_manifest("\n# c\n  VHS1|a|x|0  \n").unwrap_err() {
        ParseError::BadSize(n, s) => {
            assert_eq!(n, 3);
            assert_eq!(s, "x");
        }
        e => panic!("unexpected {:?}", e),
    }
    match parse_manifest("VHS1|a|1|0\nVHS1|b|2\n").unwrap_err() {
        ParseError::BadLine(n, l) => {
            assert_eq!(n, 2);
            assert_eq!(l, "VHS1|b|2");
        }
        e => panic!("unexpected {:?}", e),
    }
    match parse_manifest("vhs1|a|1|0\n").unwrap_err() {
        ParseError::BadVersion(l) => assert_eq!(l, "vhs1|a|1|0"),
        e => panic!("unexpected {:?}", e),
    }
    match parse_manifest("VHS1|a|1|0x1\n").unwrap_err() {
        ParseError::BadHash(n, h) => {
            assert_eq!(n, 1);
            assert_eq!(h, "0x1");
        }
        e => panic!("unexpected {:?}", e),
    }
}

#[test]
fn parse_first_error_wins() {
    let err = parse_manifest("VHS1||1|0\nVHS2|a|1|0\n").unwrap_err();
    assert!(matches!(err, ParseError::EmptyPath(1)));
}

#[test]
fn parse_fields_like_from_str_radix() {
    // A leading '+' is accepted, as are uppercase and short hex digits.
    let m = parse_manifest("VHS1|a|+7|+ABC\nVHS1|b|007|1\n").unwrap();
    assert_eq!(m.entries[0].size, 7);
    assert_eq!(m.entries[0].hash, 0xabc);
    assert_eq!(m.entries[1].size, 7);
    assert_eq!(m.entries[1].hash, 1);
    // Overflow, a lone '+', a '-' and an empty field are refused.
    assert!(matches!(parse_manifest("VHS1|a|18446744073709551616|0\n").unwrap_err(), ParseError::BadSize(1, _)));
    assert!(matches!(parse_manifest("VHS1|a|18446744073709551615|10000000000000000\n").unwrap_err(), ParseError::BadHash(1, _)));
    assert!(matches!(parse_manifest("VHS1|a|+|0\n").unwrap_err(), ParseError::BadSize(1, _)));
    assert!(matches!(parse_manifest("VHS1|a|-1|0\n").unwrap_err(), ParseError::BadSize(1, _)));
    assert!(matches!(parse_manifest("VHS1|a|1|\n").unwrap_err(), ParseError::BadHash(1, _)));
    let big = parse_manifest("VHS1|a|18446744073709551615|ffffffffffffffff\n").unwrap();
    assert_eq!(big.entries[0].size, u64::MAX);
    assert_eq!(big.entries[0].hash, u64::MAX);
}

#[test]
fn parse_path_keeps_extra_bars_in_hash_field() {
    // splitn(4): a fourth '|' ends up in the hash field, which then fails.
    assert!(matches!(parse_manifest("VHS1|a|1|0|x\n").unwrap_err(), ParseError::BadHash(1, _)));
}

#[test]
fn parse_handles_crlf_and_whitespace() {
    let m = parse_manifest("# c\r\n\t VHS1|a b|1|2 \r\n\u{a0}\r\nVHS1|c|3|4").unwrap();
    assert_eq!(m.entries.len(), 2);
    assert_eq!(m.entries[0].path, "a b");
    assert_eq!(m.entries[1].path, "c");
    assert_eq!(m.entries[1].hash, 4);
    assert_eq!(parse_manifest("").unwrap().entries.len(), 0);
}

#[test]
fn parse_keeps_duplicates_in_order() {
    let m = parse_manifest("VHS1|b|1|0\nVHS1|a|2|0\nVHS1|b|3|0\n").unwrap();
    let sizes: Vec<u64> = m.entries.iter().map(|e| e.size).collect();
    assert_eq!(sizes, vec![2, 1, 3]);
}

#[test]
fn parse_error_messages() {
    assert_eq!(
        ParseError::BadVersion("VHS2|a|1|0".to_string()).message(),
        "unsupported manifest version in line: VHS2|a|1|0"
    );
    assert_eq!(
        ParseError::BadLine(12, "VHS1|a".to_string()).message(),
        "line 12: malformed entry (expected VHS1|path|size|hash): VHS1|a"
    );
    assert_eq!(ParseError::BadSize(3, "abc".to_string()).message(), "line 3: invalid size 'abc': not a number");
    assert_eq!(
        ParseError::BadHash(4, "zz".to_string()).message(),
        "line 4: invalid hash 'zz': expected 16 hex digits"
    );
    assert_eq!(ParseError::EmptyPath(100).message(), "line 100: empty path field");
}

#[test]
fn parse_bytes_reads_utf8_lines() {
    let input = "# comment\r\nVHS1|b.txt|0|cbf29ce484222325\r\nVHS1|a\u{e9}.txt|5|af63dc4c8601ec8c\n";
    let m = parse_manifest_bytes(input.as_bytes()).unwrap();
    assert_eq!(m.entries, parse_manifest(input).unwrap().entries);
    assert_eq!(m.entries[0].path, "a\u{e9}.txt");
    assert_eq!(m.entries[1].path, "b.txt");
    assert_eq!(parse_manifest_bytes(b"").unwrap().entries.len(), 0);
}

#[test]
fn parse_bytes_refuses_line_not_utf8() {
    let mut input = b"VHS1|a.txt|5|af63dc4c8601ec8c\n".to_vec();
    input.extend_from_slice(b"VHS1|\xff.txt|5|af63dc4c8601ec8c\n");
    input.extend_from_slice(b"garbage\n");
    assert!(matches!(parse_manifest_bytes(&input), Err(ReadError::NotUtf8)));
    // A lone continuation byte and a truncated sequence are not UTF-8 either.
    assert!(matches!(parse_manifest_bytes(b"\x80"), Err(ReadError::NotUtf8)));
    assert!(matches!(parse_manifest_bytes(b"# \xe2\x82"), Err(ReadError::NotUtf8)));
}

#[test]
fn parse_bytes_earlier_malformed_line_wins() {
    let input = b"VHS1|a.txt|5|af63dc4c8601ec8c\nnot an entry\n\xff\xfe\n";
    match parse_manifest_bytes(input) {
        Err(ReadError::Parse(ParseError::BadLine(n, l))) => {
            assert_eq!(n, 2);
            assert_eq!(l, "not an entry");
        }
        other => panic!("unexpected: {:?}", other),
    }
    // A malformed line after the one that is not UTF-8 is never read.
    let input = b"\xff\nnot an entry\n";
    assert!(matches!(parse_manifest_bytes(input), Err(ReadError::NotUtf8)));
}

#[test]
fn parse_bytes_of_utf8_text_refuses_as_text_does() {
    let input = "# \u{263a}\nVHS1|a.txt|12x|af63dc4c8601ec8c\n";
    match (parse_manifest_bytes(input.as_bytes()), parse_manifest(input)) {
        (Err(ReadError::Parse(a)), Err(b)) => {
            assert_eq!(a.message(), b.message());
            assert_eq!(a.message(), "line 2: invalid size '12x': not a number");
        }
        other => panic!("unexpected: {:?}", other),
    }
}
