use lib::cli::{
    parse_command, parse_create_args, parse_pair_args, render_diff_report, render_verify_report,
    wrote_message, Command, CreateArgs, PairArgs,
};
use lib::diff::{DiffChanged, DiffReport};
use lib::manifest::ManifestEntry;
use lib::verify::{ModifiedEntry, VerifyReport};
use lib::walk::{collect_files, walk_action, WalkAction};

fn args(a: &[&str]) -> Vec<String> {
    a.iter().map(|s| s.to_string()).collect()
}

#[test]
fn command_names() {
    assert!(matches!(parse_command(&args(&[])), Command::Usage));
    assert!(matches!(parse_command(&args(&["--help"])), Command::Help));
    assert!(matches!(parse_command(&args(&["-h"])), Command::Help));
    assert!(matches!(parse_command(&args(&["help", "x"])), Command::Help));
    assert!(matches!(parse_command(&args(&["create"])), Command::Create));
    assert!(matches!(parse_command(&args(&["verify", "a"])), Command::Verify));
    assert!(matches!(parse_command(&args(&["diff"])), Command::Diff));
    match parse_command(&args(&["frobnicate"])) {
        Command::Unknown(u) => assert_eq!(u, "frobnicate"),
        c => panic!("unexpected {:?}", c),
    }
}

#[test]
fn create_arguments() {
    match parse_create_args(&args(&["dir", "--out", "m.vhs"])) {
        CreateArgs::Run { dir, out } => {
            assert_eq!(dir, "dir");
            assert_eq!(out, Some("m.vhs".to_string()));
        }
        c => panic!("unexpected {:?}", c),
    }
    match parse_create_args(&args(&["--out", "a", "--out", "-b", "d"])) {
        CreateArgs::Run { dir, out } => {
            assert_eq!(dir, "d");
            assert_eq!(out, Some("-b".to_string()));
        }
        c => panic!("unexpected {:?}", c),
    }
    match parse_create_args(&args(&["d"])) {
        CreateArgs::Run { dir, out } => {
            assert_eq!(dir, "d");
            assert_eq!(out, None);
        }
        c => panic!("unexpected {:?}", c),
    }
    assert!(matches!(parse_create_args(&args(&["d", "--out"])), CreateArgs::OutWithoutPath));
    assert!(matches!(parse_create_args(&args(&["d", "-h", "--bogus"])), CreateArgs::Help));
    assert!(matches!(parse_create_args(&args(&["--bogus", "-h"])), CreateArgs::UnknownFlag(f) if f == "--bogus"));
    assert!(matches!(parse_create_args(&args(&["a", "b"])), CreateArgs::ExtraArgument(a) if a == "b"));
    assert!(matches!(parse_create_args(&args(&[])), CreateArgs::NoDirectory));
    assert!(matches!(parse_create_args(&args(&["--out", "x"])), CreateArgs::NoDirectory));
}

#[test]
fn pair_arguments() {
    match parse_pair_args(&args(&["m.vhs", "dir"])) {
        PairArgs::Run(a, b) => {
            assert_eq!(a, "m.vhs");
            assert_eq!(b, "dir");
        }
        p => panic!("unexpected {:?}", p),
    }
    assert!(matches!(parse_pair_args(&args(&["a"])), PairArgs::WrongCount));
    assert!(matches!(parse_pair_args(&args(&["a", "b", "c"])), PairArgs::WrongCount));
    assert!(matches!(parse_pair_args(&args(&["a", "b", "c", "--help"])), PairArgs::Help));
    assert!(matches!(parse_pair_args(&args(&["a", "-x", "-h"])), PairArgs::UnknownFlag(f) if f == "-x"));
}

#[test]
fn verify_report_text_clean() {
    let r = VerifyReport { modified: vec![], missing: vec![], extra: vec![], ok_count: 3 };
    assert_eq!(render_verify_report(&r), "vhsvault: OK — 3 files verified, 0 differences\n");
}

#[test]
fn verify_report_text_failures() {
    let r = VerifyReport {
        modified: vec![ModifiedEntry {
            path: "hello.txt".to_string(),
            expected_size: 11,
            actual_size: 16,
            expected_hash: 0x779a_65e7_023c_d2e7,
            actual_hash: 0x6d9f_2180_1317_da24,
        }],
        missing: vec!["sub/nested.txt".to_string()],
        extra: vec![],
        ok_count: 1,
    };
    assert_eq!(
        render_verify_report(&r),
        "MODIFIED (1):\n  hello.txt (size 11→16, hash 779a65e7023cd2e7→6d9f21801317da24)\nMISSING (1):\n  sub/nested.txt\nvhsvault: FAIL — 1 ok, 1 modified, 1 missing, 0 extra\n"
    );
    let r = VerifyReport { modified: vec![], missing: vec![], extra: vec!["a".to_string(), "b".to_string()], ok_count: 0 };
    assert_eq!(render_verify_report(&r), "EXTRA (2):\n  a\n  b\nvhsvault: FAIL — 0 ok, 0 modified, 0 missing, 2 extra\n");
}

#[test]
fn diff_report_text() {
    let r = DiffReport { only_in_first: vec![], only_in_second: vec![], changed: vec![], unchanged_count: 5 };
    assert!(!r.has_differences());
    assert_eq!(render_diff_report(&r), "vhsvault: identical — 5 entries match\n");
    let r = DiffReport {
        only_in_first: vec![ManifestEntry { path: "old.txt".to_string(), size: 3, hash: 0xab }],
        only_in_second: vec![ManifestEntry { path: "new.txt".to_string(), size: 9, hash: 1 }],
        changed: vec![DiffChanged {
            path: "c".to_string(),
            first_size: 1,
            first_hash: 2,
            second_size: 3,
            second_hash: 4,
        }],
        unchanged_count: 0,
    };
    assert!(r.has_differences());
    assert_eq!(
        render_diff_report(&r),
        "REMOVED (1):\n  old.txt (3 bytes, 00000000000000ab)\nADDED (1):\n  new.txt (9 bytes, 0000000000000001)\nCHANGED (1):\n  c (size 1→3, hash 0000000000000002→0000000000000004)\nvhsvault: 0 unchanged, 1 removed, 1 added, 1 changed\n"
    );
}

#[test]
fn wrote_message_text() {
    assert_eq!(wrote_message(3, "out.vhs"), "vhsvault: wrote 3 entries to out.vhs");
}

#[test]
fn walk_actions() {
    assert_eq!(walk_action(true, true, false), WalkAction::Skip);
    assert_eq!(walk_action(true, false, true), WalkAction::Skip);
    assert_eq!(walk_action(false, true, false), WalkAction::Descend);
    assert_eq!(walk_action(false, false, true), WalkAction::Record);
    assert_eq!(walk_action(false, false, false), WalkAction::Skip);
}

#[test]
fn collect_files_sorts_by_components() {
    let found = vec![args(&["a-b"]), args(&["b"]), args(&["a", "z"]), args(&["a"]), args(&["B"])];
    let files = collect_files(found);
    assert_eq!(files, vec![args(&["B"]), args(&["a"]), args(&["a", "z"]), args(&["a-b"]), args(&["b"])]);
}
