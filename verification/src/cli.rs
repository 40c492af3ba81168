//! The command line: which command and arguments were given, and the
//! reports printed for them.

use vstd::prelude::*;
use crate::diff::{DiffChanged, DiffChangedView, DiffReport};
use crate::manifest::{views, EntryView, ManifestEntry};
use crate::number::{decimal, hex16, push_decimal, push_hex16};
use crate::text::{push_char, str_eq, string_views};
use crate::verify::{ModifiedEntry, ModifiedView, VerifyReport};

verus! {

// ---------------------------------------------------------------------------
// Arguments
// ---------------------------------------------------------------------------

/// The command the first argument names.
#[derive(Debug)]
pub enum Command {
    /// No command was given.
    Usage,
    /// `--help`, `-h` or `help`.
    Help,
    Create,
    Verify,
    Diff,
    /// Any other first argument.
    Unknown(String),
}

/// The command named by `args` (the arguments after the program name).
pub fn parse_command(args: &Vec<String>) -> (c: Command)
    ensures
        args@.len() == 0 ==> c is Usage,
        args@.len() > 0 ==> ({
            let a = args@[0]@;
            if a == "--help"@ || a == "-h"@ || a == "help"@ {
                c is Help
            } else if a == "create"@ {
                c is Create
            } else if a == "verify"@ {
                c is Verify
            } else if a == "diff"@ {
                c is Diff
            } else {
                c matches Command::Unknown(u) && u@ == a
            }
        }),
{
    if args.len() == 0 {
        return Command::Usage;
    }
    let a = args[0].as_str();
    if str_eq(a, "--help") || str_eq(a, "-h") || str_eq(a, "help") {
        Command::Help
    } else if str_eq(a, "create") {
        Command::Create
    } else if str_eq(a, "verify") {
        Command::Verify
    } else if str_eq(a, "diff") {
        Command::Diff
    } else {
        Command::Unknown(args[0].clone())
    }
}

/// An argument that starts with `-`.
pub open spec fn is_flag(a: Seq<char>) -> bool {
    a.len() > 0 && a[0] == '-'
}

/// Whether an argument starts with `-`.
fn starts_with_dash(a: &str) -> (r: bool)
    ensures
        r == is_flag(a@),
{
    let cs = crate::text::chars_of(a);
    cs.len() > 0 && cs[0] == '-'
}

/// What the arguments of `create` ask for.
#[derive(Debug)]
pub enum CreateArgs {
    /// `--help` or `-h`.
    Help,
    /// Build the manifest of `dir`, written to `out` or to standard output.
    Run { dir: String, out: Option<String> },
    /// `--out` was the last argument.
    OutWithoutPath,
    /// An unknown flag.
    UnknownFlag(String),
    /// A second directory argument.
    ExtraArgument(String),
    /// No directory argument.
    NoDirectory,
}

/// What a `CreateArgs` holds.
pub enum CreateArgsView {
    Help,
    Run { dir: Seq<char>, out: Option<Seq<char>> },
    OutWithoutPath,
    UnknownFlag(Seq<char>),
    ExtraArgument(Seq<char>),
    NoDirectory,
}

impl View for CreateArgs {
    type V = CreateArgsView;

    open spec fn view(&self) -> CreateArgsView {
        match self {
            CreateArgs::Help => CreateArgsView::Help,
            CreateArgs::Run { dir, out } => CreateArgsView::Run {
                dir: dir@,
                out: match out {
                    Some(o) => Some(o@),
                    None => None,
                },
            },
            CreateArgs::OutWithoutPath => CreateArgsView::OutWithoutPath,
            CreateArgs::UnknownFlag(f) => CreateArgsView::UnknownFlag(f@),
            CreateArgs::ExtraArgument(a) => CreateArgsView::ExtraArgument(a@),
            CreateArgs::NoDirectory => CreateArgsView::NoDirectory,
        }
    }
}

/// Reading the arguments of `create` from position `i` on, with the
/// directory and output file seen so far: `--out` takes the next argument
/// as the output file (the last one given wins); `--help` or `-h` asks for
/// help; any other argument starting with `-` is refused; the first other
/// argument is the directory, and a second one is refused.
pub open spec fn create_args_from(
    args: Seq<Seq<char>>,
    i: int,
    dir: Option<Seq<char>>,
    out: Option<Seq<char>>,
) -> CreateArgsView
    decreases args.len() - i,
{
    if i < 0 || i >= args.len() {
        match dir {
            Some(d) => CreateArgsView::Run { dir: d, out },
            None => CreateArgsView::NoDirectory,
        }
    } else {
        let a = args[i];
        if a == "--out"@ {
            if i + 1 >= args.len() {
                CreateArgsView::OutWithoutPath
            } else {
                create_args_from(args, i + 2, dir, Some(args[i + 1]))
            }
        } else if a == "--help"@ || a == "-h"@ {
            CreateArgsView::Help
        } else if is_flag(a) {
            CreateArgsView::UnknownFlag(a)
        } else if dir is Some {
            CreateArgsView::ExtraArgument(a)
        } else {
            create_args_from(args, i + 1, Some(a), out)
        }
    }
}

fn opt_view(o: &Option<String>) -> (r: Option<String>)
    ensures
        match (o, r) {
            (Some(a), Some(b)) => a@ == b@,
            (None, None) => true,
            _ => false,
        },
{
    match o {
        Some(s) => Some(s.clone()),
        None => None,
    }
}

/// Reads the arguments of `create`.
pub fn parse_create_args(args: &Vec<String>) -> (r: CreateArgs)
    ensures
        r@ == create_args_from(string_views(args@), 0, None, None),
{
    let ghost av = string_views(args@);
    let mut dir: Option<String> = None;
    let mut out: Option<String> = None;
    let mut i: usize = 0;
    while i < args.len()
        invariant
            i <= args@.len(),
            av == string_views(args@),
            create_args_from(av, 0, None, None) == create_args_from(
                av,
                i as int,
                match dir {
                    Some(d) => Some(d@),
                    None => None,
                },
                match out {
                    Some(o) => Some(o@),
                    None => None,
                },
            ),
        decreases args@.len() - i,
    {
        let a = args[i].as_str();
        assert(av[i as int] == a@);
        if str_eq(a, "--out") {
            if i + 1 >= args.len() {
                return CreateArgs::OutWithoutPath;
            }
            assert(av[i + 1] == args@[i + 1]@);
            out = Some(args[i + 1].clone());
            i = i + 2;
        } else if str_eq(a, "--help") || str_eq(a, "-h") {
            return CreateArgs::Help;
        } else if starts_with_dash(a) {
            return CreateArgs::UnknownFlag(args[i].clone());
        } else {
            if dir.is_some() {
                return CreateArgs::ExtraArgument(args[i].clone());
            }
            dir = Some(args[i].clone());
            i = i + 1;
        }
    }
    match dir {
        Some(d) => CreateArgs::Run { dir: d, out: opt_view(&out) },
        None => CreateArgs::NoDirectory,
    }
}

/// What the arguments of `verify` and `diff` ask for: two paths.
#[derive(Debug)]
pub enum PairArgs {
    /// `--help` or `-h`.
    Help,
    /// The two paths.
    Run(String, String),
    /// An unknown flag.
    UnknownFlag(String),
    /// Not exactly two paths.
    WrongCount,
}

/// What a `PairArgs` holds.
pub enum PairArgsView {
    Help,
    Run(Seq<char>, Seq<char>),
    UnknownFlag(Seq<char>),
    WrongCount,
}

impl View for PairArgs {
    type V = PairArgsView;

    open spec fn view(&self) -> PairArgsView {
        match self {
            PairArgs::Help => PairArgsView::Help,
            PairArgs::Run(a, b) => PairArgsView::Run(a@, b@),
            PairArgs::UnknownFlag(f) => PairArgsView::UnknownFlag(f@),
            PairArgs::WrongCount => PairArgsView::WrongCount,
        }
    }
}

/// Reading two-path arguments from position `i` on, with the paths seen so
/// far: `--help` or `-h` asks for help; any other argument starting with
/// `-` is refused; the others are the paths, of which there must be two.
pub open spec fn pair_args_from(args: Seq<Seq<char>>, i: int, paths: Seq<Seq<char>>) -> PairArgsView
    decreases args.len() - i,
{
    if i < 0 || i >= args.len() {
        if paths.len() == 2 {
            PairArgsView::Run(paths[0], paths[1])
        } else {
            PairArgsView::WrongCount
        }
    } else {
        let a = args[i];
        if a == "--help"@ || a == "-h"@ {
            PairArgsView::Help
        } else if is_flag(a) {
            PairArgsView::UnknownFlag(a)
        } else {
            pair_args_from(args, i + 1, paths.push(a))
        }
    }
}

/// Reads the arguments of `verify` (manifest, directory) or `diff` (two
/// manifests).
pub fn parse_pair_args(args: &Vec<String>) -> (r: PairArgs)
    ensures
        r@ == pair_args_from(string_views(args@), 0, seq![]),
{
    let ghost av = string_views(args@);
    let mut paths: Vec<String> = Vec::new();
    let mut i: usize = 0;
    assert(string_views(paths@) =~= Seq::<Seq<char>>::empty());
    while i < args.len()
        invariant
            i <= args@.len(),
            av == string_views(args@),
            pair_args_from(av, 0, seq![]) == pair_args_from(av, i as int, string_views(paths@)),
        decreases args@.len() - i,
    {
        let a = args[i].as_str();
        assert(av[i as int] == a@);
        if str_eq(a, "--help") || str_eq(a, "-h") {
            return PairArgs::Help;
        } else if starts_with_dash(a) {
            return PairArgs::UnknownFlag(args[i].clone());
        }
        let ghost before = string_views(paths@);
        paths.push(args[i].clone());
        assert(string_views(paths@) =~= before.push(a@));
        i = i + 1;
    }
    if paths.len() == 2 {
        assert(string_views(paths@)[0] == paths@[0]@);
        assert(string_views(paths@)[1] == paths@[1]@);
        PairArgs::Run(paths[0].clone(), paths[1].clone())
    } else {
        PairArgs::WrongCount
    }
}

// ---------------------------------------------------------------------------
// Reports
// ---------------------------------------------------------------------------

/// A newline.
pub open spec fn nl() -> Seq<char> {
    seq!['\n']
}

/// `"  "`, then `path`, as the lines listing files begin.
pub open spec fn listed(path: Seq<char>) -> Seq<char> {
    "  "@ + path
}

/// ` (size A→B, hash X→Y)` for a file whose size or hash changed.
pub open spec fn change_detail(size_a: u64, size_b: u64, hash_a: u64, hash_b: u64) -> Seq<char> {
    " (size "@ + decimal(size_a as nat) + "→"@ + decimal(size_b as nat) + ", hash "@ + hex16(
        hash_a,
    ) + "→"@ + hex16(hash_b) + ")"@
}

/// The line of a modified file in a verify report.
pub open spec fn modified_line(m: ModifiedView) -> Seq<char> {
    listed(m.path) + change_detail(m.expected_size, m.actual_size, m.expected_hash, m.actual_hash)
        + nl()
}

/// The line of a missing or extra file in a verify report.
pub open spec fn path_line(p: Seq<char>) -> Seq<char> {
    listed(p) + nl()
}

/// The lines of all items of `s`, in order.
pub open spec fn all_lines<T>(s: Seq<T>, line: spec_fn(T) -> Seq<char>) -> Seq<char>
    decreases s.len(),
{
    if s.len() == 0 {
        seq![]
    } else {
        all_lines(s.drop_last(), line) + line(s.last())
    }
}

/// A titled section listing `n` items, or nothing when there are none.
pub open spec fn section(title: Seq<char>, n: nat, lines: Seq<char>) -> Seq<char> {
    if n == 0 {
        seq![]
    } else {
        title + " ("@ + decimal(n) + "):"@ + nl() + lines
    }
}

/// The section of a verify report listing modified files.
pub open spec fn modified_section(modified: Seq<ModifiedView>) -> Seq<char> {
    section("MODIFIED"@, modified.len(), all_lines(modified, |m: ModifiedView| modified_line(m)))
}

/// A section of a report listing paths.
pub open spec fn paths_section(title: Seq<char>, paths: Seq<Seq<char>>) -> Seq<char> {
    section(title, paths.len(), all_lines(paths, |p: Seq<char>| path_line(p)))
}

/// The last line of a verify report that found differences.
pub open spec fn fail_summary(ok: nat, modified: nat, missing: nat, extra: nat) -> Seq<char> {
    "vhsvault: FAIL — "@ + decimal(ok) + " ok, "@ + decimal(modified) + " modified, "@ + decimal(
        missing,
    ) + " missing, "@ + decimal(extra) + " extra"@ + nl()
}

/// The text printed for a verify report.
pub open spec fn verify_report_text(
    modified: Seq<ModifiedView>,
    missing: Seq<Seq<char>>,
    extra: Seq<Seq<char>>,
    ok: nat,
) -> Seq<char> {
    if modified.len() == 0 && missing.len() == 0 && extra.len() == 0 {
        "vhsvault: OK — "@ + decimal(ok) + " files verified, 0 differences"@ + nl()
    } else {
        modified_section(modified) + paths_section("MISSING"@, missing) + paths_section(
            "EXTRA"@,
            extra,
        ) + fail_summary(ok, modified.len(), missing.len(), extra.len())
    }
}

fn push_section_title(s: &mut String, title: &str, n: usize)
    ensures
        final(s)@ == old(s)@ + title@ + " ("@ + decimal(n as nat) + "):"@ + nl(),
{
    s.append(title);
    s.append(" (");
    push_decimal(s, n as u64);
    s.append("):");
    push_char(s, '\n');
    assert(final(s)@ =~= old(s)@ + title@ + " ("@ + decimal(n as nat) + "):"@ + nl());
}

fn push_change_detail(s: &mut String, size_a: u64, size_b: u64, hash_a: u64, hash_b: u64)
    ensures
        final(s)@ == old(s)@ + change_detail(size_a, size_b, hash_a, hash_b),
{
    s.append(" (size ");
    push_decimal(s, size_a);
    s.append("→");
    push_decimal(s, size_b);
    s.append(", hash ");
    push_hex16(s, hash_a);
    s.append("→");
    push_hex16(s, hash_b);
    s.append(")");
    assert(final(s)@ =~= old(s)@ + change_detail(size_a, size_b, hash_a, hash_b));
}

fn push_path_lines(s: &mut String, paths: &Vec<String>)
    ensures
        final(s)@ == old(s)@ + all_lines(string_views(paths@), |p: Seq<char>| path_line(p)),
{
    let ghost pv = string_views(paths@);
    let ghost f = |p: Seq<char>| path_line(p);
    let ghost start = s@;
    let mut i: usize = 0;
    assert(all_lines(pv.take(0), f) =~= Seq::<char>::empty());
    while i < paths.len()
        invariant
            i <= paths@.len(),
            pv == string_views(paths@),
            f == (|p: Seq<char>| path_line(p)),
            s@ == start + all_lines(pv.take(i as int), f),
        decreases paths@.len() - i,
    {
        assert(pv.take(i + 1).drop_last() =~= pv.take(i as int));
        assert(pv[i as int] == paths@[i as int]@);
        s.append("  ");
        s.append(paths[i].as_str());
        push_char(s, '\n');
        assert(s@ =~= start + all_lines(pv.take(i + 1), f));
        i = i + 1;
    }
    assert(pv.take(i as int) =~= pv);
}

/// Appends the section listing `paths` under `title`, if there are any.
fn push_paths_section(s: &mut String, title: &str, paths: &Vec<String>)
    ensures
        final(s)@ == old(s)@ + paths_section(title@, string_views(paths@)),
{
    if paths.len() > 0 {
        push_section_title(s, title, paths.len());
        push_path_lines(s, paths);
        assert(final(s)@ =~= old(s)@ + paths_section(title@, string_views(paths@)));
    } else {
        assert(final(s)@ =~= old(s)@ + paths_section(title@, string_views(paths@)));
    }
}

fn push_modified_section(s: &mut String, modified: &Vec<ModifiedEntry>)
    ensures
        final(s)@ == old(s)@ + modified_section(modified@.map_values(|m: ModifiedEntry| m@)),
{
    let ghost mv = modified@.map_values(|m: ModifiedEntry| m@);
    let ghost start = s@;
    if modified.len() == 0 {
        assert(s@ =~= start + modified_section(mv));
        return;
    }
    push_section_title(s, "MODIFIED", modified.len());
    let ghost f = |m: ModifiedView| modified_line(m);
    let ghost head = s@;
    let mut i: usize = 0;
    assert(all_lines(mv.take(0), f) =~= Seq::<char>::empty());
    while i < modified.len()
        invariant
            i <= modified@.len(),
            mv == modified@.map_values(|m: ModifiedEntry| m@),
            f == (|m: ModifiedView| modified_line(m)),
            s@ == head + all_lines(mv.take(i as int), f),
        decreases modified@.len() - i,
    {
        let m = &modified[i];
        assert(mv.take(i + 1).drop_last() =~= mv.take(i as int));
        assert(mv[i as int] == m@);
        s.append("  ");
        s.append(m.path.as_str());
        push_change_detail(s, m.expected_size, m.actual_size, m.expected_hash, m.actual_hash);
        push_char(s, '\n');
        assert(s@ =~= head + all_lines(mv.take(i + 1), f));
        i = i + 1;
    }
    assert(mv.take(i as int) =~= mv);
    assert(s@ =~= start + modified_section(mv));
}

fn push_fail_summary(s: &mut String, ok: usize, modified: usize, missing: usize, extra: usize)
    ensures
        final(s)@ == old(s)@ + fail_summary(ok as nat, modified as nat, missing as nat, extra as nat),
{
    s.append("vhsvault: FAIL — ");
    push_decimal(s, ok as u64);
    s.append(" ok, ");
    push_decimal(s, modified as u64);
    s.append(" modified, ");
    push_decimal(s, missing as u64);
    s.append(" missing, ");
    push_decimal(s, extra as u64);
    s.append(" extra");
    push_char(s, '\n');
    assert(final(s)@ =~= old(s)@ + fail_summary(
        ok as nat,
        modified as nat,
        missing as nat,
        extra as nat,
    ));
}

/// The text printed for a verify report: a one-line summary when clean;
/// else the modified, missing and extra files, then a summary.
pub fn render_verify_report(r: &VerifyReport) -> (text: String)
    ensures
        text@ == verify_report_text(
            r.modified@.map_values(|m: ModifiedEntry| m@),
            string_views(r.missing@),
            string_views(r.extra@),
            r.ok_count as nat,
        ),
{
    let mut s = String::new();
    if r.is_clean() {
        s.append("vhsvault: OK — ");
        push_decimal(&mut s, r.ok_count as u64);
        s.append(" files verified, 0 differences");
        push_char(&mut s, '\n');
        assert(s@ =~= verify_report_text(
            r.modified@.map_values(|m: ModifiedEntry| m@),
            string_views(r.missing@),
            string_views(r.extra@),
            r.ok_count as nat,
        ));
        return s;
    }
    push_modified_section(&mut s, &r.modified);
    push_paths_section(&mut s, "MISSING", &r.missing);
    push_paths_section(&mut s, "EXTRA", &r.extra);
    push_fail_summary(&mut s, r.ok_count, r.modified.len(), r.missing.len(), r.extra.len());
    assert(s@ =~= verify_report_text(
        r.modified@.map_values(|m: ModifiedEntry| m@),
        string_views(r.missing@),
        string_views(r.extra@),
        r.ok_count as nat,
    ));
    s
}

/// The line of an entry present in one manifest only, in a diff report.
pub open spec fn entry_summary_line(e: EntryView) -> Seq<char> {
    listed(e.path) + " ("@ + decimal(e.size as nat) + " bytes, "@ + hex16(e.hash) + ")"@ + nl()
}

/// The line of a changed entry in a diff report.
pub open spec fn changed_line(c: DiffChangedView) -> Seq<char> {
    listed(c.path) + change_detail(c.first_size, c.second_size, c.first_hash, c.second_hash) + nl()
}

/// A section of a diff report listing entries.
pub open spec fn entries_section(title: Seq<char>, es: Seq<EntryView>) -> Seq<char> {
    section(title, es.len(), all_lines(es, |e: EntryView| entry_summary_line(e)))
}

/// The section of a diff report listing changed entries.
pub open spec fn changed_section(cs: Seq<DiffChangedView>) -> Seq<char> {
    section("CHANGED"@, cs.len(), all_lines(cs, |c: DiffChangedView| changed_line(c)))
}

/// The last line of a diff report that found differences.
pub open spec fn diff_summary(unchanged: nat, removed: nat, added: nat, changed: nat) -> Seq<char> {
    "vhsvault: "@ + decimal(unchanged) + " unchanged, "@ + decimal(removed) + " removed, "@
        + decimal(added) + " added, "@ + decimal(changed) + " changed"@ + nl()
}

/// The text printed for a diff report.
pub open spec fn diff_report_text(
    only_first: Seq<EntryView>,
    only_second: Seq<EntryView>,
    changed: Seq<DiffChangedView>,
    unchanged: nat,
) -> Seq<char> {
    if only_first.len() == 0 && only_second.len() == 0 && changed.len() == 0 {
        "vhsvault: identical — "@ + decimal(unchanged) + " entries match"@ + nl()
    } else {
        entries_section("REMOVED"@, only_first) + entries_section("ADDED"@, only_second)
            + changed_section(changed) + diff_summary(
            unchanged,
            only_first.len(),
            only_second.len(),
            changed.len(),
        )
    }
}

impl DiffReport {
    /// Something was added, removed or changed.
    pub fn has_differences(&self) -> (r: bool)
        ensures
            r == !(self.only_in_first@.len() == 0 && self.only_in_second@.len() == 0
                && self.changed@.len() == 0),
    {
        !(self.only_in_first.len() == 0 && self.only_in_second.len() == 0 && self.changed.len() == 0)
    }
}

fn push_entries_section(s: &mut String, title: &str, es: &Vec<ManifestEntry>)
    ensures
        final(s)@ == old(s)@ + entries_section(title@, views(es@)),
{
    let ghost ev = views(es@);
    let ghost start = s@;
    if es.len() == 0 {
        assert(s@ =~= start + entries_section(title@, ev));
        return;
    }
    push_section_title(s, title, es.len());
    let ghost f = |e: EntryView| entry_summary_line(e);
    let ghost head = s@;
    let mut i: usize = 0;
    assert(all_lines(ev.take(0), f) =~= Seq::<char>::empty());
    while i < es.len()
        invariant
            i <= es@.len(),
            ev == views(es@),
            f == (|e: EntryView| entry_summary_line(e)),
            s@ == head + all_lines(ev.take(i as int), f),
        decreases es@.len() - i,
    {
        let e = &es[i];
        assert(ev.take(i + 1).drop_last() =~= ev.take(i as int));
        assert(ev[i as int] == e@);
        s.append("  ");
        s.append(e.path.as_str());
        s.append(" (");
        push_decimal(s, e.size);
        s.append(" bytes, ");
        push_hex16(s, e.hash);
        s.append(")");
        push_char(s, '\n');
        assert(s@ =~= head + all_lines(ev.take(i + 1), f));
        i = i + 1;
    }
    assert(ev.take(i as int) =~= ev);
    assert(s@ =~= start + entries_section(title@, ev));
}

fn push_changed_section(s: &mut String, cs: &Vec<DiffChanged>)
    ensures
        final(s)@ == old(s)@ + changed_section(cs@.map_values(|c: DiffChanged| c@)),
{
    let ghost cv = cs@.map_values(|c: DiffChanged| c@);
    let ghost start = s@;
    if cs.len() == 0 {
        assert(s@ =~= start + changed_section(cv));
        return;
    }
    push_section_title(s, "CHANGED", cs.len());
    let ghost f = |c: DiffChangedView| changed_line(c);
    let ghost head = s@;
    let mut i: usize = 0;
    assert(all_lines(cv.take(0), f) =~= Seq::<char>::empty());
    while i < cs.len()
        invariant
            i <= cs@.len(),
            cv == cs@.map_values(|c: DiffChanged| c@),
            f == (|c: DiffChangedView| changed_line(c)),
            s@ == head + all_lines(cv.take(i as int), f),
        decreases cs@.len() - i,
    {
        let c = &cs[i];
        assert(cv.take(i + 1).drop_last() =~= cv.take(i as int));
        assert(cv[i as int] == c@);
        s.append("  ");
        s.append(c.path.as_str());
        push_change_detail(s, c.first_size, c.second_size, c.first_hash, c.second_hash);
        push_char(s, '\n');
        assert(s@ =~= head + all_lines(cv.take(i + 1), f));
        i = i + 1;
    }
    assert(cv.take(i as int) =~= cv);
    assert(s@ =~= start + changed_section(cv));
}

fn push_diff_summary(s: &mut String, unchanged: usize, removed: usize, added: usize, changed: usize)
    ensures
        final(s)@ == old(s)@ + diff_summary(
            unchanged as nat,
            removed as nat,
            added as nat,
            changed as nat,
        ),
{
    s.append("vhsvault: ");
    push_decimal(s, unchanged as u64);
    s.append(" unchanged, ");
    push_decimal(s, removed as u64);
    s.append(" removed, ");
    push_decimal(s, added as u64);
    s.append(" added, ");
    push_decimal(s, changed as u64);
    s.append(" changed");
    push_char(s, '\n');
    assert(final(s)@ =~= old(s)@ + diff_summary(
        unchanged as nat,
        removed as nat,
        added as nat,
        changed as nat,
    ));
}

/// The text printed for a diff report: a one-line summary when nothing
/// differs; else the removed, added and changed entries, then a summary.
pub fn render_diff_report(r: &DiffReport) -> (text: String)
    ensures
        text@ == diff_report_text(
            views(r.only_in_first@),
            views(r.only_in_second@),
            r.changed@.map_values(|c: DiffChanged| c@),
            r.unchanged_count as nat,
        ),
{
    let mut s = String::new();
    if !r.has_differences() {
        s.append("vhsvault: identical — ");
        push_decimal(&mut s, r.unchanged_count as u64);
        s.append(" entries match");
        push_char(&mut s, '\n');
        assert(s@ =~= diff_report_text(
            views(r.only_in_first@),
            views(r.only_in_second@),
            r.changed@.map_values(|c: DiffChanged| c@),
            r.unchanged_count as nat,
        ));
        return s;
    }
    push_entries_section(&mut s, "REMOVED", &r.only_in_first);
    push_entries_section(&mut s, "ADDED", &r.only_in_second);
    push_changed_section(&mut s, &r.changed);
    push_diff_summary(
        &mut s,
        r.unchanged_count,
        r.only_in_first.len(),
        r.only_in_second.len(),
        r.changed.len(),
    );
    assert(s@ =~= diff_report_text(
        views(r.only_in_first@),
        views(r.only_in_second@),
        r.changed@.map_values(|c: DiffChanged| c@),
        r.unchanged_count as nat,
    ));
    s
}

/// The note printed after a manifest was written to a file.
pub fn wrote_message(count: usize, path: &str) -> (m: String)
    ensures
        m@ == "vhsvault: wrote "@ + decimal(count as nat) + " entries to "@ + path@,
{
    let mut s = String::new();
    s.append("vhsvault: wrote ");
    push_decimal(&mut s, count as u64);
    s.append(" entries to ");
    s.append(path);
    assert(s@ =~= "vhsvault: wrote "@ + decimal(count as nat) + " entries to "@ + path@);
    s
}

// ---------------------------------------------------------------------------
// Laws of the command line and the reports
// ---------------------------------------------------------------------------

/// Two texts that end in different characters before a final newline differ.
proof fn lemma_second_last(p: Seq<char>, w: Seq<char>)
    requires
        w.len() >= 1,
    ensures
        (p + w + nl()).len() >= 2,
        (p + w + nl())[(p + w + nl()).len() - 2] == w.last(),
{
    assert((p + w + nl())[(p + w + nl()).len() - 2] == (p + w)[(p + w).len() - 1]);
}

/// The text of a verify report is the OK line exactly when nothing is
/// modified, missing or extra.
pub proof fn lemma_verify_report_ok_iff_clean(
    modified: Seq<ModifiedView>,
    missing: Seq<Seq<char>>,
    extra: Seq<Seq<char>>,
    ok: nat,
)
    ensures
        (verify_report_text(modified, missing, extra, ok) == "vhsvault: OK — "@ + decimal(ok)
            + " files verified, 0 differences"@ + seq!['\n']) <==> (modified.len() == 0
            && missing.len() == 0 && extra.len() == 0),
{
    let clean = modified.len() == 0 && missing.len() == 0 && extra.len() == 0;
    if !clean {
        let okl = "vhsvault: OK — "@ + decimal(ok) + " files verified, 0 differences"@;
        let head = modified_section(modified) + paths_section("MISSING"@, missing) + paths_section(
            "EXTRA"@,
            extra,
        ) + "vhsvault: FAIL — "@ + decimal(ok) + " ok, "@ + decimal(modified.len()) + " modified, "@
            + decimal(missing.len()) + " missing, "@ + decimal(extra.len());
        let text = verify_report_text(modified, missing, extra, ok);
        assert(text =~= head + " extra"@ + nl());
        reveal_strlit(" extra");
        reveal_strlit(" files verified, 0 differences");
        lemma_second_last(head, " extra"@);
        lemma_second_last("vhsvault: OK — "@ + decimal(ok), " files verified, 0 differences"@);
        assert(okl + seq!['\n'] == "vhsvault: OK — "@ + decimal(ok)
            + " files verified, 0 differences"@ + nl());
        assert(text[text.len() - 2] == 'a');
        assert((okl + seq!['\n'])[(okl + seq!['\n']).len() - 2] == 's');
    }
}

/// A verify report that found any modified, missing or extra file lists
/// the modified files, then the missing ones, then the extra ones, each
/// under its title, and ends with the FAIL summary counting them.
pub proof fn lemma_verify_report_lists_differences(
    modified: Seq<ModifiedView>,
    missing: Seq<Seq<char>>,
    extra: Seq<Seq<char>>,
    ok: nat,
)
    requires
        modified.len() > 0 || missing.len() > 0 || extra.len() > 0,
    ensures
        verify_report_text(modified, missing, extra, ok) == modified_section(modified)
            + paths_section("MISSING"@, missing) + paths_section("EXTRA"@, extra) + fail_summary(
            ok,
            modified.len(),
            missing.len(),
            extra.len(),
        ),
        missing.len() > 0 ==> paths_section("MISSING"@, missing) == "MISSING"@ + " ("@ + decimal(
            missing.len(),
        ) + "):"@ + nl() + all_lines(missing, |p: Seq<char>| path_line(p)),
{
}

/// The text of a diff report is the "identical" line exactly when nothing
/// was removed, added or changed.
pub proof fn lemma_diff_report_identical_iff_same(
    only_first: Seq<EntryView>,
    only_second: Seq<EntryView>,
    changed: Seq<DiffChangedView>,
    unchanged: nat,
)
    ensures
        (diff_report_text(only_first, only_second, changed, unchanged) == "vhsvault: identical — "@
            + decimal(unchanged) + " entries match"@ + seq!['\n']) <==> (only_first.len() == 0
            && only_second.len() == 0 && changed.len() == 0),
{
    let same = only_first.len() == 0 && only_second.len() == 0 && changed.len() == 0;
    if !same {
        let idl = "vhsvault: identical — "@ + decimal(unchanged) + " entries match"@;
        let head = entries_section("REMOVED"@, only_first) + entries_section("ADDED"@, only_second)
            + changed_section(changed) + "vhsvault: "@ + decimal(unchanged) + " unchanged, "@
            + decimal(only_first.len()) + " removed, "@ + decimal(only_second.len()) + " added, "@
            + decimal(changed.len());
        let text = diff_report_text(only_first, only_second, changed, unchanged);
        assert(text =~= head + " changed"@ + nl());
        reveal_strlit(" changed");
        reveal_strlit(" entries match");
        lemma_second_last(head, " changed"@);
        lemma_second_last("vhsvault: identical — "@ + decimal(unchanged), " entries match"@);
        assert(idl + seq!['\n'] == "vhsvault: identical — "@ + decimal(unchanged)
            + " entries match"@ + nl());
        assert(text[text.len() - 2] == 'd');
        assert((idl + seq!['\n'])[(idl + seq!['\n']).len() - 2] == 'h');
    }
}

/// A diff report that found any removed, added or changed entry lists the
/// removed, then the added, then the changed entries, each under its
/// title, and ends with the summary counting them.
pub proof fn lemma_diff_report_lists_differences(
    only_first: Seq<EntryView>,
    only_second: Seq<EntryView>,
    changed: Seq<DiffChangedView>,
    unchanged: nat,
)
    requires
        only_first.len() > 0 || only_second.len() > 0 || changed.len() > 0,
    ensures
        diff_report_text(only_first, only_second, changed, unchanged) == entries_section(
            "REMOVED"@,
            only_first,
        ) + entries_section("ADDED"@, only_second) + changed_section(changed) + diff_summary(
            unchanged,
            only_first.len(),
            only_second.len(),
            changed.len(),
        ),
        changed.len() > 0 ==> changed_section(changed) == "CHANGED"@ + " ("@ + decimal(
            changed.len(),
        ) + "):"@ + nl() + all_lines(changed, |c: DiffChangedView| changed_line(c)),
{
}

/// `-h` or `--help` given to `verify` or `diff` before any other flag asks
/// for help, whatever follows.
pub proof fn lemma_pair_args_help(args: Seq<Seq<char>>, j: int)
    requires
        0 <= j < args.len(),
        args[j] == "-h"@ || args[j] == "--help"@,
        forall|k: int| 0 <= k < j ==> !is_flag(#[trigger] args[k]),
    ensures
        pair_args_from(args, 0, seq![]) == PairArgsView::Help,
{
    lemma_pair_args_help_from(args, 0, seq![], j);
}

proof fn lemma_pair_args_help_from(args: Seq<Seq<char>>, i: int, paths: Seq<Seq<char>>, j: int)
    requires
        0 <= i <= j < args.len(),
        args[j] == "-h"@ || args[j] == "--help"@,
        forall|k: int| 0 <= k < j ==> !is_flag(#[trigger] args[k]),
    ensures
        pair_args_from(args, i, paths) == PairArgsView::Help,
    decreases j - i,
{
    if i < j {
        let a = args[i];
        assert(!is_flag(a));
        reveal_strlit("-h");
        reveal_strlit("--help");
        assert(a != "-h"@ && a != "--help"@) by {
            if a == "-h"@ {
                assert(a[0] == '-');
            }
            if a == "--help"@ {
                assert(a[0] == '-');
            }
        }
        lemma_pair_args_help_from(args, i + 1, paths.push(a), j);
    }
}

/// `-h` or `--help` given first to `create`, or after a directory that is
/// not a flag, asks for help, whatever follows.
pub proof fn lemma_create_args_help(args: Seq<Seq<char>>, j: int)
    requires
        0 <= j < args.len(),
        j <= 1,
        args[j] == "-h"@ || args[j] == "--help"@,
        j == 1 ==> !is_flag(args[0]),
    ensures
        create_args_from(args, 0, None, None) == CreateArgsView::Help,
{
    reveal_strlit("-h");
    reveal_strlit("--help");
    reveal_strlit("--out");
    if j == 1 {
        let a = args[0];
        if a == "--out"@ || a == "-h"@ || a == "--help"@ {
            assert(a[0] == '-');
        }
        assert(create_args_from(args, 0, None, None) == create_args_from(args, 1, Some(a), None));
    }
    assert(args[j] != "--out"@) by {
        if args[j] == "--out"@ {
            assert(args[j].len() == 5);
        }
    }
}

/// The first argument of `verify` or `diff` that starts with `-`, when it
/// is neither `-h` nor `--help`, is refused as an unknown flag.
pub proof fn lemma_pair_args_unknown_flag(args: Seq<Seq<char>>, j: int)
    requires
        0 <= j < args.len(),
        is_flag(args[j]),
        args[j] != "-h"@ && args[j] != "--help"@,
        forall|k: int| 0 <= k < j ==> !is_flag(#[trigger] args[k]),
    ensures
        pair_args_from(args, 0, seq![]) == PairArgsView::UnknownFlag(args[j]),
{
    lemma_pair_args_unknown_from(args, 0, seq![], j);
}

proof fn lemma_pair_args_unknown_from(args: Seq<Seq<char>>, i: int, paths: Seq<Seq<char>>, j: int)
    requires
        0 <= i <= j < args.len(),
        is_flag(args[j]),
        args[j] != "-h"@ && args[j] != "--help"@,
        forall|k: int| 0 <= k < j ==> !is_flag(#[trigger] args[k]),
    ensures
        pair_args_from(args, i, paths) == PairArgsView::UnknownFlag(args[j]),
    decreases j - i,
{
    if i < j {
        let a = args[i];
        assert(!is_flag(a));
        reveal_strlit("-h");
        reveal_strlit("--help");
        assert(a != "-h"@ && a != "--help"@) by {
            if a == "-h"@ || a == "--help"@ {
                assert(a[0] == '-');
            }
        }
        lemma_pair_args_unknown_from(args, i + 1, paths.push(a), j);
    }
}

/// Arguments of `verify` or `diff` none of which starts with `-` are the
/// two paths, in order, when there are exactly two, and refused otherwise.
pub proof fn lemma_pair_args_paths(args: Seq<Seq<char>>)
    requires
        forall|k: int| 0 <= k < args.len() ==> !is_flag(#[trigger] args[k]),
    ensures
        pair_args_from(args, 0, seq![]) == (if args.len() == 2 {
            PairArgsView::Run(args[0], args[1])
        } else {
            PairArgsView::WrongCount
        }),
{
    assert(args.take(0) =~= Seq::<Seq<char>>::empty());
    lemma_pair_args_paths_from(args, 0);
}

proof fn lemma_pair_args_paths_from(args: Seq<Seq<char>>, i: int)
    requires
        0 <= i <= args.len(),
        forall|k: int| 0 <= k < args.len() ==> !is_flag(#[trigger] args[k]),
    ensures
        pair_args_from(args, i, args.take(i)) == (if args.len() == 2 {
            PairArgsView::Run(args[0], args[1])
        } else {
            PairArgsView::WrongCount
        }),
    decreases args.len() - i,
{
    if i < args.len() {
        let a = args[i];
        assert(!is_flag(a));
        reveal_strlit("-h");
        reveal_strlit("--help");
        assert(a != "-h"@ && a != "--help"@) by {
            if a == "-h"@ || a == "--help"@ {
                assert(a[0] == '-');
            }
        }
        assert(args.take(i).push(a) =~= args.take(i + 1));
        lemma_pair_args_paths_from(args, i + 1);
    } else {
        assert(args.take(i) =~= args);
    }
}

} // verus!
