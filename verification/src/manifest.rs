//! Manifest entries and manifests: ordering, lookup and the VHS1 text form.

use vstd::prelude::*;
use crate::number::{decimal, hex16, push_decimal, push_hex16};
use crate::text::{
    lemma_lex_le_antisymmetric, push_char, str_eq, string_views,
    lemma_lex_le_reflexive, lemma_lex_le_total, lemma_lex_le_transitive, lex_le, str_le,
};

verus! {

/// What a manifest entry records of one file.
pub struct EntryView {
    pub path: Seq<char>,
    pub size: u64,
    pub hash: u64,
}

/// A single entry in a VHS1 manifest.
#[derive(Debug, PartialEq, Eq)]
pub struct ManifestEntry {
    /// Relative path from the archive root (forward-slash separated).
    pub path: String,
    /// File size in bytes.
    pub size: u64,
    /// FNV-1a 64-bit hash of file contents.
    pub hash: u64,
}

impl View for ManifestEntry {
    type V = EntryView;

    open spec fn view(&self) -> EntryView {
        EntryView { path: self.path@, size: self.size, hash: self.hash }
    }
}

/// The views of a sequence of entries.
pub open spec fn views(s: Seq<ManifestEntry>) -> Seq<EntryView> {
    s.map_values(|e: ManifestEntry| e@)
}

/// An ordered collection of manifest entries.
#[derive(Debug)]
pub struct Manifest {
    pub entries: Vec<ManifestEntry>,
}

impl View for Manifest {
    type V = Seq<EntryView>;

    open spec fn view(&self) -> Seq<EntryView> {
        views(self.entries@)
    }
}

// ---------------------------------------------------------------------------
// Ordering by path
// ---------------------------------------------------------------------------

/// Every entry's path sorts before or equal to the paths of the entries after it.
pub open spec fn sorted_by_path(s: Seq<EntryView>) -> bool {
    forall|i: int, j: int| 0 <= i < j < s.len() ==> lex_le(s[i].path, s[j].path)
}

/// The entries of `s` whose path is `p`, in their order in `s`.
pub open spec fn entries_at(s: Seq<EntryView>, p: Seq<char>) -> Seq<EntryView> {
    s.filter(|e: EntryView| e.path == p)
}

/// `out` is `inp` stably sorted by path: `out` is sorted, and for every path
/// the entries with that path are the same in both, in the same order.
/// Exactly one sequence is the stable sort of `inp`.
pub open spec fn stably_sorted(out: Seq<EntryView>, inp: Seq<EntryView>) -> bool {
    &&& sorted_by_path(out)
    &&& forall|p: Seq<char>| #[trigger] entries_at(out, p) == entries_at(inp, p)
}

proof fn lemma_entries_at_single(x: EntryView, p: Seq<char>)
    ensures
        entries_at(seq![x], p) == (if x.path == p { seq![x] } else { Seq::<EntryView>::empty() }),
{
    reveal(Seq::filter);
    let pred = |e: EntryView| e.path == p;
    assert(seq![x].drop_last() =~= Seq::<EntryView>::empty());
    assert(Seq::<EntryView>::empty().filter(pred) =~= Seq::<EntryView>::empty());
    assert(seq![x].last() == x);
    if x.path == p {
        assert(seq![x].filter(pred) =~= Seq::<EntryView>::empty().push(x));
    } else {
        assert(seq![x].filter(pred) =~= Seq::<EntryView>::empty());
    }
}

proof fn lemma_entries_at_prepend(x: EntryView, s: Seq<EntryView>, p: Seq<char>)
    ensures
        entries_at(seq![x] + s, p) == (if x.path == p { seq![x] + entries_at(s, p) } else {
            entries_at(s, p)
        }),
{
    Seq::filter_distributes_over_add(seq![x], s, |e: EntryView| e.path == p);
    lemma_entries_at_single(x, p);
    if x.path != p {
        assert(Seq::<EntryView>::empty() + entries_at(s, p) =~= entries_at(s, p));
    }
}

proof fn lemma_entries_at_none(s: Seq<EntryView>, p: Seq<char>)
    requires
        forall|i: int| 0 <= i < s.len() ==> s[i].path != p,
    ensures
        entries_at(s, p) == Seq::<EntryView>::empty(),
{
    let pred = |e: EntryView| e.path == p;
    assert(s.all(|e: EntryView| !pred(e)));
    s.lemma_all_neg_filter_empty(pred);
    assert(entries_at(s, p) =~= Seq::<EntryView>::empty());
}

/// Inserting `x` after every entry with a smaller path and before every
/// other entry puts it first among the entries with its path.
proof fn lemma_entries_at_insert(t: Seq<EntryView>, k: int, x: EntryView, p: Seq<char>)
    requires
        0 <= k <= t.len(),
        forall|i: int| 0 <= i < k ==> t[i].path != x.path,
    ensures
        entries_at(t.insert(k, x), p) == (if x.path == p { seq![x] + entries_at(t, p) } else {
            entries_at(t, p)
        }),
{
    let pred = |e: EntryView| e.path == p;
    let a = t.take(k);
    let b = t.skip(k);
    assert(t.insert(k, x) =~= a + (seq![x] + b));
    assert(t =~= a + b);
    Seq::filter_distributes_over_add(a, seq![x] + b, pred);
    Seq::filter_distributes_over_add(a, b, pred);
    lemma_entries_at_prepend(x, b, p);
    if x.path == p {
        lemma_entries_at_none(a, p);
        assert(entries_at(a, p) + (seq![x] + entries_at(b, p)) =~= seq![x] + entries_at(b, p));
        assert(entries_at(a, p) + entries_at(b, p) =~= entries_at(b, p));
    }
}

proof fn lemma_insert_sorted(t: Seq<EntryView>, k: int, x: EntryView)
    requires
        0 <= k <= t.len(),
        sorted_by_path(t),
        forall|i: int| 0 <= i < k ==> !lex_le(x.path, #[trigger] t[i].path),
        forall|i: int| k <= i < t.len() ==> lex_le(x.path, #[trigger] t[i].path),
    ensures
        sorted_by_path(t.insert(k, x)),
{
    let u = t.insert(k, x);
    t.insert_ensures(k, x);
    assert forall|i: int, j: int| 0 <= i < j < u.len() implies lex_le(u[i].path, u[j].path) by {
        if i < k {
            if j < k {
                assert(u[i] == t[i] && u[j] == t[j]);
            } else if j == k {
                lemma_lex_le_total(x.path, t[i].path);
            } else {
                assert(u[j] == t[j - 1]);
            }
        } else if i == k {
            assert(u[j] == t[j - 1]);
        } else {
            assert(u[i] == t[i - 1] && u[j] == t[j - 1]);
        }
    }
}

/// The position at which `x` goes in the sorted `t`: after every entry with
/// a smaller path, before every other entry.
pub(crate) fn lower_bound(t: &Vec<ManifestEntry>, x: &ManifestEntry) -> (k: usize)
    requires
        sorted_by_path(views(t@)),
    ensures
        k <= t@.len(),
        forall|i: int| 0 <= i < k ==> !lex_le(x.path@, #[trigger] views(t@)[i].path),
        forall|i: int| k <= i < t@.len() ==> lex_le(x.path@, #[trigger] views(t@)[i].path),
{
    let ghost tv = views(t@);
    let mut lo: usize = 0;
    let mut hi: usize = t.len();
    while lo < hi
        invariant
            lo <= hi <= t@.len(),
            tv == views(t@),
            sorted_by_path(tv),
            forall|i: int| 0 <= i < lo ==> !lex_le(x.path@, #[trigger] tv[i].path),
            forall|i: int| hi <= i < t@.len() ==> lex_le(x.path@, #[trigger] tv[i].path),
        decreases hi - lo,
    {
        let mid = lo + (hi - lo) / 2;
        assert(tv[mid as int] == t@[mid as int]@);
        if str_le(x.path.as_str(), t[mid].path.as_str()) {
            assert forall|i: int| mid <= i < t@.len() implies lex_le(x.path@, #[trigger] tv[i].path) by {
                if i > mid {
                    lemma_lex_le_transitive(x.path@, tv[mid as int].path, tv[i].path);
                } else {
                    assert(i == mid);
                }
            }
            hi = mid;
        } else {
            assert forall|i: int| 0 <= i <= mid implies !lex_le(x.path@, #[trigger] tv[i].path) by {
                if i < mid && lex_le(x.path@, tv[i].path) {
                    lemma_lex_le_transitive(x.path@, tv[i].path, tv[mid as int].path);
                }
            }
            lo = mid + 1;
        }
    }
    lo
}

impl ManifestEntry {
    /// A copy of this entry.
    pub fn duplicate(&self) -> (r: ManifestEntry)
        ensures
            r@ == self@,
    {
        ManifestEntry { path: self.path.clone(), size: self.size, hash: self.hash }
    }
}

impl Manifest {
    /// An empty manifest.
    pub fn new() -> (m: Manifest)
        ensures
            m@ == Seq::<EntryView>::empty(),
    {
        Manifest { entries: Vec::new() }
    }

    /// Appends an entry at the end.
    pub fn push(&mut self, entry: ManifestEntry)
        ensures
            final(self)@ == old(self)@.push(entry@),
    {
        self.entries.push(entry);
        assert(final(self)@ =~= old(self)@.push(entry@));
    }

    /// Sorts the entries by path, keeping the order of entries with equal
    /// paths, for deterministic output.
    pub fn sort(&mut self)
        ensures
            stably_sorted(final(self)@, old(self)@),
    {
        let mut rest: Vec<ManifestEntry> = Vec::new();
        std::mem::swap(&mut rest, &mut self.entries);
        let ghost orig = views(rest@);
        let mut done: Vec<ManifestEntry> = Vec::new();
        assert(orig.skip(rest@.len() as int) =~= Seq::<EntryView>::empty());
        assert(views(done@) =~= Seq::<EntryView>::empty());
        while rest.len() > 0
            invariant
                rest@.len() <= orig.len(),
                views(rest@) == orig.take(rest@.len() as int),
                stably_sorted(views(done@), orig.skip(rest@.len() as int)),
            decreases rest@.len(),
        {
            let x = rest.pop().unwrap();
            let n = rest.len();
            let ghost old_done = views(done@);
            assert(views(rest@) =~= orig.take(n as int));
            assert(orig.take(n + 1)[n as int] == x@);
            assert(orig.skip(n as int) =~= seq![x@] + orig.skip(n + 1));
            let k = lower_bound(&done, &x);
            done.insert(k, x);
            assert(views(done@) =~= old_done.insert(k as int, x@));
            proof {
                lemma_insert_sorted(old_done, k as int, x@);
                assert forall|i: int| 0 <= i < k implies old_done[i].path != x@.path by {
                    lemma_lex_le_reflexive(x@.path);
                }
                assert forall|p: Seq<char>| #[trigger] entries_at(views(done@), p) == entries_at(
                    orig.skip(n as int),
                    p,
                ) by {
                    lemma_entries_at_insert(old_done, k as int, x@, p);
                    lemma_entries_at_prepend(x@, orig.skip(n + 1), p);
                }
            }
        }
        assert(orig.skip(0) =~= orig);
        self.entries = done;
    }
}

// ---------------------------------------------------------------------------
// Text form
// ---------------------------------------------------------------------------

/// The manifest line of an entry: `VHS1|path|size|hash`, the size in
/// decimal and the hash as sixteen lowercase hexadecimal digits.
pub open spec fn entry_line(e: EntryView) -> Seq<char> {
    seq!['V', 'H', 'S', '1', '|'] + e.path + seq!['|'] + decimal(e.size as nat) + seq!['|']
        + hex16(e.hash)
}

/// First comment line of a manifest.
pub open spec fn title_line() -> Seq<char> {
    "# vhsvault manifest v1 (FNV-1a 64-bit)"@
}

/// Second comment line of a manifest.
pub open spec fn format_line() -> Seq<char> {
    "# format: VHS1|path|size|hash"@
}

/// The entry lines of `es`, each ended by a newline.
pub open spec fn entry_lines(es: Seq<EntryView>) -> Seq<char>
    decreases es.len(),
{
    if es.len() == 0 {
        seq![]
    } else {
        entry_lines(es.drop_last()) + entry_line(es.last()) + seq!['\n']
    }
}

/// The text form of a manifest: the two comment lines, then one line per
/// entry, in order.
pub open spec fn manifest_text(es: Seq<EntryView>) -> Seq<char> {
    title_line() + seq!['\n'] + format_line() + seq!['\n'] + entry_lines(es)
}

/// Relative path components joined with forward slashes.
pub open spec fn join_path(cs: Seq<Seq<char>>) -> Seq<char>
    decreases cs.len(),
{
    if cs.len() == 0 {
        seq![]
    } else if cs.len() == 1 {
        cs[0]
    } else {
        join_path(cs.drop_last()) + seq!['/'] + cs.last()
    }
}

impl ManifestEntry {
    /// Appends the manifest line of this entry to `s`.
    pub fn write_line(&self, s: &mut String)
        ensures
            final(s)@ == old(s)@ + entry_line(self@),
    {
        push_char(s, 'V');
        push_char(s, 'H');
        push_char(s, 'S');
        push_char(s, '1');
        push_char(s, '|');
        s.append(self.path.as_str());
        push_char(s, '|');
        push_decimal(s, self.size);
        push_char(s, '|');
        push_hex16(s, self.hash);
        assert(final(s)@ =~= old(s)@ + entry_line(self@));
    }

    /// The manifest line of this entry, as displayed.
    pub fn to_line(&self) -> (line: String)
        ensures
            line@ == entry_line(self@),
    {
        let mut s = String::new();
        self.write_line(&mut s);
        assert(s@ =~= entry_line(self@));
        s
    }
}

impl Manifest {
    /// Looks up the first entry with the given path.
    pub fn get(&self, path: &str) -> (r: Option<&ManifestEntry>)
        ensures
            match r {
                Some(e) => exists|i: int|
                    0 <= i < self@.len() && self.entries@[i] == *e && self@[i].path == path@
                        && forall|j: int| 0 <= j < i ==> #[trigger] self@[j].path != path@,
                None => forall|i: int| 0 <= i < self@.len() ==> #[trigger] self@[i].path != path@,
            },
    {
        let mut i: usize = 0;
        while i < self.entries.len()
            invariant
                i <= self@.len(),
                self@.len() == self.entries@.len(),
                forall|j: int| 0 <= j < i ==> #[trigger] self@[j].path != path@,
            decreases self@.len() - i,
        {
            if str_eq(self.entries[i].path.as_str(), path) {
                return Some(&self.entries[i]);
            }
            i = i + 1;
        }
        None
    }

    /// All paths in this manifest, in order.
    pub fn paths(&self) -> (r: Vec<&str>)
        ensures
            r@.len() == self@.len(),
            forall|i: int| 0 <= i < r@.len() ==> #[trigger] r@[i]@ == self@[i].path,
    {
        let mut r: Vec<&str> = Vec::new();
        let mut i: usize = 0;
        while i < self.entries.len()
            invariant
                i <= self@.len(),
                self@.len() == self.entries@.len(),
                r@.len() == i,
                forall|j: int| 0 <= j < i ==> #[trigger] r@[j]@ == self@[j].path,
            decreases self@.len() - i,
        {
            r.push(self.entries[i].path.as_str());
            i = i + 1;
        }
        r
    }

    /// The manifest as text: the two comment lines, then one line per entry.
    pub fn to_text(&self) -> (text: String)
        ensures
            text@ == manifest_text(self@),
    {
        let mut s = String::new();
        s.append("# vhsvault manifest v1 (FNV-1a 64-bit)");
        push_char(&mut s, '\n');
        s.append("# format: VHS1|path|size|hash");
        push_char(&mut s, '\n');
        let ghost head = s@;
        assert(entry_lines(views(self.entries@.take(0))) =~= Seq::<char>::empty());
        let mut i: usize = 0;
        while i < self.entries.len()
            invariant
                i <= self.entries@.len(),
                s@ == head + entry_lines(self@.take(i as int)),
            decreases self.entries@.len() - i,
        {
            self.entries[i].write_line(&mut s);
            push_char(&mut s, '\n');
            assert(self@.take(i + 1).drop_last() =~= self@.take(i as int));
            assert(s@ =~= head + entry_lines(self@.take(i + 1)));
            i = i + 1;
        }
        assert(self@.take(i as int) =~= self@);
        assert(s@ =~= manifest_text(self@));
        s
    }
}

/// Joins relative path components with forward slashes, the separator the
/// manifest uses on every platform.
pub fn path_to_manifest_string(components: &Vec<String>) -> (s: String)
    ensures
        s@ == join_path(string_views(components@)),
{
    let ghost cs = string_views(components@);
    let mut s = String::new();
    let mut i: usize = 0;
    assert(join_path(cs.take(0)) =~= Seq::<char>::empty());
    while i < components.len()
        invariant
            i <= components@.len(),
            cs == string_views(components@),
            s@ == join_path(cs.take(i as int)),
        decreases components@.len() - i,
    {
        assert(cs.take(i + 1).drop_last() =~= cs.take(i as int));
        if i > 0 {
            push_char(&mut s, '/');
        }
        s.append(components[i].as_str());
        assert(s@ =~= join_path(cs.take(i + 1)));
        i = i + 1;
    }
    assert(cs.take(i as int) =~= cs);
    s
}

/// One regular file found under the archive root: its path relative to the
/// root, as components, and its size and hash.
pub struct ScannedFile {
    pub components: Vec<String>,
    pub size: u64,
    pub hash: u64,
}

/// The manifest entry recording a scanned file.
pub open spec fn scanned_entry(f: ScannedFile) -> EntryView {
    EntryView { path: join_path(string_views(f.components@)), size: f.size, hash: f.hash }
}

/// The manifest entries recording scanned files, in the same order.
pub open spec fn scanned_entries(fs: Seq<ScannedFile>) -> Seq<EntryView> {
    fs.map_values(|f: ScannedFile| scanned_entry(f))
}

/// Builds the manifest of the scanned files: one entry per file, with its
/// path joined by forward slashes, sorted by path.
pub fn build_manifest(scanned: &Vec<ScannedFile>) -> (m: Manifest)
    ensures
        stably_sorted(m@, scanned_entries(scanned@)),
{
    let mut m = Manifest::new();
    let mut i: usize = 0;
    while i < scanned.len()
        invariant
            i <= scanned@.len(),
            m@ == scanned_entries(scanned@).take(i as int),
        decreases scanned@.len() - i,
    {
        let f = &scanned[i];
        m.push(ManifestEntry { path: path_to_manifest_string(&f.components), size: f.size, hash: f.hash });
        assert(m@ =~= scanned_entries(scanned@).take(i + 1));
        i = i + 1;
    }
    assert(scanned_entries(scanned@).take(i as int) =~= scanned_entries(scanned@));
    m.sort();
    m
}

// ---------------------------------------------------------------------------
// Laws of ordering
// ---------------------------------------------------------------------------

proof fn lemma_entries_at_nonempty(s: Seq<EntryView>, i: int)
    requires
        0 <= i < s.len(),
    ensures
        entries_at(s, s[i].path).len() > 0,
{
    let p = s[i].path;
    s.lemma_filter_contains(|e: EntryView| e.path == p, i);
}

/// The stable sort is unique: two sequences that are both the stable sort
/// of the same entries are equal. So sorting, and everything built on it,
/// is deterministic.
pub proof fn lemma_stable_sort_unique(a: Seq<EntryView>, b: Seq<EntryView>, s: Seq<EntryView>)
    requires
        stably_sorted(a, s),
        stably_sorted(b, s),
    ensures
        a == b,
    decreases a.len() + b.len(),
{
    reveal(Seq::filter);
    if a.len() == 0 || b.len() == 0 {
        if a.len() > 0 {
            lemma_entries_at_nonempty(a, 0);
            assert(entries_at(b, a[0].path) == entries_at(s, a[0].path));
            assert(entries_at(a, a[0].path) == entries_at(s, a[0].path));
            assert(b =~= Seq::<EntryView>::empty());
            assert(entries_at(b, a[0].path) =~= Seq::<EntryView>::empty());
        }
        if b.len() > 0 {
            lemma_entries_at_nonempty(b, 0);
            assert(entries_at(b, b[0].path) == entries_at(s, b[0].path));
            assert(entries_at(a, b[0].path) == entries_at(s, b[0].path));
            assert(entries_at(a, b[0].path) =~= Seq::<EntryView>::empty());
        }
        assert(a =~= b);
    } else {
        let x = a.last();
        let y = b.last();
        // The largest path is the same on both sides.
        lemma_entries_at_nonempty(a, a.len() - 1);
        lemma_entries_at_nonempty(b, b.len() - 1);
        assert(entries_at(a, x.path) == entries_at(s, x.path));
        assert(entries_at(b, x.path) == entries_at(s, x.path));
        assert(entries_at(a, y.path) == entries_at(s, y.path));
        assert(entries_at(b, y.path) == entries_at(s, y.path));
        let fb = entries_at(b, x.path);
        b.lemma_filter_pred(|e: EntryView| e.path == x.path, 0);
        assert(fb[0].path == x.path);
        assert(b.filter(|e: EntryView| e.path == x.path).contains(fb[0]));
        b.lemma_filter_contains_rev(|e: EntryView| e.path == x.path, fb[0]);
        assert(exists|j: int| 0 <= j < b.len() && b[j].path == x.path);
        let j = choose|j: int| 0 <= j < b.len() && b[j].path == x.path;
        if j < b.len() - 1 {
            assert(lex_le(b[j].path, y.path));
        } else {
            lemma_lex_le_reflexive(y.path);
        }
        let fa = entries_at(a, y.path);
        a.lemma_filter_pred(|e: EntryView| e.path == y.path, 0);
        assert(a.filter(|e: EntryView| e.path == y.path).contains(fa[0]));
        a.lemma_filter_contains_rev(|e: EntryView| e.path == y.path, fa[0]);
        assert(exists|k: int| 0 <= k < a.len() && a[k].path == y.path);
        let k = choose|k: int| 0 <= k < a.len() && a[k].path == y.path;
        if k < a.len() - 1 {
            assert(lex_le(a[k].path, x.path));
        } else {
            lemma_lex_le_reflexive(x.path);
        }
        lemma_lex_le_antisymmetric(x.path, y.path);
        // The last entries are both the last entry with that path.
        assert(entries_at(a, x.path) == entries_at(a.drop_last(), x.path).push(x));
        assert(entries_at(b, x.path) == entries_at(b.drop_last(), x.path).push(y));
        assert(x == entries_at(a, x.path).last());
        assert(y == entries_at(b, x.path).last());
        assert forall|p: Seq<char>| #[trigger] entries_at(a.drop_last(), p) == entries_at(
            b.drop_last(),
            p,
        ) by {
            assert(entries_at(a, p) == entries_at(s, p));
            assert(entries_at(b, p) == entries_at(s, p));
            if p == x.path {
                assert(entries_at(a.drop_last(), p) =~= entries_at(a, p).drop_last());
                assert(entries_at(b.drop_last(), p) =~= entries_at(b, p).drop_last());
            }
        }
        assert(sorted_by_path(a.drop_last()));
        assert(sorted_by_path(b.drop_last()));
        assert forall|p: Seq<char>| #[trigger] entries_at(b.drop_last(), p) == entries_at(
            a.drop_last(),
            p,
        ) by {
            assert(entries_at(a.drop_last(), p) == entries_at(b.drop_last(), p));
        }
        lemma_stable_sort_unique(a.drop_last(), b.drop_last(), a.drop_last());
        assert(a =~= a.drop_last().push(x));
        assert(b =~= b.drop_last().push(y));
    }
}

/// Sorting is idempotent: the stable sort of sorted entries is those entries.
pub proof fn lemma_sort_of_sorted(out: Seq<EntryView>, s: Seq<EntryView>)
    requires
        sorted_by_path(s),
        stably_sorted(out, s),
    ensures
        out == s,
{
    lemma_stable_sort_unique(out, s, s);
}

/// No two entries of `s` share a path.
pub open spec fn distinct_paths(s: Seq<EntryView>) -> bool {
    forall|i: int, j: int| 0 <= i < j < s.len() ==> #[trigger] s[i].path != #[trigger] s[j].path
}

proof fn lemma_entries_at_distinct(s: Seq<EntryView>, i: int)
    requires
        distinct_paths(s),
        0 <= i < s.len(),
    ensures
        entries_at(s, s[i].path) == seq![s[i]],
    decreases s.len(),
{
    reveal(Seq::filter);
    let p = s[i].path;
    let rest = s.drop_last();
    assert forall|a: int, b: int| 0 <= a < b < rest.len() implies #[trigger] rest[a].path
        != #[trigger] rest[b].path by {
        assert(rest[a] == s[a] && rest[b] == s[b]);
    }
    if i == s.len() - 1 {
        assert forall|j: int| 0 <= j < rest.len() implies rest[j].path != p by {
            assert(rest[j] == s[j]);
        }
        lemma_entries_at_none(rest, p);
        assert(entries_at(s, p) =~= Seq::<EntryView>::empty().push(s[i]));
    } else {
        assert(rest[i] == s[i]);
        lemma_entries_at_distinct(rest, i);
        assert(s.last() == s[s.len() - 1]);
        assert(s.last().path != p);
    }
}

/// Sorting entries with distinct paths does not depend on their order: any
/// two orderings of the same entries sort to the same sequence. So the
/// manifest of a directory does not depend on the order in which the walk
/// found its files.
pub proof fn lemma_sort_order_free(
    a: Seq<EntryView>,
    b: Seq<EntryView>,
    s1: Seq<EntryView>,
    s2: Seq<EntryView>,
)
    requires
        stably_sorted(a, s1),
        stably_sorted(b, s2),
        s1.to_multiset() == s2.to_multiset(),
        distinct_paths(s1),
        distinct_paths(s2),
    ensures
        a == b,
{
    s1.to_multiset_ensures();
    s2.to_multiset_ensures();
    assert forall|p: Seq<char>| #[trigger] entries_at(b, p) == entries_at(s1, p) by {
        if exists|i: int| 0 <= i < s1.len() && s1[i].path == p {
            let i = choose|i: int| 0 <= i < s1.len() && s1[i].path == p;
            lemma_entries_at_distinct(s1, i);
            assert(s1.contains(s1[i]));
            assert(s1.to_multiset().count(s1[i]) > 0);
            assert(s2.to_multiset().count(s1[i]) > 0);
            assert(s2.contains(s1[i]));
            let j = choose|j: int| 0 <= j < s2.len() && s2[j] == s1[i];
            lemma_entries_at_distinct(s2, j);
            assert(entries_at(b, p) == entries_at(s2, p));
        } else {
            lemma_entries_at_none(s1, p);
            assert forall|j: int| 0 <= j < s2.len() implies s2[j].path != p by {
                assert(s2.contains(s2[j]));
                assert(s2.to_multiset().count(s2[j]) > 0);
                assert(s1.to_multiset().count(s2[j]) > 0);
                assert(s1.contains(s2[j]));
            }
            lemma_entries_at_none(s2, p);
            assert(entries_at(b, p) == entries_at(s2, p));
        }
    }
    lemma_stable_sort_unique(a, b, s1);
}

} // verus!
