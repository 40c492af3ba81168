//! Checking a manifest against what is on disk.

use vstd::prelude::*;
use crate::manifest::{EntryView, Manifest};
use crate::text::{
    lemma_lex_le_antisymmetric, lemma_lex_le_reflexive, lemma_lex_le_total,
    lemma_lex_le_transitive, lex_le, str_eq, str_le, string_views,
};

verus! {

// ---------------------------------------------------------------------------
// Sorted sets of paths
// ---------------------------------------------------------------------------

/// Paths strictly increase along `s`.
pub open spec fn increasing(s: Seq<Seq<char>>) -> bool {
    forall|i: int, j: int|
        #![trigger s[i], s[j]]
        0 <= i < j < s.len() ==> lex_le(s[i], s[j]) && s[i] != s[j]
}

/// The paths of the set `paths`, each once, in increasing order.
pub open spec fn sorted_set(paths: Set<Seq<char>>) -> Seq<Seq<char>> {
    choose|s: Seq<Seq<char>>| increasing(s) && s.to_set() == paths
}

pub proof fn lemma_increasing_unique(a: Seq<Seq<char>>, b: Seq<Seq<char>>)
    requires
        increasing(a),
        increasing(b),
        a.to_set() == b.to_set(),
    ensures
        a == b,
    decreases a.len() + b.len(),
{
    if a.len() == 0 || b.len() == 0 {
        if a.len() > 0 {
            assert(a.to_set().contains(a[0]));
        }
        if b.len() > 0 {
            assert(b.to_set().contains(b[0]));
        }
        assert(a =~= b);
    } else {
        let x = a.last();
        let y = b.last();
        assert(a.to_set().contains(x));
        assert(b.to_set().contains(y));
        assert(b.contains(x));
        assert(a.contains(y));
        let j = choose|j: int| 0 <= j < b.len() && b[j] == x;
        let k = choose|k: int| 0 <= k < a.len() && a[k] == y;
        if j < b.len() - 1 {
            assert(lex_le(b[j], y));
        } else {
            lemma_lex_le_reflexive(y);
        }
        if k < a.len() - 1 {
            assert(lex_le(a[k], x));
        } else {
            lemma_lex_le_reflexive(x);
        }
        lemma_lex_le_antisymmetric(x, y);
        let a2 = a.drop_last();
        let b2 = b.drop_last();
        assert forall|p: Seq<char>| a2.to_set().contains(p) <==> b2.to_set().contains(p) by {
            if a2.contains(p) {
                let i = choose|i: int| 0 <= i < a2.len() && a2[i] == p;
                assert(a.to_set().contains(a[i]));
                assert(b.contains(p));
                let i2 = choose|i2: int| 0 <= i2 < b.len() && b[i2] == p;
                assert(a[i] != a[a.len() - 1]);
                assert(i2 != b.len() - 1);
                assert(b2[i2] == p);
            }
            if b2.contains(p) {
                let i = choose|i: int| 0 <= i < b2.len() && b2[i] == p;
                assert(b.to_set().contains(b[i]));
                assert(a.contains(p));
                let i2 = choose|i2: int| 0 <= i2 < a.len() && a[i2] == p;
                assert(b[i] != b[b.len() - 1]);
                assert(i2 != a.len() - 1);
                assert(a2[i2] == p);
            }
        }
        assert(a2.to_set() =~= b2.to_set());
        lemma_increasing_unique(a2, b2);
        assert(a =~= a2.push(x));
        assert(b =~= b2.push(y));
    }
}

/// Any increasing listing of a set is `sorted_set` of it.
pub proof fn lemma_sorted_set(s: Seq<Seq<char>>)
    requires
        increasing(s),
    ensures
        sorted_set(s.to_set()) == s,
{
    lemma_increasing_unique(sorted_set(s.to_set()), s);
}

/// The position of `p` in the increasing `v`: after every smaller path,
/// before every other path; and whether `p` is there.
fn locate(v: &Vec<String>, p: &str) -> (r: (usize, bool))
    requires
        increasing(string_views(v@)),
    ensures
        r.0 <= v@.len(),
        forall|i: int| 0 <= i < r.0 ==> !lex_le(p@, #[trigger] string_views(v@)[i]),
        forall|i: int| r.0 <= i < v@.len() ==> lex_le(p@, #[trigger] string_views(v@)[i]),
        r.1 == string_views(v@).contains(p@),
        r.1 ==> string_views(v@)[r.0 as int] == p@,
{
    let ghost sv = string_views(v@);
    let mut lo: usize = 0;
    let mut hi: usize = v.len();
    while lo < hi
        invariant
            lo <= hi <= v@.len(),
            sv == string_views(v@),
            increasing(sv),
            forall|i: int| 0 <= i < lo ==> !lex_le(p@, #[trigger] sv[i]),
            forall|i: int| hi <= i < v@.len() ==> lex_le(p@, #[trigger] sv[i]),
        decreases hi - lo,
    {
        let mid = lo + (hi - lo) / 2;
        assert(sv[mid as int] == v@[mid as int]@);
        if str_le(p, v[mid].as_str()) {
            assert forall|i: int| mid <= i < v@.len() implies lex_le(p@, #[trigger] sv[i]) by {
                if i > mid {
                    lemma_lex_le_transitive(p@, sv[mid as int], sv[i]);
                }
            }
            hi = mid;
        } else {
            assert forall|i: int| 0 <= i <= mid implies !lex_le(p@, #[trigger] sv[i]) by {
                if i < mid && lex_le(p@, sv[i]) {
                    lemma_lex_le_transitive(p@, sv[i], sv[mid as int]);
                }
            }
            lo = mid + 1;
        }
    }
    let found = lo < v.len() && str_eq(v[lo].as_str(), p);
    proof {
        lemma_lex_le_reflexive(p@);
        if found {
            assert(sv[lo as int] == v@[lo as int]@);
            assert(sv.contains(p@));
        } else {
            assert forall|i: int| 0 <= i < sv.len() implies sv[i] != p@ by {
                if i > lo {
                    assert(lex_le(sv[lo as int], sv[i]) && sv[lo as int] != sv[i]);
                    if sv[i] == p@ {
                        lemma_lex_le_antisymmetric(sv[lo as int], p@);
                    }
                } else if i == lo {
                    assert(sv[lo as int] == v@[lo as int]@);
                }
            }
        }
    }
    (lo, found)
}

/// The paths of `paths`, each once, in increasing order.
pub fn sorted_unique(paths: &Vec<String>) -> (r: Vec<String>)
    ensures
        increasing(string_views(r@)),
        string_views(r@).to_set() == string_views(paths@).to_set(),
        string_views(r@) == sorted_set(string_views(paths@).to_set()),
{
    let ghost pv = string_views(paths@);
    let mut r: Vec<String> = Vec::new();
    let mut i: usize = 0;
    assert(string_views(r@).to_set() =~= pv.take(0).to_set());
    while i < paths.len()
        invariant
            i <= paths@.len(),
            pv == string_views(paths@),
            increasing(string_views(r@)),
            string_views(r@).to_set() == pv.take(i as int).to_set(),
        decreases paths@.len() - i,
    {
        let ghost before = string_views(r@);
        assert(pv.take(i + 1) =~= pv.take(i as int) + seq![pv[i as int]]);
        proof {
            Seq::lemma_to_set_insert_commutes(pv.take(i as int), pv[i as int]);
        }
        assert(pv[i as int] == paths@[i as int]@);
        let (k, found) = locate(&r, paths[i].as_str());
        if found {
            assert(before.to_set().insert(pv[i as int]) =~= before.to_set());
        } else {
            let x = paths[i].clone();
            r.insert(k, x);
            let ghost after = string_views(r@);
            assert(after =~= before.insert(k as int, pv[i as int]));
            proof {
                before.insert_ensures(k as int, pv[i as int]);
                let p = pv[i as int];
                assert forall|a: int, b: int| 0 <= a < b < after.len() implies lex_le(
                    after[a],
                    after[b],
                ) && after[a] != after[b] by {
                    lemma_lex_le_reflexive(p);
                    if a < k {
                        assert(after[a] == before[a]);
                        lemma_lex_le_total(p, before[a]);
                        assert(before[a] != p);
                        if b < k {
                            assert(after[b] == before[b]);
                        } else if b > k {
                            assert(after[b] == before[b - 1]);
                            lemma_lex_le_transitive(before[a], p, before[b - 1]);
                            assert(lex_le(before[a], before[b - 1]) && before[a] != before[b - 1]);
                        }
                    } else if a == k {
                        assert(after[b] == before[b - 1]);
                        assert(before.contains(before[b - 1]));
                    } else {
                        assert(after[a] == before[a - 1] && after[b] == before[b - 1]);
                    }
                }
                assert forall|q: Seq<char>| after.to_set().contains(q) <==> before.to_set().insert(
                    p,
                ).contains(q) by {
                    if after.contains(q) {
                        let j = choose|j: int| 0 <= j < after.len() && after[j] == q;
                        if j < k {
                            assert(before[j] == q);
                        } else if j > k {
                            assert(before[j - 1] == q);
                        }
                    }
                    if before.contains(q) {
                        let j = choose|j: int| 0 <= j < before.len() && before[j] == q;
                        if j < k {
                            assert(after[j] == q);
                        } else {
                            assert(after[j + 1] == q);
                        }
                    }
                    if q == p {
                        assert(after[k as int] == q);
                    }
                }
                assert(after.to_set() =~= before.to_set().insert(p));
            }
        }
        i = i + 1;
    }
    assert(pv.take(i as int) =~= pv);
    proof {
        lemma_sorted_set(string_views(r@));
    }
    r
}

// ---------------------------------------------------------------------------
// Verifying
// ---------------------------------------------------------------------------

/// Size and hash of a file as found on disk.
#[derive(Debug, Clone, Copy, PartialEq, Eq)]
pub struct Measurement {
    pub size: u64,
    pub hash: u64,
}

/// A file whose hash or size changed.
pub struct ModifiedView {
    pub path: Seq<char>,
    pub expected_size: u64,
    pub actual_size: u64,
    pub expected_hash: u64,
    pub actual_hash: u64,
}

/// A file whose hash or size changed.
#[derive(Debug)]
pub struct ModifiedEntry {
    pub path: String,
    pub expected_size: u64,
    pub actual_size: u64,
    pub expected_hash: u64,
    pub actual_hash: u64,
}

impl View for ModifiedEntry {
    type V = ModifiedView;

    open spec fn view(&self) -> ModifiedView {
        ModifiedView {
            path: self.path@,
            expected_size: self.expected_size,
            actual_size: self.actual_size,
            expected_hash: self.expected_hash,
            actual_hash: self.actual_hash,
        }
    }
}

/// Result of verifying a manifest against a directory.
#[derive(Debug)]
pub struct VerifyReport {
    /// Files whose hash or size changed.
    pub modified: Vec<ModifiedEntry>,
    /// Files in the manifest but missing from disk.
    pub missing: Vec<String>,
    /// Files on disk but not in the manifest.
    pub extra: Vec<String>,
    /// Total files checked (matched).
    pub ok_count: usize,
}

/// The file of entry `e` was found, with the recorded size and hash.
pub open spec fn matches_entry(e: EntryView, m: Measurement) -> bool {
    m.size == e.size && m.hash == e.hash
}

/// The entries, in order, whose file was found with another size or hash;
/// `ms[i]` is what was found for entry `i` (nothing: no such file).
pub open spec fn modified_of(es: Seq<EntryView>, ms: Seq<Option<Measurement>>) -> Seq<ModifiedView>
    decreases es.len(),
{
    if es.len() == 0 || ms.len() == 0 {
        seq![]
    } else {
        let rest = modified_of(es.drop_last(), ms.drop_last());
        let e = es.last();
        match ms.last() {
            Some(m) => if matches_entry(e, m) {
                rest
            } else {
                rest.push(
                    ModifiedView {
                        path: e.path,
                        expected_size: e.size,
                        actual_size: m.size,
                        expected_hash: e.hash,
                        actual_hash: m.hash,
                    },
                )
            },
            None => rest,
        }
    }
}

/// The paths of the entries, in order, whose file was not found.
pub open spec fn missing_of(es: Seq<EntryView>, ms: Seq<Option<Measurement>>) -> Seq<Seq<char>>
    decreases es.len(),
{
    if es.len() == 0 || ms.len() == 0 {
        seq![]
    } else {
        let rest = missing_of(es.drop_last(), ms.drop_last());
        match ms.last() {
            Some(_) => rest,
            None => rest.push(es.last().path),
        }
    }
}

/// How many entries had their file found with the recorded size and hash.
pub open spec fn ok_of(es: Seq<EntryView>, ms: Seq<Option<Measurement>>) -> nat
    decreases es.len(),
{
    if es.len() == 0 || ms.len() == 0 {
        0
    } else {
        let rest = ok_of(es.drop_last(), ms.drop_last());
        match ms.last() {
            Some(m) => if matches_entry(es.last(), m) {
                rest + 1
            } else {
                rest
            },
            None => rest,
        }
    }
}

/// The paths, in manifest order, of the entries whose path is not among
/// the paths on disk.
pub open spec fn missing_from_disk(es: Seq<EntryView>, disk: Seq<Seq<char>>) -> Seq<Seq<char>> {
    es.map_values(|e: EntryView| e.path).filter(|p: Seq<char>| !disk.contains(p))
}

/// The paths of the manifest entries.
pub open spec fn entry_paths(es: Seq<EntryView>) -> Set<Seq<char>> {
    es.map_values(|e: EntryView| e.path).to_set()
}

/// The paths on disk that no manifest entry has, each once, in increasing order.
pub open spec fn extra_of(es: Seq<EntryView>, disk: Seq<Seq<char>>) -> Seq<Seq<char>> {
    sorted_set(disk.to_set().difference(entry_paths(es)))
}

impl VerifyReport {
    /// Nothing modified, missing or extra.
    pub fn is_clean(&self) -> (r: bool)
        ensures
            r == (self.modified@.len() == 0 && self.missing@.len() == 0 && self.extra@.len() == 0),
    {
        self.modified.len() == 0 && self.missing.len() == 0 && self.extra.len() == 0
    }
}

/// For each manifest entry, in order, whether a file with its path is on
/// disk; those are the files to measure.
pub fn files_to_measure(manifest: &Manifest, disk_paths: &Vec<String>) -> (r: Vec<bool>)
    ensures
        r@.len() == manifest@.len(),
        forall|i: int|
            0 <= i < r@.len() ==> #[trigger] r@[i] == string_views(disk_paths@).contains(
                manifest@[i].path,
            ),
{
    let disk = sorted_unique(disk_paths);
    let mut r: Vec<bool> = Vec::new();
    let mut i: usize = 0;
    while i < manifest.entries.len()
        invariant
            i <= manifest.entries@.len(),
            r@.len() == i,
            increasing(string_views(disk@)),
            string_views(disk@).to_set() == string_views(disk_paths@).to_set(),
            forall|j: int|
                0 <= j < i ==> #[trigger] r@[j] == string_views(disk_paths@).contains(
                    manifest@[j].path,
                ),
        decreases manifest.entries@.len() - i,
    {
        let (_, found) = locate(&disk, manifest.entries[i].path.as_str());
        let ghost p = manifest@[i as int].path;
        assert(string_views(disk@).contains(p) == string_views(disk@).to_set().contains(p));
        assert(string_views(disk_paths@).contains(p) == string_views(disk_paths@).to_set().contains(
            p,
        ));
        r.push(found);
        i = i + 1;
    }
    r
}

proof fn lemma_take_step<A>(s: Seq<A>, i: int)
    requires
        0 <= i < s.len(),
    ensures
        s.take(i + 1).drop_last() == s.take(i),
        s.take(i + 1).last() == s[i],
{
    assert(s.take(i + 1).drop_last() =~= s.take(i));
}

/// Verifies a manifest against a directory: `disk_paths` are the paths of
/// the files under the directory, and `measured[i]` what was found for the
/// file of entry `i`, present exactly when a file with its path is on disk
/// (as `files_to_measure` tells). Reports, in manifest order, the files
/// whose size or hash changed and the files missing from disk, how many
/// matched, and the files on disk the manifest lacks, in path order.
pub fn verify_manifest(
    manifest: &Manifest,
    disk_paths: &Vec<String>,
    measured: &Vec<Option<Measurement>>,
) -> (r: VerifyReport)
    requires
        measured@.len() == manifest@.len(),
        forall|i: int|
            0 <= i < manifest@.len() ==> (#[trigger] measured@[i] is Some
                <==> string_views(disk_paths@).contains(manifest@[i].path)),
    ensures
        r.modified@.map_values(|m: ModifiedEntry| m@) == modified_of(manifest@, measured@),
        string_views(r.missing@) == missing_of(manifest@, measured@),
        string_views(r.missing@) == missing_from_disk(manifest@, string_views(disk_paths@)),
        r.ok_count == ok_of(manifest@, measured@),
        string_views(r.extra@) == extra_of(manifest@, string_views(disk_paths@)),
{
    let ghost es = manifest@;
    let ghost ms = measured@;
    let mut modified: Vec<ModifiedEntry> = Vec::new();
    let mut missing: Vec<String> = Vec::new();
    let mut ok_count: usize = 0;
    let mut i: usize = 0;
    assert(es.take(0) =~= Seq::<EntryView>::empty());
    assert(ms.take(0) =~= Seq::<Option<Measurement>>::empty());
    while i < manifest.entries.len()
        invariant
            i <= manifest.entries@.len(),
            es == manifest@,
            ms == measured@,
            ms.len() == es.len(),
            ok_count <= i,
            modified@.map_values(|m: ModifiedEntry| m@) == modified_of(
                es.take(i as int),
                ms.take(i as int),
            ),
            string_views(missing@) == missing_of(es.take(i as int), ms.take(i as int)),
            ok_count == ok_of(es.take(i as int), ms.take(i as int)),
        decreases manifest.entries@.len() - i,
    {
        let entry = &manifest.entries[i];
        proof {
            lemma_take_step(es, i as int);
            lemma_take_step(ms, i as int);
        }
        assert(es[i as int] == entry@);
        match measured[i] {
            Some(m) => {
                if m.size != entry.size || m.hash != entry.hash {
                    let ghost before = modified@.map_values(|m: ModifiedEntry| m@);
                    modified.push(
                        ModifiedEntry {
                            path: entry.path.clone(),
                            expected_size: entry.size,
                            actual_size: m.size,
                            expected_hash: entry.hash,
                            actual_hash: m.hash,
                        },
                    );
                    assert(modified@.map_values(|m: ModifiedEntry| m@) =~= before.push(
                        ModifiedView {
                            path: entry@.path,
                            expected_size: entry.size,
                            actual_size: m.size,
                            expected_hash: entry.hash,
                            actual_hash: m.hash,
                        },
                    ));
                } else {
                    ok_count = ok_count + 1;
                }
            },
            None => {
                let ghost before = string_views(missing@);
                missing.push(entry.path.clone());
                assert(string_views(missing@) =~= before.push(entry@.path));
            },
        }
        i = i + 1;
    }
    assert(es.take(i as int) =~= es);
    assert(ms.take(i as int) =~= ms);
    proof {
        lemma_missing_from_disk(es, ms, string_views(disk_paths@));
    }
    let extra = extra_paths(manifest, disk_paths);
    VerifyReport { modified, missing, extra, ok_count }
}

/// The paths on disk that no manifest entry has, each once, in increasing order.
fn extra_paths(manifest: &Manifest, disk_paths: &Vec<String>) -> (r: Vec<String>)
    ensures
        string_views(r@) == extra_of(manifest@, string_views(disk_paths@)),
{
    let mut listed: Vec<String> = Vec::new();
    let mut i: usize = 0;
    while i < manifest.entries.len()
        invariant
            i <= manifest.entries@.len(),
            string_views(listed@) == manifest@.take(i as int).map_values(|e: EntryView| e.path),
        decreases manifest.entries@.len() - i,
    {
        let ghost before = string_views(listed@);
        assert(manifest@[i as int] == manifest.entries@[i as int]@);
        listed.push(manifest.entries[i].path.clone());
        assert(manifest@.take(i + 1).map_values(|e: EntryView| e.path) =~= manifest@.take(
            i as int,
        ).map_values(|e: EntryView| e.path).push(manifest@[i as int].path));
        assert(string_views(listed@) =~= before.push(manifest@[i as int].path));
        i = i + 1;
    }
    assert(manifest@.take(i as int) =~= manifest@);
    let known = sorted_unique(&listed);
    let disk = sorted_unique(disk_paths);
    let ghost dv = string_views(disk@);
    let ghost target = string_views(disk_paths@).to_set().difference(entry_paths(manifest@));
    let mut r: Vec<String> = Vec::new();
    let mut j: usize = 0;
    assert(string_views(r@) =~= dv.take(0).filter(|p: Seq<char>| !entry_paths(manifest@).contains(p)));
    while j < disk.len()
        invariant
            j <= disk@.len(),
            dv == string_views(disk@),
            increasing(dv),
            dv.to_set() == string_views(disk_paths@).to_set(),
            increasing(string_views(known@)),
            string_views(known@).to_set() == entry_paths(manifest@),
            string_views(r@) == dv.take(j as int).filter(
                |p: Seq<char>| !entry_paths(manifest@).contains(p),
            ),
        decreases disk@.len() - j,
    {
        let ghost pred = |p: Seq<char>| !entry_paths(manifest@).contains(p);
        proof {
            reveal(Seq::filter);
            lemma_take_step(dv, j as int);
        }
        assert(dv[j as int] == disk@[j as int]@);
        let (_, found) = locate(&known, disk[j].as_str());
        assert(string_views(known@).contains(dv[j as int]) == string_views(known@).to_set().contains(
            dv[j as int],
        ));
        if !found {
            let ghost before = string_views(r@);
            r.push(disk[j].clone());
            assert(string_views(r@) =~= before.push(dv[j as int]));
        }
        j = j + 1;
    }
    assert(dv.take(j as int) =~= dv);
    proof {
        let pred = |p: Seq<char>| !entry_paths(manifest@).contains(p);
        let out = string_views(r@);
        lemma_filter_increasing(dv, pred);
        assert forall|p: Seq<char>| out.to_set().contains(p) <==> target.contains(p) by {
            if out.contains(p) {
                let k = choose|k: int| 0 <= k < out.len() && out[k] == p;
                dv.lemma_filter_pred(pred, k);
                dv.lemma_filter_contains_rev(pred, p);
                assert(dv.to_set().contains(p));
            }
            if target.contains(p) {
                assert(dv.to_set().contains(p));
                let k = choose|k: int| 0 <= k < dv.len() && dv[k] == p;
                dv.lemma_filter_contains(pred, k);
            }
        }
        assert(out.to_set() =~= target);
        lemma_sorted_set(out);
    }
    r
}

/// Keeping some paths of an increasing sequence keeps it increasing.
proof fn lemma_filter_increasing(s: Seq<Seq<char>>, pred: spec_fn(Seq<char>) -> bool)
    requires
        increasing(s),
    ensures
        increasing(s.filter(pred)),
    decreases s.len(),
{
    reveal(Seq::filter);
    if s.len() > 0 {
        let rest = s.drop_last();
        lemma_filter_increasing(rest, pred);
        let f = rest.filter(pred);
        if pred(s.last()) {
            let g = f.push(s.last());
            assert forall|a: int, b: int| 0 <= a < b < g.len() implies lex_le(g[a], g[b]) && g[a]
                != g[b] by {
                if b == g.len() - 1 {
                    assert(f.contains(g[a]));
                    rest.lemma_filter_contains_rev(pred, g[a]);
                    let k = choose|k: int| 0 <= k < rest.len() && rest[k] == g[a];
                    assert(s[k] == g[a]);
                } else {
                    assert(g[a] == f[a] && g[b] == f[b]);
                }
            }
        }
    }
}

// ---------------------------------------------------------------------------
// Laws of verifying
// ---------------------------------------------------------------------------

/// Every manifest entry is counted exactly once: as modified, as missing,
/// or as matching.
pub proof fn lemma_verify_partition(es: Seq<EntryView>, ms: Seq<Option<Measurement>>)
    requires
        ms.len() == es.len(),
    ensures
        modified_of(es, ms).len() + missing_of(es, ms).len() + ok_of(es, ms) == es.len(),
    decreases es.len(),
{
    if es.len() > 0 {
        lemma_verify_partition(es.drop_last(), ms.drop_last());
    }
}

/// Where a measurement is present exactly for the entries whose path is on
/// disk, the missing files are the entries, in manifest order, whose path
/// is not on disk.
pub proof fn lemma_missing_from_disk(
    es: Seq<EntryView>,
    ms: Seq<Option<Measurement>>,
    disk: Seq<Seq<char>>,
)
    requires
        ms.len() == es.len(),
        forall|i: int| 0 <= i < es.len() ==> (#[trigger] ms[i] is Some <==> disk.contains(es[i].path)),
    ensures
        missing_of(es, ms) == missing_from_disk(es, disk),
    decreases es.len(),
{
    reveal(Seq::filter);
    if es.len() > 0 {
        let es2 = es.drop_last();
        let ms2 = ms.drop_last();
        assert forall|i: int| 0 <= i < es2.len() implies (#[trigger] ms2[i] is Some
            <==> disk.contains(es2[i].path)) by {
            assert(ms2[i] == ms[i] && es2[i] == es[i]);
        }
        lemma_missing_from_disk(es2, ms2, disk);
        assert(es.map_values(|e: EntryView| e.path).drop_last() =~= es2.map_values(
            |e: EntryView| e.path,
        ));
        assert(ms.last() == ms[es.len() - 1]);
        assert(es.last() == es[es.len() - 1]);
    }
}

/// A report with nothing modified and nothing missing found the file of
/// every entry with exactly the recorded size and the recorded hash.
pub proof fn lemma_verify_clean_matches(es: Seq<EntryView>, ms: Seq<Option<Measurement>>)
    requires
        ms.len() == es.len(),
        modified_of(es, ms).len() == 0,
        missing_of(es, ms).len() == 0,
    ensures
        forall|i: int|
            0 <= i < es.len() ==> #[trigger] ms[i] == Some(
                Measurement { size: es[i].size, hash: es[i].hash },
            ),
    decreases es.len(),
{
    if es.len() > 0 {
        let es2 = es.drop_last();
        let ms2 = ms.drop_last();
        lemma_verify_clean_matches(es2, ms2);
        assert(ms.last() == ms[es.len() - 1]);
        assert(es.last() == es[es.len() - 1]);
        assert forall|i: int| 0 <= i < es.len() implies #[trigger] ms[i] == Some(
            Measurement { size: es[i].size, hash: es[i].hash },
        ) by {
            if i < es.len() - 1 {
                assert(ms2[i] == ms[i] && es2[i] == es[i]);
            }
        }
    }
}

/// An entry whose file is found with another size or another hash than
/// recorded is listed as modified, with the recorded and the found size
/// and hash, and is not counted as matching.
pub proof fn lemma_verify_lists_changed(
    es: Seq<EntryView>,
    ms: Seq<Option<Measurement>>,
    i: int,
    m: Measurement,
)
    requires
        ms.len() == es.len(),
        0 <= i < es.len(),
        ms[i] == Some(m),
        m.size != es[i].size || m.hash != es[i].hash,
    ensures
        modified_of(es, ms).contains(
            ModifiedView {
                path: es[i].path,
                expected_size: es[i].size,
                actual_size: m.size,
                expected_hash: es[i].hash,
                actual_hash: m.hash,
            },
        ),
        ok_of(es, ms) < es.len(),
    decreases es.len(),
{
    let v = ModifiedView {
        path: es[i].path,
        expected_size: es[i].size,
        actual_size: m.size,
        expected_hash: es[i].hash,
        actual_hash: m.hash,
    };
    let es2 = es.drop_last();
    let ms2 = ms.drop_last();
    let rest = modified_of(es2, ms2);
    let out = modified_of(es, ms);
    assert(ms.last() == ms[es.len() - 1]);
    assert(es.last() == es[es.len() - 1]);
    if i == es.len() - 1 {
        assert(out == rest.push(v));
        assert(out[rest.len() as int] == v);
    } else {
        assert(ms2[i] == ms[i] && es2[i] == es[i]);
        lemma_verify_lists_changed(es2, ms2, i, m);
        let k = choose|k: int| 0 <= k < rest.len() && rest[k] == v;
        assert(out[k] == v);
    }
    lemma_verify_partition(es, ms);
}

/// When every entry's file is found with the recorded size and hash, and
/// no other file is on disk, the report is clean and every entry matches.
pub proof fn lemma_verify_unchanged(
    es: Seq<EntryView>,
    ms: Seq<Option<Measurement>>,
    disk: Seq<Seq<char>>,
)
    requires
        ms.len() == es.len(),
        forall|i: int|
            0 <= i < es.len() ==> #[trigger] ms[i] == Some(
                Measurement { size: es[i].size, hash: es[i].hash },
            ),
        forall|i: int| 0 <= i < disk.len() ==> entry_paths(es).contains(#[trigger] disk[i]),
    ensures
        modified_of(es, ms) == Seq::<ModifiedView>::empty(),
        missing_of(es, ms) == Seq::<Seq<char>>::empty(),
        ok_of(es, ms) == es.len(),
        extra_of(es, disk) == Seq::<Seq<char>>::empty(),
    decreases es.len(),
{
    if es.len() > 0 {
        let es2 = es.drop_last();
        let ms2 = ms.drop_last();
        assert forall|i: int| 0 <= i < es2.len() implies #[trigger] ms2[i] == Some(
            Measurement { size: es2[i].size, hash: es2[i].hash },
        ) by {
            assert(ms2[i] == ms[i] && es2[i] == es[i]);
        }
        lemma_verify_unchanged(es2, ms2, Seq::<Seq<char>>::empty());
        assert(ms.last() == ms[es.len() - 1]);
    }
    let empty = Seq::<Seq<char>>::empty();
    assert(disk.to_set().difference(entry_paths(es)) =~= empty.to_set()) by {
        assert forall|p: Seq<char>| disk.to_set().contains(p) implies entry_paths(es).contains(p) by {
            let k = choose|k: int| 0 <= k < disk.len() && disk[k] == p;
        }
    }
    lemma_sorted_set(empty);
}

} // verus!
