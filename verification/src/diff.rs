//! Comparing two manifests.

use vstd::prelude::*;
use crate::manifest::{lower_bound, sorted_by_path, views, EntryView, Manifest, ManifestEntry};
use crate::text::{
    lemma_lex_le_antisymmetric, lemma_lex_le_total, lemma_lex_le_transitive, lex_le, str_eq,
};

verus! {

// ---------------------------------------------------------------------------
// Entries by path
// ---------------------------------------------------------------------------

/// The entries of `s` by path; where a path occurs more than once, the last
/// entry with it.
pub open spec fn last_wins(s: Seq<EntryView>) -> Map<Seq<char>, EntryView>
    decreases s.len(),
{
    if s.len() == 0 {
        Map::empty()
    } else {
        last_wins(s.drop_last()).insert(s.last().path, s.last())
    }
}

/// Paths strictly increase along `s`.
pub open spec fn strictly_sorted(s: Seq<EntryView>) -> bool {
    forall|i: int, j: int|
        #![trigger s[i], s[j]]
        0 <= i < j < s.len() ==> lex_le(s[i].path, s[j].path) && s[i].path != s[j].path
}

/// `idx` lists the entries of `m` in increasing path order.
pub open spec fn represents(idx: Seq<EntryView>, m: Map<Seq<char>, EntryView>) -> bool {
    &&& strictly_sorted(idx)
    &&& forall|j: int|
        0 <= j < idx.len() ==> m.contains_key(#[trigger] idx[j].path) && m[idx[j].path] == idx[j]
    &&& forall|k: Seq<char>|
        #[trigger] m.contains_key(k) ==> exists|j: int| 0 <= j < idx.len() && idx[j].path == k
}

/// The entries of `s`, one per path (the last one with it), in increasing
/// path order.
pub open spec fn by_path(s: Seq<EntryView>) -> Seq<EntryView> {
    choose|idx: Seq<EntryView>| represents(idx, last_wins(s))
}

proof fn lemma_represents_unique(a: Seq<EntryView>, b: Seq<EntryView>, m: Map<Seq<char>, EntryView>)
    requires
        represents(a, m),
        represents(b, m),
    ensures
        a == b,
    decreases a.len() + b.len(),
{
    if a.len() == 0 || b.len() == 0 {
        if a.len() > 0 {
            assert(m.contains_key(a[0].path));
        }
        if b.len() > 0 {
            assert(m.contains_key(b[0].path));
        }
        assert(a =~= b);
    } else {
        let x = a.last();
        let y = b.last();
        assert(m.contains_key(x.path));
        assert(m.contains_key(y.path));
        let j = choose|j: int| 0 <= j < b.len() && b[j].path == x.path;
        let k = choose|k: int| 0 <= k < a.len() && a[k].path == y.path;
        if j < b.len() - 1 {
            assert(lex_le(b[j].path, y.path));
        } else {
            crate::text::lemma_lex_le_reflexive(y.path);
        }
        if k < a.len() - 1 {
            assert(lex_le(a[k].path, x.path));
        } else {
            crate::text::lemma_lex_le_reflexive(x.path);
        }
        lemma_lex_le_antisymmetric(x.path, y.path);
        assert(x == m[x.path]);
        assert(y == m[y.path]);
        let m2 = m.remove(x.path);
        let a2 = a.drop_last();
        let b2 = b.drop_last();
        assert forall|k2: Seq<char>| #[trigger] m2.contains_key(k2) implies exists|j2: int|
            0 <= j2 < a2.len() && a2[j2].path == k2 by {
            let j2 = choose|j2: int| 0 <= j2 < a.len() && a[j2].path == k2;
            assert(a2[j2].path == k2);
        }
        assert forall|k2: Seq<char>| #[trigger] m2.contains_key(k2) implies exists|j2: int|
            0 <= j2 < b2.len() && b2[j2].path == k2 by {
            let j2 = choose|j2: int| 0 <= j2 < b.len() && b[j2].path == k2;
            assert(b2[j2].path == k2);
        }
        assert forall|j2: int| 0 <= j2 < a2.len() implies m2.contains_key(#[trigger] a2[j2].path)
            && m2[a2[j2].path] == a2[j2] by {
            assert(a2[j2] == a[j2]);
        }
        assert forall|j2: int| 0 <= j2 < b2.len() implies m2.contains_key(#[trigger] b2[j2].path)
            && m2[b2[j2].path] == b2[j2] by {
            assert(b2[j2] == b[j2]);
        }
        lemma_represents_unique(a2, b2, m2);
        assert(a =~= a2.push(x));
        assert(b =~= b2.push(y));
    }
}

/// Any listing of the entries of `s` in increasing path order is `by_path(s)`.
pub proof fn lemma_by_path(idx: Seq<EntryView>, s: Seq<EntryView>)
    requires
        represents(idx, last_wins(s)),
    ensures
        by_path(s) == idx,
        represents(by_path(s), last_wins(s)),
{
    lemma_represents_unique(by_path(s), idx, last_wins(s));
}

/// The position of the entry with path `x.path` in `idx`, if there is one.
fn lookup(idx: &Vec<ManifestEntry>, x: &ManifestEntry) -> (r: (usize, bool))
    requires
        strictly_sorted(views(idx@)),
    ensures
        r.0 <= idx@.len(),
        r.1 ==> r.0 < idx@.len() && views(idx@)[r.0 as int].path == x.path@,
        !r.1 ==> forall|j: int| 0 <= j < idx@.len() ==> #[trigger] views(idx@)[j].path != x.path@,
        !r.1 ==> forall|j: int| 0 <= j < r.0 ==> !lex_le(x.path@, #[trigger] views(idx@)[j].path),
        !r.1 ==> forall|j: int| r.0 <= j < idx@.len() ==> lex_le(x.path@, #[trigger] views(idx@)[j].path),
{
    let ghost iv = views(idx@);
    let k = lower_bound(idx, x);
    if k < idx.len() && str_eq(idx[k].path.as_str(), x.path.as_str()) {
        assert(iv[k as int] == idx@[k as int]@);
        (k, true)
    } else {
        assert forall|j: int| 0 <= j < idx@.len() implies #[trigger] iv[j].path != x.path@ by {
            if j < k {
                crate::text::lemma_lex_le_reflexive(x.path@);
            } else if j > k {
                assert(lex_le(iv[k as int].path, iv[j].path) && iv[k as int].path != iv[j].path);
                if iv[j].path == x.path@ {
                    lemma_lex_le_antisymmetric(iv[k as int].path, x.path@);
                }
            } else {
                assert(iv[k as int] == idx@[k as int]@);
            }
        }
        (k, false)
    }
}

/// Replacing the entry of a path that is listed keeps the listing exact.
proof fn lemma_represents_update(
    idx: Seq<EntryView>,
    m: Map<Seq<char>, EntryView>,
    j: int,
    x: EntryView,
)
    requires
        represents(idx, m),
        0 <= j < idx.len(),
        idx[j].path == x.path,
    ensures
        represents(idx.update(j, x), m.insert(x.path, x)),
{
    let after = idx.update(j, x);
    let m2 = m.insert(x.path, x);
    assert forall|k2: Seq<char>| #[trigger] m2.contains_key(k2) implies exists|i: int|
        0 <= i < after.len() && after[i].path == k2 by {
        if k2 != x.path {
            let i = choose|i: int| 0 <= i < idx.len() && idx[i].path == k2;
            assert(after[i].path == k2);
        } else {
            assert(after[j].path == k2);
        }
    }
    assert forall|i: int| 0 <= i < after.len() implies m2.contains_key(#[trigger] after[i].path)
        && m2[after[i].path] == after[i] by {
        if i != j {
            assert(after[i] == idx[i]);
            if i < j {
                assert(idx[i].path != idx[j].path);
            } else {
                assert(idx[j].path != idx[i].path);
            }
        }
    }
    assert forall|a: int| 0 <= a < after.len() implies #[trigger] after[a].path == idx[a].path by {}
}

/// Inserting the entry of an unlisted path at its place in path order keeps
/// the listing exact.
proof fn lemma_represents_insert(
    idx: Seq<EntryView>,
    m: Map<Seq<char>, EntryView>,
    k: int,
    x: EntryView,
)
    requires
        represents(idx, m),
        0 <= k <= idx.len(),
        forall|i: int| 0 <= i < idx.len() ==> #[trigger] idx[i].path != x.path,
        forall|i: int| 0 <= i < k ==> !lex_le(x.path, #[trigger] idx[i].path),
        forall|i: int| k <= i < idx.len() ==> lex_le(x.path, #[trigger] idx[i].path),
    ensures
        represents(idx.insert(k, x), m.insert(x.path, x)),
{
    let after = idx.insert(k, x);
    let m2 = m.insert(x.path, x);
    idx.insert_ensures(k, x);
    assert forall|a: int, b: int| 0 <= a < b < after.len() implies lex_le(
        after[a].path,
        after[b].path,
    ) && after[a].path != after[b].path by {
        crate::text::lemma_lex_le_reflexive(x.path);
        if a < k {
            assert(after[a] == idx[a]);
            lemma_lex_le_total(x.path, idx[a].path);
            if b < k {
                assert(after[b] == idx[b]);
            } else if b == k {
                assert(after[b] == x);
            } else {
                assert(after[b] == idx[b - 1]);
                lemma_lex_le_transitive(idx[a].path, x.path, idx[b - 1].path);
                assert(lex_le(idx[a].path, idx[b - 1].path) && idx[a].path != idx[b - 1].path);
            }
        } else if a == k {
            assert(after[a] == x);
            assert(after[b] == idx[b - 1]);
        } else {
            assert(after[a] == idx[a - 1] && after[b] == idx[b - 1]);
        }
    }
    assert forall|k2: Seq<char>| #[trigger] m2.contains_key(k2) implies exists|j: int|
        0 <= j < after.len() && after[j].path == k2 by {
        if k2 != x.path {
            let j = choose|j: int| 0 <= j < idx.len() && idx[j].path == k2;
            if j < k {
                assert(after[j].path == k2);
            } else {
                assert(after[j + 1].path == k2);
            }
        } else {
            assert(after[k].path == k2);
        }
    }
    assert forall|j: int| 0 <= j < after.len() implies m2.contains_key(#[trigger] after[j].path)
        && m2[after[j].path] == after[j] by {
        if j < k {
            assert(after[j] == idx[j]);
        } else if j > k {
            assert(after[j] == idx[j - 1]);
        }
    }
}

/// In a path-sorted sequence, some position has only smaller paths before
/// it and only paths at least `p` from it on.
proof fn lemma_lower_bound_exists(idx: Seq<EntryView>, p: Seq<char>) -> (k: int)
    requires
        sorted_by_path(idx),
    ensures
        0 <= k <= idx.len(),
        forall|i: int| 0 <= i < k ==> !lex_le(p, #[trigger] idx[i].path),
        forall|i: int| k <= i < idx.len() ==> lex_le(p, #[trigger] idx[i].path),
    decreases idx.len(),
{
    if idx.len() == 0 {
        0
    } else {
        let rest = idx.drop_last();
        let k0 = lemma_lower_bound_exists(rest, p);
        let n = idx.len() - 1;
        if k0 < n {
            assert forall|i: int| k0 <= i < idx.len() implies lex_le(p, #[trigger] idx[i].path) by {
                if i == n {
                    assert(lex_le(rest[k0].path, idx[n].path));
                    lemma_lex_le_transitive(p, rest[k0].path, idx[n].path);
                } else {
                    assert(idx[i] == rest[i]);
                }
            }
            assert forall|i: int| 0 <= i < k0 implies !lex_le(p, #[trigger] idx[i].path) by {
                assert(idx[i] == rest[i]);
            }
            k0
        } else if lex_le(p, idx[n].path) {
            assert forall|i: int| 0 <= i < n implies !lex_le(p, #[trigger] idx[i].path) by {
                assert(idx[i] == rest[i]);
            }
            n
        } else {
            assert forall|i: int| 0 <= i < idx.len() implies !lex_le(p, #[trigger] idx[i].path) by {
                if i < n {
                    assert(idx[i] == rest[i]);
                }
            }
            idx.len() as int
        }
    }
}

/// Every sequence of entries has its listing by path.
pub proof fn lemma_by_path_exists(s: Seq<EntryView>)
    ensures
        represents(by_path(s), last_wins(s)),
    decreases s.len(),
{
    if s.len() == 0 {
        let e = Seq::<EntryView>::empty();
        assert(represents(e, last_wins(s)));
        lemma_by_path(e, s);
    } else {
        let rest = s.drop_last();
        let x = s.last();
        lemma_by_path_exists(rest);
        let idx = by_path(rest);
        let m = last_wins(rest);
        if exists|j: int| 0 <= j < idx.len() && idx[j].path == x.path {
            let j = choose|j: int| 0 <= j < idx.len() && idx[j].path == x.path;
            lemma_represents_update(idx, m, j, x);
            lemma_by_path(idx.update(j, x), s);
        } else {
            assert(sorted_by_path(idx));
            let k = lemma_lower_bound_exists(idx, x.path);
            lemma_represents_insert(idx, m, k, x);
            lemma_by_path(idx.insert(k, x), s);
        }
    }
}

/// The entries of `entries`, one per path (the last one with it), in
/// increasing path order.
pub fn index_by_path(entries: &Vec<ManifestEntry>) -> (idx: Vec<ManifestEntry>)
    ensures
        views(idx@) == by_path(views(entries@)),
        represents(views(idx@), last_wins(views(entries@))),
{
    let ghost ev = views(entries@);
    let mut idx: Vec<ManifestEntry> = Vec::new();
    let mut i: usize = 0;
    assert(ev.take(0) =~= Seq::<EntryView>::empty());
    while i < entries.len()
        invariant
            i <= entries@.len(),
            ev == views(entries@),
            represents(views(idx@), last_wins(ev.take(i as int))),
        decreases entries@.len() - i,
    {
        let ghost before = views(idx@);
        let ghost m = last_wins(ev.take(i as int));
        let x = entries[i].duplicate();
        assert(ev[i as int] == x@);
        assert(ev.take(i + 1).drop_last() =~= ev.take(i as int));
        assert(last_wins(ev.take(i + 1)) == m.insert(x@.path, x@));
        let (k, found) = lookup(&idx, &x);
        if found {
            idx[k] = x;
            assert(views(idx@) =~= before.update(k as int, x@));
            proof {
                lemma_represents_update(before, m, k as int, x@);
            }
        } else {
            idx.insert(k, x);
            assert(views(idx@) =~= before.insert(k as int, x@));
            proof {
                lemma_represents_insert(before, m, k as int, x@);
            }
        }
        i = i + 1;
    }
    assert(ev.take(i as int) =~= ev);
    proof {
        lemma_by_path(views(idx@), ev);
    }
    idx
}

// ---------------------------------------------------------------------------
// Diffing
// ---------------------------------------------------------------------------

/// An entry present in both manifests with a different size or hash.
pub struct DiffChangedView {
    pub path: Seq<char>,
    pub first_size: u64,
    pub first_hash: u64,
    pub second_size: u64,
    pub second_hash: u64,
}

/// An entry present in both manifests with a different size or hash.
#[derive(Debug)]
pub struct DiffChanged {
    pub path: String,
    pub first_size: u64,
    pub first_hash: u64,
    pub second_size: u64,
    pub second_hash: u64,
}

impl View for DiffChanged {
    type V = DiffChangedView;

    open spec fn view(&self) -> DiffChangedView {
        DiffChangedView {
            path: self.path@,
            first_size: self.first_size,
            first_hash: self.first_hash,
            second_size: self.second_size,
            second_hash: self.second_hash,
        }
    }
}

/// Result of diffing two manifests.
#[derive(Debug)]
pub struct DiffReport {
    /// Entries only in the first manifest.
    pub only_in_first: Vec<ManifestEntry>,
    /// Entries only in the second manifest.
    pub only_in_second: Vec<ManifestEntry>,
    /// Entries in both but with different size or hash.
    pub changed: Vec<DiffChanged>,
    /// Entries identical in both.
    pub unchanged_count: usize,
}

/// Two entries record the same size and hash.
pub open spec fn same_content(a: EntryView, b: EntryView) -> bool {
    a.size == b.size && a.hash == b.hash
}

/// The change from entry `a` to entry `b`.
pub open spec fn change_of(a: EntryView, b: EntryView) -> DiffChangedView {
    DiffChangedView {
        path: a.path,
        first_size: a.size,
        first_hash: a.hash,
        second_size: b.size,
        second_hash: b.hash,
    }
}

/// The path of an entry is not among the paths of `other`.
pub open spec fn absent_from(other: Seq<EntryView>) -> spec_fn(EntryView) -> bool {
    |e: EntryView| !last_wins(other).contains_key(e.path)
}

/// The path of an entry is among the paths of `other`, with content that is
/// the same (`same`) or differs (`!same`).
pub open spec fn present_in(other: Seq<EntryView>, same: bool) -> spec_fn(EntryView) -> bool {
    |e: EntryView|
        last_wins(other).contains_key(e.path) && same_content(e, last_wins(other)[e.path]) == same
}

/// The entries of `a` (one per path, in path order) whose path `b` lacks.
pub open spec fn only_in(a: Seq<EntryView>, b: Seq<EntryView>) -> Seq<EntryView> {
    by_path(a).filter(absent_from(b))
}

/// The paths of both `a` and `b` whose size or hash differs, in path order.
pub open spec fn changed_between(a: Seq<EntryView>, b: Seq<EntryView>) -> Seq<DiffChangedView> {
    by_path(a).filter(present_in(b, false)).map_values(
        |e: EntryView| change_of(e, last_wins(b)[e.path]),
    )
}

/// How many paths `a` and `b` share with the same size and hash.
pub open spec fn unchanged_between(a: Seq<EntryView>, b: Seq<EntryView>) -> nat {
    by_path(a).filter(present_in(b, true)).len()
}

proof fn lemma_filter_step<A>(s: Seq<A>, i: int, pred: spec_fn(A) -> bool)
    requires
        0 <= i < s.len(),
    ensures
        s.take(i + 1).filter(pred) == (if pred(s[i]) {
            s.take(i).filter(pred).push(s[i])
        } else {
            s.take(i).filter(pred)
        }),
{
    reveal(Seq::filter);
    assert(s.take(i + 1).drop_last() =~= s.take(i));
}

/// Diffs two manifests: the entries (by path, the last one with each path)
/// only in the first, only in the second, in both with a different size or
/// hash, and how many are in both unchanged; each list in path order.
pub fn diff_manifests(first: &Manifest, second: &Manifest) -> (r: DiffReport)
    ensures
        views(r.only_in_first@) == only_in(first@, second@),
        views(r.only_in_second@) == only_in(second@, first@),
        r.changed@.map_values(|c: DiffChanged| c@) == changed_between(first@, second@),
        r.unchanged_count == unchanged_between(first@, second@),
{
    let a = index_by_path(&first.entries);
    let b = index_by_path(&second.entries);
    let ghost av = views(a@);
    let ghost bv = views(b@);
    let ghost ma = last_wins(first@);
    let ghost mb = last_wins(second@);
    let mut only_in_first: Vec<ManifestEntry> = Vec::new();
    let mut only_in_second: Vec<ManifestEntry> = Vec::new();
    let mut changed: Vec<DiffChanged> = Vec::new();
    let mut unchanged_count: usize = 0;
    let ghost absent_b = absent_from(second@);
    let ghost changed_b = present_in(second@, false);
    let ghost same_b = present_in(second@, true);
    let ghost to_change = |e: EntryView| change_of(e, last_wins(second@)[e.path]);
    assert(av.take(0) =~= Seq::<EntryView>::empty());
    proof {
        reveal(Seq::filter);
    }
    let mut i: usize = 0;
    while i < a.len()
        invariant
            i <= a@.len(),
            av == views(a@),
            bv == views(b@),
            represents(av, ma),
            represents(bv, mb),
            ma == last_wins(first@),
            mb == last_wins(second@),
            absent_b == absent_from(second@),
            changed_b == present_in(second@, false),
            same_b == present_in(second@, true),
            to_change == (|e: EntryView| change_of(e, last_wins(second@)[e.path])),
            unchanged_count <= i,
            views(only_in_first@) == av.take(i as int).filter(absent_b),
            changed@.map_values(|c: DiffChanged| c@) == av.take(i as int).filter(changed_b).map_values(
                to_change,
            ),
            unchanged_count == av.take(i as int).filter(same_b).len(),
        decreases a@.len() - i,
    {
        let e = &a[i];
        assert(av[i as int] == e@);
        proof {
            lemma_filter_step(av, i as int, absent_b);
            lemma_filter_step(av, i as int, changed_b);
            lemma_filter_step(av, i as int, same_b);
        }
        let (j, found) = lookup(&b, e);
        if found {
            assert(bv[j as int] == b@[j as int]@);
            assert(mb.contains_key(e@.path) && mb[e@.path] == bv[j as int]);
            let other = &b[j];
            if e.size != other.size || e.hash != other.hash {
                let ghost old_changed = changed@.map_values(|c: DiffChanged| c@);
                changed.push(
                    DiffChanged {
                        path: e.path.clone(),
                        first_size: e.size,
                        first_hash: e.hash,
                        second_size: other.size,
                        second_hash: other.hash,
                    },
                );
                assert(changed@.map_values(|c: DiffChanged| c@) =~= old_changed.push(to_change(e@)));
                assert(av.take(i + 1).filter(changed_b).map_values(to_change) =~= av.take(
                    i as int,
                ).filter(changed_b).map_values(to_change).push(to_change(e@)));
            } else {
                unchanged_count = unchanged_count + 1;
            }
        } else {
            assert(!mb.contains_key(e@.path)) by {
                if mb.contains_key(e@.path) {
                    let j2 = choose|j2: int| 0 <= j2 < bv.len() && bv[j2].path == e@.path;
                    assert(bv[j2].path != e@.path);
                }
            }
            let ghost old_first = views(only_in_first@);
            only_in_first.push(e.duplicate());
            assert(views(only_in_first@) =~= old_first.push(e@));
        }
        i = i + 1;
    }
    assert(av.take(i as int) =~= av);
    let ghost absent_a = absent_from(first@);
    assert(bv.take(0) =~= Seq::<EntryView>::empty());
    let mut i: usize = 0;
    while i < b.len()
        invariant
            i <= b@.len(),
            av == views(a@),
            bv == views(b@),
            represents(av, ma),
            represents(bv, mb),
            ma == last_wins(first@),
            absent_a == absent_from(first@),
            views(only_in_second@) == bv.take(i as int).filter(absent_a),
        decreases b@.len() - i,
    {
        let e = &b[i];
        assert(bv[i as int] == e@);
        proof {
            lemma_filter_step(bv, i as int, absent_a);
        }
        let (j, found) = lookup(&a, e);
        if found {
            assert(av[j as int] == a@[j as int]@);
            assert(ma.contains_key(e@.path));
        } else {
            assert(!ma.contains_key(e@.path)) by {
                if ma.contains_key(e@.path) {
                    let j2 = choose|j2: int| 0 <= j2 < av.len() && av[j2].path == e@.path;
                    assert(av[j2].path != e@.path);
                }
            }
            let ghost old_second = views(only_in_second@);
            only_in_second.push(e.duplicate());
            assert(views(only_in_second@) =~= old_second.push(e@));
        }
        i = i + 1;
    }
    assert(bv.take(i as int) =~= bv);
    DiffReport { only_in_first, only_in_second, changed, unchanged_count }
}

// ---------------------------------------------------------------------------
// Laws of diffing
// ---------------------------------------------------------------------------

proof fn lemma_filter_all<A>(s: Seq<A>, pred: spec_fn(A) -> bool)
    requires
        forall|i: int| 0 <= i < s.len() ==> pred(#[trigger] s[i]),
    ensures
        s.filter(pred) == s,
    decreases s.len(),
{
    reveal(Seq::filter);
    if s.len() > 0 {
        lemma_filter_all(s.drop_last(), pred);
        assert(s.drop_last().push(s.last()) =~= s);
    }
}

proof fn lemma_filter_none<A>(s: Seq<A>, pred: spec_fn(A) -> bool)
    requires
        forall|i: int| 0 <= i < s.len() ==> !pred(#[trigger] s[i]),
    ensures
        s.filter(pred) == Seq::<A>::empty(),
{
    assert(s.all(|x: A| !pred(x)));
    s.lemma_all_neg_filter_empty(pred);
    assert(s.filter(pred) =~= Seq::<A>::empty());
}

proof fn lemma_filter_partition<A>(
    s: Seq<A>,
    p1: spec_fn(A) -> bool,
    p2: spec_fn(A) -> bool,
    p3: spec_fn(A) -> bool,
)
    requires
        forall|x: A|
            (#[trigger] p1(x) && !p2(x) && !p3(x)) || (!p1(x) && p2(x) && !p3(x)) || (!p1(x)
                && !p2(x) && p3(x)),
    ensures
        s.filter(p1).len() + s.filter(p2).len() + s.filter(p3).len() == s.len(),
    decreases s.len(),
{
    reveal(Seq::filter);
    if s.len() > 0 {
        lemma_filter_partition(s.drop_last(), p1, p2, p3);
        let x = s.last();
        assert(p1(x) || !p1(x));
    }
}

/// Diffing a manifest with itself finds nothing added, removed or changed,
/// and every path unchanged.
pub proof fn lemma_diff_with_itself(s: Seq<EntryView>)
    ensures
        only_in(s, s) == Seq::<EntryView>::empty(),
        changed_between(s, s) == Seq::<DiffChangedView>::empty(),
        unchanged_between(s, s) == by_path(s).len(),
{
    lemma_by_path_exists(s);
    let idx = by_path(s);
    let m = last_wins(s);
    assert forall|i: int| 0 <= i < idx.len() implies m.contains_key(#[trigger] idx[i].path)
        && m[idx[i].path] == idx[i] by {}
    lemma_filter_none(idx, absent_from(s));
    lemma_filter_none(idx, present_in(s, false));
    lemma_filter_all(idx, present_in(s, true));
    assert(changed_between(s, s) =~= Seq::<DiffChangedView>::empty());
}

/// Every path of the first manifest is counted exactly once: as only in
/// the first, as changed, or as unchanged.
pub proof fn lemma_diff_partition(a: Seq<EntryView>, b: Seq<EntryView>)
    ensures
        only_in(a, b).len() + changed_between(a, b).len() + unchanged_between(a, b)
            == by_path(a).len(),
{
    let p1 = absent_from(b);
    let p2 = present_in(b, false);
    let p3 = present_in(b, true);
    assert forall|x: EntryView|
        (#[trigger] p1(x) && !p2(x) && !p3(x)) || (!p1(x) && p2(x) && !p3(x)) || (!p1(x) && !p2(x)
            && p3(x)) by {}
    lemma_filter_partition(by_path(a), p1, p2, p3);
}

/// The paths of a sequence of entries.
pub open spec fn paths_of(s: Seq<EntryView>) -> Seq<Seq<char>> {
    s.map_values(|e: EntryView| e.path)
}

proof fn lemma_filter_strictly_sorted(s: Seq<EntryView>, pred: spec_fn(EntryView) -> bool)
    requires
        strictly_sorted(s),
    ensures
        strictly_sorted(s.filter(pred)),
    decreases s.len(),
{
    reveal(Seq::filter);
    if s.len() > 0 {
        let rest = s.drop_last();
        assert forall|a: int, b: int| 0 <= a < b < rest.len() implies lex_le(
            #[trigger] rest[a].path,
            #[trigger] rest[b].path,
        ) && rest[a].path != rest[b].path by {
            assert(rest[a] == s[a] && rest[b] == s[b]);
        }
        assert(strictly_sorted(rest));
        lemma_filter_strictly_sorted(rest, pred);
        let f = rest.filter(pred);
        if pred(s.last()) {
            let g = f.push(s.last());
            assert(s.last() == s[s.len() - 1]);
            assert forall|a: int, b: int|
                #![trigger g[a], g[b]]
                0 <= a < b < g.len() implies lex_le(g[a].path, g[b].path) && g[a].path != g[b].path by {
                if b == g.len() - 1 {
                    assert(f.contains(g[a]));
                    rest.lemma_filter_contains_rev(pred, g[a]);
                    let k = choose|k: int| 0 <= k < rest.len() && rest[k] == g[a];
                    assert(s[k] == g[a]);
                    assert(g[b] == s[s.len() - 1]);
                    assert(lex_le(s[k].path, s[s.len() - 1].path) && s[k].path != s[s.len() - 1].path);
                } else {
                    assert(g[a] == f[a] && g[b] == f[b]);
                }
            }
            assert(strictly_sorted(g));
        }
    }
}

proof fn lemma_paths_increasing(s: Seq<EntryView>)
    requires
        strictly_sorted(s),
    ensures
        crate::verify::increasing(paths_of(s)),
{
    assert forall|i: int, j: int| 0 <= i < j < paths_of(s).len() implies lex_le(
        #[trigger] paths_of(s)[i],
        #[trigger] paths_of(s)[j],
    ) && paths_of(s)[i] != paths_of(s)[j] by {
        assert(paths_of(s)[i] == s[i].path && paths_of(s)[j] == s[j].path);
    }
}

/// A path is among the kept entries exactly when its entry in `s` passes.
proof fn lemma_kept_paths(s: Seq<EntryView>, m: Map<Seq<char>, EntryView>, pred: spec_fn(EntryView) -> bool, k: Seq<char>)
    requires
        represents(s, m),
    ensures
        paths_of(s.filter(pred)).to_set().contains(k) <==> (m.contains_key(k) && pred(m[k])),
{
    let f = s.filter(pred);
    if paths_of(f).to_set().contains(k) {
        assert(paths_of(f).contains(k));
        let i = choose|i: int| 0 <= i < paths_of(f).len() && paths_of(f)[i] == k;
        assert(paths_of(f)[i] == f[i].path);
        s.lemma_filter_pred(pred, i);
        assert(f.contains(f[i]));
        s.lemma_filter_contains_rev(pred, f[i]);
        let j = choose|j: int| 0 <= j < s.len() && s[j] == f[i];
        assert(m.contains_key(s[j].path));
    }
    if m.contains_key(k) && pred(m[k]) {
        let j = choose|j: int| 0 <= j < s.len() && s[j].path == k;
        assert(m[s[j].path] == s[j]);
        s.lemma_filter_contains(pred, j);
        let i = choose|i: int| 0 <= i < f.len() && f[i] == s[j];
        assert(paths_of(f)[i] == k);
        assert(paths_of(f).contains(k));
    }
}

/// The change seen from the other side: sizes and hashes swapped.
pub open spec fn mirrored(c: DiffChangedView) -> DiffChangedView {
    DiffChangedView {
        path: c.path,
        first_size: c.second_size,
        first_hash: c.second_hash,
        second_size: c.first_size,
        second_hash: c.first_hash,
    }
}

/// Diffing the other way round swaps what is only in the first and only in
/// the second, reports the same changes with the two sides swapped, and the
/// same number of unchanged paths.
pub proof fn lemma_diff_swapped(a: Seq<EntryView>, b: Seq<EntryView>)
    ensures
        unchanged_between(a, b) == unchanged_between(b, a),
        changed_between(b, a).len() == changed_between(a, b).len(),
        forall|i: int|
            0 <= i < changed_between(a, b).len() ==> #[trigger] changed_between(b, a)[i] == mirrored(
                changed_between(a, b)[i],
            ),
{
    lemma_by_path_exists(a);
    lemma_by_path_exists(b);
    let ia = by_path(a);
    let ib = by_path(b);
    let ma = last_wins(a);
    let mb = last_wins(b);
    assert forall|same: bool| #![trigger present_in(b, same)] paths_of(ia.filter(present_in(b, same)))
        == paths_of(ib.filter(present_in(a, same))) by {
        let fa = ia.filter(present_in(b, same));
        let fb = ib.filter(present_in(a, same));
        lemma_filter_strictly_sorted(ia, present_in(b, same));
        lemma_filter_strictly_sorted(ib, present_in(a, same));
        lemma_paths_increasing(fa);
        lemma_paths_increasing(fb);
        assert forall|k: Seq<char>| paths_of(fa).to_set().contains(k) <==> paths_of(fb).to_set().contains(k) by {
            lemma_kept_paths(ia, ma, present_in(b, same), k);
            lemma_kept_paths(ib, mb, present_in(a, same), k);
        }
        assert(paths_of(fa).to_set() =~= paths_of(fb).to_set());
        crate::verify::lemma_increasing_unique(paths_of(fa), paths_of(fb));
    }
    let ua = ia.filter(present_in(b, true));
    let ub = ib.filter(present_in(a, true));
    assert(paths_of(ua).len() == paths_of(ub).len());
    let ca = ia.filter(present_in(b, false));
    let cb = ib.filter(present_in(a, false));
    assert(paths_of(ca) == paths_of(cb));
    assert(paths_of(ca).len() == paths_of(cb).len());
    assert forall|i: int| 0 <= i < changed_between(a, b).len() implies #[trigger] changed_between(
        b,
        a,
    )[i] == mirrored(changed_between(a, b)[i]) by {
        assert(paths_of(ca)[i] == paths_of(cb)[i]);
        let k = ca[i].path;
        assert(cb[i].path == k);
        ia.lemma_filter_pred(present_in(b, false), i);
        ib.lemma_filter_pred(present_in(a, false), i);
        assert(ca.contains(ca[i]));
        ia.lemma_filter_contains_rev(present_in(b, false), ca[i]);
        let j = choose|j: int| 0 <= j < ia.len() && ia[j] == ca[i];
        assert(ma[ia[j].path] == ia[j]);
        assert(cb.contains(cb[i]));
        ib.lemma_filter_contains_rev(present_in(a, false), cb[i]);
        let j2 = choose|j2: int| 0 <= j2 < ib.len() && ib[j2] == cb[i];
        assert(mb[ib[j2].path] == ib[j2]);
    }
}

} // verus!
