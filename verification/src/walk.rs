//! Decisions of the directory walk: which entries to follow, and the order
//! of the files found.

use vstd::prelude::*;
use crate::text::{
    chars_of, lemma_lex_le_antisymmetric, lemma_lex_le_reflexive, lemma_lex_le_total,
    lemma_lex_le_transitive, lex_le, string_views,
};

verus! {

/// What the walk does with a directory entry.
#[derive(Debug, Clone, Copy, PartialEq, Eq)]
pub enum WalkAction {
    /// Leave it out.
    Skip,
    /// Walk the directory it names.
    Descend,
    /// Record it as a file of the archive.
    Record,
}

/// What the walk does with a directory entry of the given type (as the
/// entry itself reports it, without following links): symbolic links are
/// left out, since they can point outside the archive; directories are
/// walked; regular files are recorded; anything else is left out.
pub fn walk_action(is_symlink: bool, is_dir: bool, is_file: bool) -> (a: WalkAction)
    ensures
        a == (if is_symlink {
            WalkAction::Skip
        } else if is_dir {
            WalkAction::Descend
        } else if is_file {
            WalkAction::Record
        } else {
            WalkAction::Skip
        }),
{
    if is_symlink {
        WalkAction::Skip
    } else if is_dir {
        WalkAction::Descend
    } else if is_file {
        WalkAction::Record
    } else {
        WalkAction::Skip
    }
}

/// The order of relative paths given as components: component by
/// component, a path sorting before the paths it is a prefix of.
pub open spec fn components_le(a: Seq<Seq<char>>, b: Seq<Seq<char>>) -> bool
    decreases a.len(),
{
    if a.len() == 0 {
        true
    } else if b.len() == 0 {
        false
    } else if a[0] != b[0] {
        lex_le(a[0], b[0])
    } else {
        components_le(a.drop_first(), b.drop_first())
    }
}

proof fn lemma_components_le_total(a: Seq<Seq<char>>, b: Seq<Seq<char>>)
    ensures
        components_le(a, b) || components_le(b, a),
    decreases a.len(),
{
    if a.len() > 0 && b.len() > 0 {
        if a[0] != b[0] {
            lemma_lex_le_total(a[0], b[0]);
        } else {
            lemma_components_le_total(a.drop_first(), b.drop_first());
        }
    }
}

proof fn lemma_components_le_transitive(a: Seq<Seq<char>>, b: Seq<Seq<char>>, c: Seq<Seq<char>>)
    requires
        components_le(a, b),
        components_le(b, c),
    ensures
        components_le(a, c),
    decreases a.len(),
{
    if a.len() > 0 && b.len() > 0 && c.len() > 0 {
        if a[0] == b[0] && b[0] == c[0] {
            lemma_components_le_transitive(a.drop_first(), b.drop_first(), c.drop_first());
        } else if a[0] == b[0] {
        } else if b[0] == c[0] {
        } else {
            lemma_lex_le_transitive(a[0], b[0], c[0]);
            if a[0] == c[0] {
                lemma_lex_le_antisymmetric(a[0], b[0]);
            }
        }
    }
}

proof fn lemma_components_le_reflexive(a: Seq<Seq<char>>)
    ensures
        components_le(a, a),
    decreases a.len(),
{
    if a.len() > 0 {
        lemma_components_le_reflexive(a.drop_first());
    }
}

/// Compares two component lists in path order.
fn components_le_exec(a: &Vec<String>, b: &Vec<String>) -> (r: bool)
    ensures
        r == components_le(string_views(a@), string_views(b@)),
{
    let ghost av = string_views(a@);
    let ghost bv = string_views(b@);
    let mut i: usize = 0;
    assert(av.skip(0) =~= av);
    assert(bv.skip(0) =~= bv);
    while i < a.len() && i < b.len()
        invariant
            i <= a@.len(),
            i <= b@.len(),
            av == string_views(a@),
            bv == string_views(b@),
            components_le(av, bv) == components_le(av.skip(i as int), bv.skip(i as int)),
        decreases a@.len() - i,
    {
        let x = chars_of(a[i].as_str());
        let y = chars_of(b[i].as_str());
        assert(av[i as int] == a@[i as int]@);
        assert(bv[i as int] == b@[i as int]@);
        assert(av.skip(i as int)[0] == av[i as int]);
        assert(bv.skip(i as int)[0] == bv[i as int]);
        let le = crate::text::chars_le(&x, &y);
        let ge = crate::text::chars_le(&y, &x);
        if !(le && ge) {
            proof {
                if av[i as int] == bv[i as int] {
                    lemma_lex_le_reflexive(av[i as int]);
                }
            }
            return le;
        }
        proof {
            lemma_lex_le_antisymmetric(av[i as int], bv[i as int]);
        }
        assert(av.skip(i as int).drop_first() =~= av.skip(i + 1));
        assert(bv.skip(i as int).drop_first() =~= bv.skip(i + 1));
        i = i + 1;
    }
    i == a.len()
}

/// Every path sorts before or equal to the paths after it.
pub open spec fn sorted_paths(s: Seq<Seq<Seq<char>>>) -> bool {
    forall|i: int, j: int| 0 <= i < j < s.len() ==> components_le(#[trigger] s[i], #[trigger] s[j])
}

/// The component lists of a list of relative paths.
pub open spec fn path_views(v: Seq<Vec<String>>) -> Seq<Seq<Seq<char>>> {
    v.map_values(|p: Vec<String>| string_views(p@))
}

/// The relative paths of the files found by a walk (each a list of
/// components), sorted in path order.
pub fn collect_files(found: Vec<Vec<String>>) -> (files: Vec<Vec<String>>)
    ensures
        sorted_paths(path_views(files@)),
        path_views(files@).to_multiset() == path_views(found@).to_multiset(),
{
    let mut rest = found;
    let ghost orig = path_views(rest@);
    let mut done: Vec<Vec<String>> = Vec::new();
    assert(orig.skip(rest@.len() as int) =~= Seq::<Seq<Seq<char>>>::empty());
    assert(path_views(done@) =~= Seq::<Seq<Seq<char>>>::empty());
    while rest.len() > 0
        invariant
            rest@.len() <= orig.len(),
            path_views(rest@) == orig.take(rest@.len() as int),
            sorted_paths(path_views(done@)),
            path_views(done@).to_multiset() == orig.skip(rest@.len() as int).to_multiset(),
        decreases rest@.len(),
    {
        let x = rest.pop().unwrap();
        let n = rest.len();
        let ghost before = path_views(done@);
        let ghost xv = string_views(x@);
        assert(path_views(rest@) =~= orig.take(n as int));
        assert(orig.take(n + 1)[n as int] == xv);
        assert(orig.skip(n as int) =~= seq![xv] + orig.skip(n + 1));
        let mut lo: usize = 0;
        let mut hi: usize = done.len();
        while lo < hi
            invariant
                lo <= hi <= done@.len(),
                before == path_views(done@),
                sorted_paths(before),
                xv == string_views(x@),
                forall|i: int| 0 <= i < lo ==> !components_le(xv, #[trigger] before[i]),
                forall|i: int| hi <= i < done@.len() ==> components_le(xv, #[trigger] before[i]),
            decreases hi - lo,
        {
            let mid = lo + (hi - lo) / 2;
            assert(before[mid as int] == string_views(done@[mid as int]@));
            if components_le_exec(&x, &done[mid]) {
                assert forall|i: int| mid <= i < done@.len() implies components_le(
                    xv,
                    #[trigger] before[i],
                ) by {
                    if i > mid {
                        lemma_components_le_transitive(xv, before[mid as int], before[i]);
                    }
                }
                hi = mid;
            } else {
                assert forall|i: int| 0 <= i <= mid implies !components_le(xv, #[trigger] before[i]) by {
                    if i < mid && components_le(xv, before[i]) {
                        lemma_components_le_transitive(xv, before[i], before[mid as int]);
                    }
                }
                lo = mid + 1;
            }
        }
        let k = lo;
        done.insert(k, x);
        let ghost after = path_views(done@);
        assert(after =~= before.insert(k as int, xv));
        proof {
            before.insert_ensures(k as int, xv);
            assert forall|i: int, j: int| 0 <= i < j < after.len() implies components_le(
                #[trigger] after[i],
                #[trigger] after[j],
            ) by {
                if i < k {
                    assert(after[i] == before[i]);
                    lemma_components_le_total(xv, before[i]);
                    if j < k {
                        assert(after[j] == before[j]);
                    } else if j > k {
                        assert(after[j] == before[j - 1]);
                    }
                } else if i == k {
                    assert(after[j] == before[j - 1]);
                } else {
                    assert(after[i] == before[i - 1] && after[j] == before[j - 1]);
                }
            }
            before.to_multiset_ensures();
            after.to_multiset_ensures();
            assert(after.remove(k as int) =~= before);
            assert(after[k as int] == xv);
            assert(after.to_multiset() =~= before.to_multiset().insert(xv));
            let single = seq![xv];
            vstd::seq_lib::lemma_multiset_commutative(single, orig.skip(n + 1));
            Seq::<Seq<Seq<char>>>::empty().to_multiset_ensures();
            assert(single =~= Seq::<Seq<Seq<char>>>::empty().push(xv));
            assert(orig.skip(n as int).to_multiset() =~= orig.skip(n + 1).to_multiset().insert(xv));
        }
    }
    assert(orig.skip(0) =~= orig);
    done
}

} // verus!
