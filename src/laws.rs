//! Properties of the comparison of two registries.
use vstd::prelude::*;
use crate::diff::{changed, entry_for, has_changes, patch_spec, value_changes, EntryV};
use crate::path::{is_prefix, PathV};
use crate::registry::{is_tree, lemma_tree_closed, snapshot, Registry, ValuesV};
use crate::value::{DataV, NameV};

verus! {

/// The paths at or below `a`.
pub open spec fn below(a: PathV) -> Set<PathV> {
    Set::new(|p: PathV| is_prefix(a, p))
}

/// The part of a tree at or below `a`.
pub open spec fn subtree(t: Map<PathV, ValuesV>, a: PathV) -> Map<PathV, ValuesV> {
    t.restrict(below(a))
}

/// Comparing a tree with itself gives the empty patch.
pub proof fn diff_of_same_tree_is_empty(t: Registry)
    ensures
        patch_spec(snapshot(t@), snapshot(t@)) == Map::<PathV, EntryV>::empty(),
{
    let s = snapshot(t@);
    assert forall|p: PathV| !(#[trigger] patch_spec(s, s).contains_key(p)) by {
        if s.contains_key(p) {
            assert(!has_changes(s[p], s[p]));
        }
    }
    assert(patch_spec(s, s) =~= Map::<PathV, EntryV>::empty());
}

/// Where a key is in both trees with the same values, the entries at and below it are
/// those of the comparison of the two subtrees rooted there, taken alone.
pub proof fn diff_is_local_to_unchanged_key(old: Registry, new: Registry, a: PathV)
    requires
        snapshot(old@).contains_key(a),
        snapshot(new@).contains_key(a),
        snapshot(old@)[a] == snapshot(new@)[a],
    ensures
        patch_spec(snapshot(old@), snapshot(new@)).restrict(below(a)) == patch_spec(
            subtree(snapshot(old@), a),
            subtree(snapshot(new@), a),
        ),
{
    let o = snapshot(old@);
    let n = snapshot(new@);
    let so = subtree(o, a);
    let sn = subtree(n, a);
    assert forall|p: PathV| #[trigger] below(a).contains(p) implies entry_for(o, n, p) == entry_for(so, sn, p) by {
        assert(so.contains_key(p) == o.contains_key(p));
        assert(sn.contains_key(p) == n.contains_key(p));
        if o.contains_key(p) {
            assert(so[p] == o[p]);
        }
        if n.contains_key(p) {
            assert(sn[p] == n[p]);
        }
        if p.len() > a.len() {
            assert(p.drop_last().subrange(0, a.len() as int) =~= p.subrange(0, a.len() as int));
            assert(below(a).contains(p.drop_last()));
            assert(sn.contains_key(p.drop_last()) == n.contains_key(p.drop_last()));
        } else {
            assert(p =~= a);
        }
    }
    assert forall|p: PathV| !below(a).contains(p) implies entry_for(so, sn, p) is None by {}
    assert(!has_changes(o[a], n[a]));
    assert(patch_spec(o, n).restrict(below(a)) =~= patch_spec(so, sn));
}

/// A key whose whole subtree is the same in both trees (values and descendants) gives
/// no entry, nor does anything beneath it.
pub proof fn unchanged_subtree_gives_no_entries(old: Registry, new: Registry, a: PathV)
    requires
        subtree(snapshot(old@), a) == subtree(snapshot(new@), a),
    ensures
        forall|p: PathV| #[trigger] below(a).contains(p) ==> !patch_spec(snapshot(old@), snapshot(new@)).contains_key(p),
{
    let o = snapshot(old@);
    let n = snapshot(new@);
    assert forall|p: PathV| #[trigger] below(a).contains(p) implies !patch_spec(o, n).contains_key(p) by {
        assert(subtree(o, a).contains_key(p) == o.contains_key(p));
        assert(subtree(n, a).contains_key(p) == n.contains_key(p));
        if o.contains_key(p) {
            assert(subtree(o, a)[p] == o[p]);
            assert(subtree(n, a)[p] == n[p]);
            assert(!has_changes(o[p], n[p]));
        }
    }
}

/// Where no key that only the old tree has lies below another such key, every key
/// that only one tree has is in the patch: `Full` if only the new tree has it,
/// `Deleted` if only the old one does.
pub proof fn diff_reports_every_added_or_removed_key(old: Registry, new: Registry)
    requires
        forall|p: PathV| #![trigger snapshot(old@).contains_key(p)]
            snapshot(old@).contains_key(p) && !snapshot(new@).contains_key(p) && p.len() > 0
                ==> snapshot(new@).contains_key(p.drop_last()),
        is_tree(new@),
    ensures
        forall|p: PathV| #[trigger] snapshot(new@).contains_key(p) && !snapshot(old@).contains_key(p)
            ==> patch_spec(snapshot(old@), snapshot(new@)).contains_key(p)
                && patch_spec(snapshot(old@), snapshot(new@))[p] == EntryV::Full(snapshot(new@)[p]),
        forall|p: PathV| #[trigger] snapshot(old@).contains_key(p) && !snapshot(new@).contains_key(p)
            ==> patch_spec(snapshot(old@), snapshot(new@)).contains_key(p)
                && patch_spec(snapshot(old@), snapshot(new@))[p] == EntryV::Deleted,
{
    lemma_tree_closed(new@);
    let o = snapshot(old@);
    let n = snapshot(new@);
    assert forall|p: PathV| #[trigger] o.contains_key(p) && !n.contains_key(p) implies patch_spec(o, n).contains_key(p)
        && patch_spec(o, n)[p] == EntryV::Deleted by {
        if p.len() == 0 {
            assert(p =~= Seq::<Seq<char>>::empty());
        }
    }
}

/// Every key that only the old tree has lies at or below a key that the patch deletes.
pub proof fn removed_key_lies_under_a_deletion(old: Registry, new: Registry, p: PathV)
    requires
        is_tree(old@),
        is_tree(new@),
        snapshot(old@).contains_key(p),
        !snapshot(new@).contains_key(p),
    ensures
        exists|a: PathV| is_prefix(a, p) && #[trigger] patch_spec(snapshot(old@), snapshot(new@)).contains_key(a)
            && patch_spec(snapshot(old@), snapshot(new@))[a] == EntryV::Deleted,
    decreases p.len(),
{
    lemma_tree_closed(old@);
    lemma_tree_closed(new@);
    let o = snapshot(old@);
    let n = snapshot(new@);
    if p.len() == 0 {
        assert(p =~= Seq::<Seq<char>>::empty());
    } else if n.contains_key(p.drop_last()) {
        assert(is_prefix(p, p)) by {
            assert(p.subrange(0, p.len() as int) =~= p);
        }
        assert(patch_spec(o, n).contains_key(p));
    } else {
        let q = p.drop_last();
        removed_key_lies_under_a_deletion(old, new, q);
        let a = choose|a: PathV| is_prefix(a, q) && #[trigger] patch_spec(o, n).contains_key(a)
            && patch_spec(o, n)[a] == EntryV::Deleted;
        assert(p.subrange(0, a.len() as int) =~= q.subrange(0, a.len() as int));
        assert(is_prefix(a, p));
    }
}

/// A key's values after a patch entry's values: each value of the entry is set, and
/// one that holds the delete sentinel is removed.
pub open spec fn apply_values(base: ValuesV, changes: ValuesV) -> ValuesV {
    Map::new(
        |k: NameV| if changes.contains_key(k) { changes[k] != DataV::Delete } else { base.contains_key(k) },
        |k: NameV| if changes.contains_key(k) { changes[k] } else { base[k] },
    )
}

/// `p` lies at or below a key that the patch deletes.
pub open spec fn deleted_under(patch: Map<PathV, EntryV>, p: PathV) -> bool {
    exists|a: PathV| is_prefix(a, p) && #[trigger] patch.contains_key(a) && patch[a] == EntryV::Deleted
}

/// The values that `p` keeps from tree `t` under a patch: none if it lies under a
/// deleted key or is not in `t`.
pub open spec fn kept_values(t: Map<PathV, ValuesV>, patch: Map<PathV, EntryV>, p: PathV) -> ValuesV {
    if t.contains_key(p) && !deleted_under(patch, p) {
        t[p]
    } else {
        Map::empty()
    }
}

/// A tree after a patch. A `Deleted` entry removes its key and everything beneath it;
/// a `Full` or `Partial` entry sets and removes values of its key, creating the key
/// where it is missing.
pub open spec fn apply_patch(t: Map<PathV, ValuesV>, patch: Map<PathV, EntryV>) -> Map<PathV, ValuesV> {
    Map::new(
        |p: PathV| (t.contains_key(p) && !deleted_under(patch, p)) || (patch.contains_key(p) && patch[p] != EntryV::Deleted),
        |p: PathV| if patch.contains_key(p) {
            match patch[p] {
                EntryV::Full(v) => apply_values(kept_values(t, patch, p), v),
                EntryV::Partial(v) => apply_values(kept_values(t, patch, p), v),
                EntryV::Deleted => kept_values(t, patch, p),
            }
        } else {
            kept_values(t, patch, p)
        },
    )
}

/// In a tree, every prefix of a key's path is a key.
proof fn lemma_prefixes_present(t: Registry, q: PathV, a: PathV)
    requires
        is_tree(t@),
        snapshot(t@).contains_key(q),
        is_prefix(a, q),
    ensures
        snapshot(t@).contains_key(a),
    decreases q.len(),
{
    lemma_tree_closed(t@);
    if a.len() == q.len() {
        assert(a =~= q);
    } else {
        let r = q.drop_last();
        assert(r.subrange(0, a.len() as int) =~= q.subrange(0, a.len() as int));
        lemma_prefixes_present(t, r, a);
    }
}

/// Applying to the old tree the patch that compares it with the new one gives the new
/// tree, where the new tree holds no value that carries the delete sentinel.
pub proof fn applying_the_diff_gives_the_new_tree(old: Registry, new: Registry)
    requires
        is_tree(old@),
        is_tree(new@),
        forall|p: PathV, k: NameV| snapshot(new@).contains_key(p) && #[trigger] snapshot(new@)[p].contains_key(k)
            ==> snapshot(new@)[p][k] != DataV::Delete,
    ensures
        apply_patch(snapshot(old@), patch_spec(snapshot(old@), snapshot(new@))) == snapshot(new@),
{
    let o = snapshot(old@);
    let n = snapshot(new@);
    let pt = patch_spec(o, n);
    let r = apply_patch(o, pt);
    assert forall|q: PathV| n.contains_key(q) implies !deleted_under(pt, q) by {
        if deleted_under(pt, q) {
            let a = choose|a: PathV| is_prefix(a, q) && #[trigger] pt.contains_key(a) && pt[a] == EntryV::Deleted;
            lemma_prefixes_present(new, q, a);
        }
    }
    assert forall|q: PathV| o.contains_key(q) && !n.contains_key(q) implies deleted_under(pt, q) by {
        removed_key_lies_under_a_deletion(old, new, q);
    }
    assert forall|q: PathV| #[trigger] r.contains_key(q) <==> n.contains_key(q) by {}
    assert forall|q: PathV| #[trigger] n.contains_key(q) implies r[q] == n[q] by {
        assert(!deleted_under(pt, q));
        if o.contains_key(q) {
            if has_changes(o[q], n[q]) {
                assert(apply_values(o[q], value_changes(o[q], n[q])) =~= n[q]) by {
                    assert forall|k: NameV| n[q].contains_key(k) implies n[q][k] != DataV::Delete by {}
                }
            } else {
                assert forall|k: NameV| !changed(o[q], n[q], k) by {}
                assert(o[q] =~= n[q]);
            }
        } else {
            assert(apply_values(Map::empty(), n[q]) =~= n[q]) by {
                assert forall|k: NameV| n[q].contains_key(k) implies n[q][k] != DataV::Delete by {}
            }
        }
    }
    assert(r =~= n);
}

} // verus!
