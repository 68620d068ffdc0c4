//! Ordered association lists seen as maps.
use vstd::prelude::*;

verus! {

/// The map that an association list denotes: a later entry overrides an earlier one.
pub open spec fn to_map<K, V>(s: Seq<(K, V)>) -> Map<K, V>
    decreases s.len(),
{
    if s.len() == 0 {
        Map::empty()
    } else {
        to_map(s.drop_last()).insert(s.last().0, s.last().1)
    }
}

/// No key occurs twice in the list.
pub open spec fn unique_keys<K, V>(s: Seq<(K, V)>) -> bool {
    forall|i: int, j: int| 0 <= i < s.len() && 0 <= j < s.len() && #[trigger] s[i].0 == #[trigger] s[j].0 ==> i == j
}

/// The list has an entry with key `k`.
pub open spec fn has_key<K, V>(s: Seq<(K, V)>, k: K) -> bool {
    exists|i: int| 0 <= i < s.len() && #[trigger] s[i].0 == k
}

/// The domain of `to_map(s)` is the set of keys of `s`, and a key that occurs once
/// is mapped to its own entry's value.
pub proof fn lemma_to_map<K, V>(s: Seq<(K, V)>)
    ensures
        forall|k: K| #[trigger] to_map(s).contains_key(k) <==> has_key(s, k),
        unique_keys(s) ==> forall|i: int| 0 <= i < s.len() ==> #[trigger] to_map(s)[s[i].0] == s[i].1,
        to_map(s).dom().finite(),
    decreases s.len(),
{
    if s.len() > 0 {
        let t = s.drop_last();
        lemma_to_map(t);
        assert forall|k: K| #[trigger] to_map(s).contains_key(k) <==> has_key(s, k) by {
            if has_key(s, k) {
                let i = choose|i: int| 0 <= i < s.len() && #[trigger] s[i].0 == k;
                if i < s.len() - 1 {
                    assert(t[i].0 == k);
                }
            }
            if has_key(t, k) {
                let i = choose|i: int| 0 <= i < t.len() && #[trigger] t[i].0 == k;
                assert(s[i].0 == k);
            }
        }
        if unique_keys(s) {
            assert(unique_keys(t)) by {
                assert forall|i: int, j: int| 0 <= i < t.len() && 0 <= j < t.len() && #[trigger] t[i].0 == #[trigger] t[j].0 implies i == j by {
                    assert(s[i].0 == s[j].0);
                }
            }
            assert forall|i: int| 0 <= i < s.len() implies #[trigger] to_map(s)[s[i].0] == s[i].1 by {
                if i < s.len() - 1 {
                    assert(t[i] == s[i]);
                    assert(s[i].0 != s.last().0);
                }
            }
        }
    }
}

/// Appending an entry adds it to the map.
pub proof fn lemma_to_map_push<K, V>(s: Seq<(K, V)>, k: K, v: V)
    ensures
        to_map(s.push((k, v))) == to_map(s).insert(k, v),
        unique_keys(s) && !has_key(s, k) ==> unique_keys(s.push((k, v))),
{
    assert(s.push((k, v)).drop_last() =~= s);
    if unique_keys(s) && !has_key(s, k) {
        let t = s.push((k, v));
        assert forall|i: int, j: int| 0 <= i < t.len() && 0 <= j < t.len() && #[trigger] t[i].0 == #[trigger] t[j].0 implies i == j by {
            if i < s.len() && j < s.len() {
                assert(s[i].0 == s[j].0);
            } else if i < s.len() {
                assert(s[i].0 == k);
            } else if j < s.len() {
                assert(s[j].0 == k);
            }
        }
    }
}

/// Replacing the value of an entry of a list without repeated keys replaces it in the map.
pub proof fn lemma_to_map_update<K, V>(s: Seq<(K, V)>, j: int, v: V)
    requires
        unique_keys(s),
        0 <= j < s.len(),
    ensures
        unique_keys(s.update(j, (s[j].0, v))),
        to_map(s.update(j, (s[j].0, v))) == to_map(s).insert(s[j].0, v),
{
    let t = s.update(j, (s[j].0, v));
    assert forall|a: int, b: int| 0 <= a < t.len() && 0 <= b < t.len() && #[trigger] t[a].0 == #[trigger] t[b].0 implies a == b by {
        assert(s[a].0 == s[b].0);
    }
    lemma_to_map(s);
    lemma_to_map(t);
    assert forall|k: K| has_key(t, k) <==> has_key(s, k) by {
        if has_key(t, k) {
            let i = choose|i: int| 0 <= i < t.len() && #[trigger] t[i].0 == k;
            assert(s[i].0 == k);
        }
        if has_key(s, k) {
            let i = choose|i: int| 0 <= i < s.len() && #[trigger] s[i].0 == k;
            assert(t[i].0 == k);
        }
    }
    assert forall|k: K| #[trigger] to_map(t).contains_key(k) implies to_map(t)[k] == to_map(s).insert(s[j].0, v)[k] by {
        let i = choose|i: int| 0 <= i < t.len() && #[trigger] t[i].0 == k;
        assert(to_map(t)[t[i].0] == t[i].1);
        if i != j {
            assert(to_map(s)[s[i].0] == s[i].1);
        }
    }
    assert(to_map(t) =~= to_map(s).insert(s[j].0, v));
}

/// A key is in a list extended by one entry iff it is in the list or is the new entry's.
pub proof fn lemma_has_key_push<K, V>(s: Seq<(K, V)>, e: (K, V), k: K)
    ensures
        has_key(s.push(e), k) <==> has_key(s, k) || e.0 == k,
{
    let t = s.push(e);
    if has_key(s, k) {
        let i = choose|i: int| 0 <= i < s.len() && #[trigger] s[i].0 == k;
        assert(t[i].0 == k);
    }
    if e.0 == k {
        assert(t[s.len() as int].0 == k);
    }
    if has_key(t, k) {
        let i = choose|i: int| 0 <= i < t.len() && #[trigger] t[i].0 == k;
        if i < s.len() {
            assert(s[i].0 == k);
        }
    }
}

/// The map takes a key's value from its last entry.
pub proof fn lemma_to_map_last<K, V>(s: Seq<(K, V)>, j: int)
    requires
        0 <= j < s.len(),
        forall|m: int| j < m < s.len() ==> #[trigger] s[m].0 != s[j].0,
    ensures
        to_map(s).contains_key(s[j].0),
        to_map(s)[s[j].0] == s[j].1,
    decreases s.len(),
{
    if j < s.len() - 1 {
        let t = s.drop_last();
        assert(t[j] == s[j]);
        assert(s[s.len() - 1].0 != s[j].0);
        assert forall|m: int| j < m < t.len() implies #[trigger] t[m].0 != t[j].0 by {
            assert(s[m].0 != s[j].0);
        }
        lemma_to_map_last(t, j);
    }
}

/// Without repeated keys, the map has as many keys as the list has entries.
pub proof fn lemma_map_len<K, V>(s: Seq<(K, V)>)
    requires
        unique_keys(s),
    ensures
        to_map(s).dom().len() == s.len(),
    decreases s.len(),
{
    if s.len() > 0 {
        let t = s.drop_last();
        assert(unique_keys(t)) by {
            assert forall|i: int, j: int| 0 <= i < t.len() && 0 <= j < t.len() && #[trigger] t[i].0 == #[trigger] t[j].0 implies i == j by {
                assert(s[i].0 == s[j].0);
            }
        }
        lemma_map_len(t);
        lemma_to_map(t);
        assert(!has_key(t, s.last().0)) by {
            if has_key(t, s.last().0) {
                let i = choose|i: int| 0 <= i < t.len() && #[trigger] t[i].0 == s.last().0;
                assert(s[i].0 == s[s.len() - 1].0);
            }
        }
    } else {
        assert(to_map(s).dom() =~= Set::<K>::empty());
    }
}

/// Inserting an entry with a new key anywhere in the list adds it to the map.
pub proof fn lemma_to_map_insert<K, V>(s: Seq<(K, V)>, pos: int, k: K, v: V)
    requires
        unique_keys(s),
        !has_key(s, k),
        0 <= pos <= s.len(),
    ensures
        unique_keys(s.insert(pos, (k, v))),
        to_map(s.insert(pos, (k, v))) == to_map(s).insert(k, v),
{
    let t = s.insert(pos, (k, v));
    assert forall|i: int, j: int| 0 <= i < t.len() && 0 <= j < t.len() && #[trigger] t[i].0 == #[trigger] t[j].0 implies i == j by {
        if i != j {
            if i == pos {
                let jj = if j < pos { j } else { j - 1 };
                assert(s[jj].0 == k);
            } else if j == pos {
                let ii = if i < pos { i } else { i - 1 };
                assert(s[ii].0 == k);
            } else {
                let ii = if i < pos { i } else { i - 1 };
                let jj = if j < pos { j } else { j - 1 };
                assert(s[ii].0 == s[jj].0);
            }
        }
    }
    lemma_to_map(s);
    lemma_to_map(t);
    assert forall|q: K| has_key(t, q) <==> has_key(s, q) || q == k by {
        if has_key(t, q) {
            let i = choose|i: int| 0 <= i < t.len() && #[trigger] t[i].0 == q;
            if i < pos {
                assert(s[i].0 == q);
            } else if i > pos {
                assert(s[i - 1].0 == q);
            }
        }
        if has_key(s, q) {
            let i = choose|i: int| 0 <= i < s.len() && #[trigger] s[i].0 == q;
            if i < pos {
                assert(t[i].0 == q);
            } else {
                assert(t[i + 1].0 == q);
            }
        }
        if q == k {
            assert(t[pos].0 == q);
        }
    }
    assert forall|q: K| #[trigger] to_map(t).contains_key(q) implies to_map(t)[q] == to_map(s).insert(k, v)[q] by {
        let i = choose|i: int| 0 <= i < t.len() && #[trigger] t[i].0 == q;
        assert(to_map(t)[t[i].0] == t[i].1);
        if i < pos {
            assert(to_map(s)[s[i].0] == s[i].1);
        } else if i > pos {
            assert(to_map(s)[s[i - 1].0] == s[i - 1].1);
        }
    }
    assert(to_map(t) =~= to_map(s).insert(k, v));
}

} // verus!
