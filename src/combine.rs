//! Pairing two collections of items by identity.
use vstd::prelude::*;

verus! {

/// An item with an identity, by which two collections are paired.
pub trait Identified: Sized {
    type Id;

    spec fn identity(&self) -> Self::Id;

    fn same_identity(&self, other: &Self) -> (r: bool)
        ensures
            r == (self.identity() == other.identity()),
    ;
}

/// No two items of `s` have the same identity.
pub open spec fn unique_ids<T: Identified>(s: Seq<T>) -> bool {
    forall|i: int, j: int| 0 <= i < s.len() && 0 <= j < s.len() && #[trigger] s[i].identity() == #[trigger] s[j].identity() ==> i == j
}

/// Some item of `s` has identity `k`.
pub open spec fn contains_id<T: Identified>(s: Seq<T>, k: T::Id) -> bool {
    exists|i: int| 0 <= i < s.len() && #[trigger] s[i].identity() == k
}

/// The first item of `s` with identity `k`.
pub open spec fn find_id<T: Identified>(s: Seq<T>, k: T::Id) -> Option<T>
    decreases s.len(),
{
    if s.len() == 0 {
        None
    } else if s[0].identity() == k {
        Some(s[0])
    } else {
        find_id(s.drop_first(), k)
    }
}

/// The items of `new` whose identity `old` lacks, in `new`'s order, each paired with nothing.
pub open spec fn new_only<T: Identified>(old: Seq<T>, new: Seq<T>) -> Seq<(Option<T>, Option<T>)>
    decreases new.len(),
{
    if new.len() == 0 {
        Seq::empty()
    } else {
        let r = new_only(old, new.drop_last());
        if contains_id(old, new.last().identity()) {
            r
        } else {
            r.push((None, Some(new.last())))
        }
    }
}

/// The pairing of two collections: first each item of `old`, in order, with the item
/// of `new` of the same identity if there is one; then each item of `new` whose
/// identity `old` lacks, in order, with nothing.
pub open spec fn combine_spec<T: Identified>(old: Seq<T>, new: Seq<T>) -> Seq<(Option<T>, Option<T>)> {
    old.map_values(|o: T| (Some(o), find_id(new, o.identity()))) + new_only(old, new)
}

/// The identity that a pair stands for.
pub open spec fn pair_id<T: Identified>(p: (Option<T>, Option<T>)) -> T::Id {
    match p.0 {
        Some(o) => o.identity(),
        None => p.1->0.identity(),
    }
}

/// The items that a reference may point to.
pub open spec fn deref_opt<T>(o: Option<&T>) -> Option<T> {
    match o {
        Some(x) => Some(*x),
        None => None,
    }
}

/// Pairs of references seen as pairs of items.
pub open spec fn pairs_view<T>(s: Seq<(Option<&T>, Option<&T>)>) -> Seq<(Option<T>, Option<T>)> {
    s.map_values(|p: (Option<&T>, Option<&T>)| (deref_opt(p.0), deref_opt(p.1)))
}

pub proof fn lemma_find_id<T: Identified>(s: Seq<T>, k: T::Id)
    ensures
        find_id(s, k) is Some <==> contains_id(s, k),
        find_id(s, k) matches Some(x) ==> x.identity() == k,
        unique_ids(s) ==> forall|i: int| 0 <= i < s.len() && #[trigger] s[i].identity() == k ==> find_id(s, k) == Some(s[i]),
    decreases s.len(),
{
    if s.len() > 0 {
        let t = s.drop_first();
        lemma_find_id(t, k);
        if contains_id(s, k) && s[0].identity() != k {
            let i = choose|i: int| 0 <= i < s.len() && #[trigger] s[i].identity() == k;
            assert(t[i - 1].identity() == k);
        }
        if contains_id(t, k) {
            let i = choose|i: int| 0 <= i < t.len() && #[trigger] t[i].identity() == k;
            assert(s[i + 1].identity() == k);
        }
        if unique_ids(s) {
            assert forall|i: int, j: int| 0 <= i < t.len() && 0 <= j < t.len() && #[trigger] t[i].identity() == #[trigger] t[j].identity() implies i == j by {
                assert(s[i + 1].identity() == s[j + 1].identity());
            }
            assert forall|i: int| 0 <= i < s.len() && #[trigger] s[i].identity() == k implies find_id(s, k) == Some(s[i]) by {
                if i > 0 {
                    assert(s[0].identity() != s[i].identity());
                    assert(t[i - 1] == s[i]);
                }
            }
        }
    }
}

proof fn lemma_new_only<T: Identified>(old: Seq<T>, new: Seq<T>)
    ensures
        forall|j: int| 0 <= j < new_only(old, new).len() ==> {
            let p = #[trigger] new_only(old, new)[j];
            &&& p.0 is None
            &&& p.1 is Some
            &&& contains_id(new, p.1->0.identity())
            &&& !contains_id(old, p.1->0.identity())
            &&& (unique_ids(new) ==> find_id(new, p.1->0.identity()) == p.1)
        },
        unique_ids(new) ==> forall|i: int, j: int| 0 <= i < new_only(old, new).len() && 0 <= j < new_only(old, new).len()
            && #[trigger] new_only(old, new)[i].1->0.identity() == #[trigger] new_only(old, new)[j].1->0.identity() ==> i == j,
        forall|k: T::Id| contains_id(new, k) && !contains_id(old, k) ==> exists|j: int| 0 <= j < new_only(old, new).len()
            && #[trigger] new_only(old, new)[j].1->0.identity() == k,
    decreases new.len(),
{
    if new.len() > 0 {
        let t = new.drop_last();
        let r = new_only(old, t);
        let x = new.last();
        lemma_new_only(old, t);
        let s = new_only(old, new);
        assert forall|i: int| 0 <= i < t.len() implies t[i] == #[trigger] new[i] by {}
        assert(unique_ids(new) ==> unique_ids(t)) by {
            if unique_ids(new) {
                assert forall|i: int, j: int| 0 <= i < t.len() && 0 <= j < t.len() && #[trigger] t[i].identity() == #[trigger] t[j].identity() implies i == j by {
                    assert(new[i].identity() == new[j].identity());
                }
            }
        }
        assert forall|k: T::Id| contains_id(t, k) implies contains_id(new, k) by {
            let i = choose|i: int| 0 <= i < t.len() && #[trigger] t[i].identity() == k;
            assert(new[i].identity() == k);
        }
        assert(contains_id(new, x.identity())) by {
            assert(new[new.len() - 1].identity() == x.identity());
        }
        if unique_ids(new) {
            lemma_find_id(new, x.identity());
            assert(find_id(new, x.identity()) == Some(x)) by {
                assert(new[new.len() - 1].identity() == x.identity());
            }
            assert(!contains_id(t, x.identity())) by {
                if contains_id(t, x.identity()) {
                    let i = choose|i: int| 0 <= i < t.len() && #[trigger] t[i].identity() == x.identity();
                    assert(new[i].identity() == new[new.len() - 1].identity());
                }
            }
            assert forall|k: T::Id| contains_id(t, k) implies find_id(new, k) == find_id(t, k) by {
                let i = choose|i: int| 0 <= i < t.len() && #[trigger] t[i].identity() == k;
                lemma_find_id(t, k);
                lemma_find_id(new, k);
                assert(new[i].identity() == k);
            }
        }
        assert forall|j: int| 0 <= j < s.len() implies {
            let p = #[trigger] s[j];
            &&& p.0 is None
            &&& p.1 is Some
            &&& contains_id(new, p.1->0.identity())
            &&& !contains_id(old, p.1->0.identity())
            &&& (unique_ids(new) ==> find_id(new, p.1->0.identity()) == p.1)
        } by {
            if j < r.len() {
                assert(s[j] == r[j]);
                let p = r[j];
                assert(contains_id(t, p.1->0.identity()));
            }
        }
        if unique_ids(new) {
            assert forall|i: int, j: int| 0 <= i < s.len() && 0 <= j < s.len() && #[trigger] s[i].1->0.identity() == #[trigger] s[j].1->0.identity() implies i == j by {
                if i < r.len() && j < r.len() {
                    assert(s[i] == r[i] && s[j] == r[j]);
                } else if i < r.len() {
                    assert(s[i] == r[i]);
                    assert(contains_id(t, r[i].1->0.identity()));
                } else if j < r.len() {
                    assert(s[j] == r[j]);
                    assert(contains_id(t, r[j].1->0.identity()));
                }
            }
        }
        assert forall|k: T::Id| contains_id(new, k) && !contains_id(old, k) implies exists|j: int| 0 <= j < s.len()
            && #[trigger] s[j].1->0.identity() == k by {
            let i = choose|i: int| 0 <= i < new.len() && #[trigger] new[i].identity() == k;
            if i < t.len() {
                assert(t[i].identity() == k);
                let j = choose|j: int| 0 <= j < r.len() && #[trigger] r[j].1->0.identity() == k;
                assert(s[j] == r[j]);
            } else {
                assert(s[s.len() - 1].1->0.identity() == k);
            }
        }
    }
}

/// Combine pairs each identity of either collection exactly once, with the item of
/// each side that has it.
pub proof fn lemma_combine<T: Identified>(old: Seq<T>, new: Seq<T>)
    requires
        unique_ids(old),
        unique_ids(new),
    ensures
        forall|i: int| 0 <= i < combine_spec(old, new).len() ==> {
            let p = #[trigger] combine_spec(old, new)[i];
            &&& p.0 is Some || p.1 is Some
            &&& p.0 == find_id(old, pair_id(p))
            &&& p.1 == find_id(new, pair_id(p))
        },
        forall|i: int, j: int| 0 <= i < combine_spec(old, new).len() && 0 <= j < combine_spec(old, new).len()
            && pair_id(#[trigger] combine_spec(old, new)[i]) == pair_id(#[trigger] combine_spec(old, new)[j]) ==> i == j,
        forall|k: T::Id| contains_id(old, k) || contains_id(new, k) ==> exists|i: int| 0 <= i < combine_spec(old, new).len()
            && pair_id(#[trigger] combine_spec(old, new)[i]) == k,
{
    let c = combine_spec(old, new);
    let a = old.map_values(|o: T| (Some(o), find_id(new, o.identity())));
    let b = new_only(old, new);
    lemma_new_only(old, new);
    assert forall|i: int| 0 <= i < c.len() implies {
        let p = #[trigger] c[i];
        &&& p.0 is Some || p.1 is Some
        &&& p.0 == find_id(old, pair_id(p))
        &&& p.1 == find_id(new, pair_id(p))
    } by {
        if i < old.len() {
            assert(c[i] == a[i]);
            lemma_find_id(old, old[i].identity());
        } else {
            assert(c[i] == b[i - old.len()]);
            let k = b[i - old.len()].1->0.identity();
            lemma_find_id(old, k);
        }
    }
    assert forall|i: int, j: int| 0 <= i < c.len() && 0 <= j < c.len() && pair_id(#[trigger] c[i]) == pair_id(#[trigger] c[j]) implies i == j by {
        if i < old.len() && j < old.len() {
            assert(c[i] == a[i] && c[j] == a[j]);
            assert(old[i].identity() == old[j].identity());
        } else if i < old.len() {
            assert(c[i] == a[i] && c[j] == b[j - old.len()]);
            assert(old[i].identity() == pair_id(c[i]));
        } else if j < old.len() {
            assert(c[j] == a[j] && c[i] == b[i - old.len()]);
            assert(old[j].identity() == pair_id(c[j]));
        } else {
            assert(c[i] == b[i - old.len()] && c[j] == b[j - old.len()]);
        }
    }
    assert forall|k: T::Id| contains_id(old, k) || contains_id(new, k) implies exists|i: int| 0 <= i < c.len()
        && pair_id(#[trigger] c[i]) == k by {
        if contains_id(old, k) {
            let i = choose|i: int| 0 <= i < old.len() && #[trigger] old[i].identity() == k;
            assert(c[i] == a[i]);
            assert(pair_id(c[i]) == k);
        } else {
            let j = choose|j: int| 0 <= j < b.len() && #[trigger] b[j].1->0.identity() == k;
            assert(c[old.len() + j] == b[j]);
            assert(pair_id(c[old.len() + j]) == k);
        }
    }
}

fn find<'a, T: Identified>(s: &'a Vec<T>, x: &T) -> (r: Option<&'a T>)
    ensures
        deref_opt(r) == find_id(s@, x.identity()),
{
    let mut j: usize = 0;
    assert(s@.subrange(0, s@.len() as int) =~= s@);
    while j < s.len()
        invariant
            j <= s@.len(),
            find_id(s@, x.identity()) == find_id(s@.subrange(j as int, s@.len() as int), x.identity()),
        decreases s.len() - j,
    {
        let ghost rest = s@.subrange(j as int, s@.len() as int);
        assert(rest.drop_first() =~= s@.subrange(j + 1, s@.len() as int));
        assert(rest[0] == s@[j as int]);
        if s[j].same_identity(x) {
            return Some(&s[j]);
        }
        j = j + 1;
    }
    None
}

fn contains<T: Identified>(s: &Vec<T>, x: &T) -> (r: bool)
    ensures
        r == contains_id(s@, x.identity()),
{
    let mut j: usize = 0;
    while j < s.len()
        invariant
            j <= s@.len(),
            forall|i: int| 0 <= i < j ==> s@[i].identity() != x.identity(),
        decreases s.len() - j,
    {
        if s[j].same_identity(x) {
            assert(s@[j as int].identity() == x.identity());
            return true;
        }
        j = j + 1;
    }
    false
}

/// Pairs the items of `old` and `new` by identity: first each item of `old`, in order,
/// with the item of `new` that has its identity, if any; then each item of `new` whose
/// identity `old` lacks, in order, with nothing. Where each side holds an identity at
/// most once, every identity of either side is in exactly one pair (see `lemma_combine`).
pub fn combine<'a, T: Identified>(old: &'a Vec<T>, new: &'a Vec<T>) -> (pairs: Vec<(Option<&'a T>, Option<&'a T>)>)
    ensures
        pairs_view(pairs@) == combine_spec(old@, new@),
{
    let mut pairs: Vec<(Option<&'a T>, Option<&'a T>)> = Vec::new();
    let ghost f = |o: T| (Some(o), find_id(new@, o.identity()));
    let mut i: usize = 0;
    assert(pairs_view(pairs@) =~= old@.subrange(0, 0).map_values(f));
    while i < old.len()
        invariant
            i <= old@.len(),
            f == (|o: T| (Some(o), find_id(new@, o.identity()))),
            pairs_view(pairs@) == old@.subrange(0, i as int).map_values(f),
        decreases old.len() - i,
    {
        let o = &old[i];
        let m = find(new, o);
        let ghost before = pairs_view(pairs@);
        pairs.push((Some(o), m));
        assert(pairs_view(pairs@) =~= before.push(f(old@[i as int])));
        assert(old@.subrange(0, i + 1).map_values(f) =~= old@.subrange(0, i as int).map_values(f).push(f(old@[i as int])));
        i = i + 1;
    }
    assert(old@.subrange(0, i as int) =~= old@);
    let ghost head = pairs_view(pairs@);
    let mut j: usize = 0;
    assert(new@.subrange(0, 0) =~= Seq::<T>::empty());
    assert(pairs_view(pairs@) =~= head + new_only(old@, new@.subrange(0, 0)));
    while j < new.len()
        invariant
            j <= new@.len(),
            head == old@.map_values(f),
            f == (|o: T| (Some(o), find_id(new@, o.identity()))),
            pairs_view(pairs@) == head + new_only(old@, new@.subrange(0, j as int)),
        decreases new.len() - j,
    {
        let n = &new[j];
        let ghost before = pairs_view(pairs@);
        let ghost sub = new@.subrange(0, j + 1);
        assert(sub.drop_last() =~= new@.subrange(0, j as int));
        assert(sub.last() == new@[j as int]);
        if !contains(old, n) {
            pairs.push((None, Some(n)));
            assert(pairs_view(pairs@) =~= before.push((None, Some(new@[j as int]))));
        }
        j = j + 1;
    }
    assert(new@.subrange(0, j as int) =~= new@);
    pairs
}

} // verus!
