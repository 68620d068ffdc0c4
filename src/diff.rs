//! Comparing values, keys and whole registries, and the patch that results.
use vstd::prelude::*;
use crate::combine::{
    combine, combine_spec, contains_id, deref_opt, find_id, lemma_combine, lemma_find_id, pair_id, pairs_view,
    unique_ids, Identified,
};
use crate::pairs::{has_key, lemma_map_len, lemma_to_map, lemma_to_map_insert, lemma_to_map_push, to_map, unique_keys};
use crate::path::{lemma_path_order, path_lt, KeyPath, PathV};
use crate::registry::{
    clone_values, hive_name, is_tree, keys_view, lemma_snapshot, snapshot, values_view, Hive, Key, KeyV, Registry,
    ValuesV,
};
use crate::value::{DataV, NameV, Value, ValueV};

verus! {

/// The outcome of comparing an old and a new version of one item.
#[derive(Debug)]
pub enum Operation<Data> {
    /// Both versions are the same.
    Unchanged,
    /// Only the new version exists.
    Add { data: Data },
    /// Only the old version exists.
    Delete { data: Data },
    /// Both exist and differ.
    Modify { old_data: Data, new_data: Data },
    /// Both exist at one identity and differ in part; `data` holds just that part.
    Update { data: Data },
}

/// Comparing an old and a new version of an item.
pub trait Diff<'a>: Sized {
    type Input;
    type Output;

    /// What `diff` returns on `old` and `new`.
    spec fn diff_post(old: Self::Input, new: Self::Input, r: Self::Output) -> bool;

    fn diff(old: Self::Input, new: Self::Input) -> (r: Self::Output)
        ensures
            Self::diff_post(old, new, r),
    ;
}

impl Identified for Value {
    type Id = NameV;

    open spec fn identity(&self) -> NameV {
        self@.0
    }

    fn same_identity(&self, other: &Value) -> (r: bool) {
        self.name().same_as(other.name())
    }
}

impl Identified for Key {
    type Id = PathV;

    open spec fn identity(&self) -> PathV {
        self@.0
    }

    fn same_identity(&self, other: &Key) -> (r: bool) {
        self.name().same_as(other.name())
    }
}

/// For items whose identity is the first part of their view, an identity occurs among
/// the items exactly when it is a key of their views.
proof fn lemma_ids_keys<T: Identified + View<V = (T::Id, U)>, U>(s: Seq<T>)
    requires
        forall|x: T| #[trigger] x.identity() == x@.0,
    ensures
        forall|k: T::Id| #[trigger] contains_id(s, k) <==> has_key(s.map_values(|x: T| x@), k),
        unique_keys(s.map_values(|x: T| x@)) ==> unique_ids(s),
{
    let v = s.map_values(|x: T| x@);
    assert forall|k: T::Id| #[trigger] contains_id(s, k) <==> has_key(v, k) by {
        if contains_id(s, k) {
            let i = choose|i: int| 0 <= i < s.len() && #[trigger] s[i].identity() == k;
            assert(v[i].0 == k);
        }
        if has_key(v, k) {
            let i = choose|i: int| 0 <= i < v.len() && #[trigger] v[i].0 == k;
            assert(s[i].identity() == k);
        }
    }
    if unique_keys(v) {
        assert forall|i: int, j: int| 0 <= i < s.len() && 0 <= j < s.len() && #[trigger] s[i].identity() == #[trigger] s[j].identity() implies i == j by {
            assert(v[i].0 == v[j].0);
        }
    }
}

/// The comparison of two optional values that share a name.
pub open spec fn value_op<'a>(old: Option<&'a Value>, new: Option<&'a Value>) -> Operation<&'a Value> {
    match (old, new) {
        (Some(o), None) => Operation::Delete { data: o },
        (None, Some(n)) => Operation::Add { data: n },
        (Some(o), Some(n)) => if o@ != n@ {
            Operation::Modify { old_data: o, new_data: n }
        } else {
            Operation::Unchanged
        },
        (None, None) => Operation::Unchanged,
    }
}

impl<'a> Diff<'a> for Value {
    type Input = Option<&'a Value>;
    type Output = Operation<&'a Value>;

    open spec fn diff_post(old: Option<&'a Value>, new: Option<&'a Value>, r: Operation<&'a Value>) -> bool {
        r == value_op(old, new)
    }

    /// Only in old: `Delete`; only in new: `Add`; in both and different: `Modify`;
    /// otherwise `Unchanged`.
    fn diff(old: Option<&'a Value>, new: Option<&'a Value>) -> (r: Operation<&'a Value>) {
        match (old, new) {
            (Some(o), None) => Operation::Delete { data: o },
            (None, Some(n)) => Operation::Add { data: n },
            (Some(o), Some(n)) => if !o.same_as(n) {
                Operation::Modify { old_data: o, new_data: n }
            } else {
                Operation::Unchanged
            },
            (None, None) => Operation::Unchanged,
        }
    }
}

impl<'a> Operation<&'a Value> {
    /// The fragment that a value-level change contributes to a key's patch entry: the
    /// new value for `Add`, `Modify` and `Update`, the delete sentinel under the old
    /// value's name for `Delete`, nothing for `Unchanged`.
    pub fn to_value(self) -> (r: Option<Value>)
        ensures
            self matches Operation::Unchanged ==> r is None,
            self matches Operation::Add { data } ==> r matches Some(v) && v@ == data@,
            self matches Operation::Delete { data } ==> r matches Some(v) && v@ == (data@.0, DataV::Delete),
            self matches Operation::Modify { new_data, .. } ==> r matches Some(v) && v@ == new_data@,
            self matches Operation::Update { data } ==> r matches Some(v) && v@ == data@,
    {
        match self {
            Operation::Add { data } => Some(data.clone()),
            Operation::Delete { data } => {
                let (name, sentinel) = data.clone().into_deleted_value();
                Some(Value::new(name, sentinel))
            },
            Operation::Modify { new_data, .. } => Some(new_data.clone()),
            Operation::Update { data } => Some(data.clone()),
            Operation::Unchanged => None,
        }
    }
}

/// The value named `k` differs between `o` and `n`: it is in one only, or in both
/// with different payloads.
pub open spec fn changed(o: ValuesV, n: ValuesV, k: NameV) -> bool {
    (o.contains_key(k) || n.contains_key(k)) && !(o.contains_key(k) && n.contains_key(k) && o[k] == n[k])
}

/// The changed values of a key: each value added or modified, with its new payload,
/// and each value removed, with the delete sentinel.
pub open spec fn value_changes(o: ValuesV, n: ValuesV) -> ValuesV {
    Map::new(|k: NameV| changed(o, n, k), |k: NameV| if n.contains_key(k) { n[k] } else { DataV::Delete })
}

/// Some value differs between `o` and `n`.
pub open spec fn has_changes(o: ValuesV, n: ValuesV) -> bool {
    exists|k: NameV| changed(o, n, k)
}

/// The identities of the first `i` pairs.
pub open spec fn ids_before<T: Identified>(p: Seq<(Option<T>, Option<T>)>, i: int) -> Set<T::Id> {
    Set::new(|k: T::Id| exists|j: int| 0 <= j < i && pair_id(#[trigger] p[j]) == k)
}

/// The values of `new` that differ from those of `old`, as `value_changes` gives them.
fn changed_values(old: &Key, new: &Key) -> (r: Vec<Value>)
    ensures
        unique_keys(values_view(r@)),
        to_map(values_view(r@)) == value_changes(to_map(old@.1), to_map(new@.1)),
{
    let ov = old.values();
    let nv = new.values();
    let ghost o = to_map(old@.1);
    let ghost n = to_map(new@.1);
    proof {
        assert forall|x: Value| #[trigger] x.identity() == x@.0 by {}
        lemma_ids_keys::<Value, DataV>(ov@);
        lemma_ids_keys::<Value, DataV>(nv@);
        assert(ov@.map_values(|x: Value| x@) == values_view(ov@));
        assert(nv@.map_values(|x: Value| x@) == values_view(nv@));
        lemma_combine(ov@, nv@);
        lemma_to_map(old@.1);
        lemma_to_map(new@.1);
    }
    let pairs = combine(ov, nv);
    let ghost p = combine_spec(ov@, nv@);
    let mut out: Vec<Value> = Vec::new();
    let mut i: usize = 0;
    proof {
        assert(values_view(out@) =~= Seq::<ValueV>::empty());
        assert(to_map(Seq::<ValueV>::empty()) =~= value_changes(o, n).restrict(ids_before(p, 0)));
    }
    while i < pairs.len()
        invariant
            pairs_view(pairs@) == p,
            p == combine_spec(ov@, nv@),
            values_view(ov@) == old@.1,
            values_view(nv@) == new@.1,
            o == to_map(old@.1),
            n == to_map(new@.1),
            i <= p.len(),
            unique_keys(old@.1),
            unique_keys(new@.1),
            unique_ids(ov@),
            unique_ids(nv@),
            unique_keys(values_view(out@)),
            to_map(values_view(out@)) == value_changes(o, n).restrict(ids_before(p, i as int)),
        decreases pairs.len() - i,
    {
        let pr = pairs[i];
        let op = Value::diff(pr.0, pr.1);
        let ghost k = pair_id(p[i as int]);
        let ghost before = values_view(out@);
        proof {
            assert(pairs_view(pairs@)[i as int] == p[i as int]);
            lemma_combine(ov@, nv@);
            lemma_find_value(ov@, k);
            lemma_find_value(nv@, k);
            assert(ids_before(p, i + 1) =~= ids_before(p, i as int).insert(k));
            lemma_to_map(before);
        }
        match op.to_value() {
            Some(v) => {
                proof {
                    assert(v@.0 == k);
                    assert(changed(o, n, k));
                    assert(v@.1 == value_changes(o, n)[k]);
                    assert(!has_key(before, k)) by {
                        if has_key(before, k) {
                            assert(to_map(before).contains_key(k));
                            let j = choose|j: int| 0 <= j < i && pair_id(#[trigger] p[j]) == k;
                        }
                    }
                    lemma_to_map_push(before, v@.0, v@.1);
                }
                out.push(v);
                proof {
                    assert(values_view(out@) =~= before.push((v@.0, v@.1)));
                    assert(to_map(values_view(out@)) =~= value_changes(o, n).restrict(ids_before(p, i + 1)));
                }
            },
            None => {
                proof {
                    assert(!changed(o, n, k));
                    assert(value_changes(o, n).restrict(ids_before(p, i as int)) =~= value_changes(o, n).restrict(
                        ids_before(p, i + 1),
                    ));
                }
            },
        }
        i = i + 1;
    }
    proof {
        lemma_combine(ov@, nv@);
        assert forall|k: NameV| #[trigger] changed(o, n, k) implies ids_before(p, p.len() as int).contains(k) by {
            lemma_find_value(ov@, k);
            lemma_find_value(nv@, k);
            lemma_find_id(ov@, k);
            lemma_find_id(nv@, k);
            let j = choose|j: int| 0 <= j < p.len() && pair_id(#[trigger] p[j]) == k;
        }
        assert(value_changes(o, n).restrict(ids_before(p, p.len() as int)) =~= value_changes(o, n));
    }
    out
}

/// Where no two values share a name, the first value named `k` is the one that the
/// values' map gives `k`.
proof fn lemma_find_value(s: Seq<Value>, k: NameV)
    requires
        unique_keys(values_view(s)),
    ensures
        find_id(s, k) is Some <==> to_map(values_view(s)).contains_key(k),
        find_id(s, k) matches Some(x) ==> x@.0 == k && x@.1 == to_map(values_view(s))[k],
{
    let v = values_view(s);
    assert forall|x: Value| #[trigger] x.identity() == x@.0 by {}
    lemma_ids_keys::<Value, DataV>(s);
    assert(s.map_values(|x: Value| x@) == v);
    lemma_find_id(s, k);
    lemma_to_map(v);
    if find_id(s, k) is Some {
        let j = choose|j: int| 0 <= j < s.len() && #[trigger] s[j].identity() == k;
        assert(v[j] == s[j]@);
    }
}

/// The comparison of two optional keys.
pub open spec fn key_post(old: Option<&Key>, new: Option<&Key>, r: Operation<Key>) -> bool {
    match (old, new) {
        (Some(o), None) => r matches Operation::Delete { data } && data@ == o@,
        (None, Some(n)) => r matches Operation::Add { data } && data@ == n@,
        (Some(o), Some(n)) => if o@.0 != n@.0 {
            r matches Operation::Modify { old_data, new_data } && old_data@ == o@ && new_data@ == n@
        } else if has_changes(to_map(o@.1), to_map(n@.1)) {
            r matches Operation::Update { data } && data@.0 == n@.0
                && to_map(data@.1) == value_changes(to_map(o@.1), to_map(n@.1))
        } else {
            r is Unchanged
        },
        (None, None) => r is Unchanged,
    }
}

impl<'a> Diff<'a> for Key {
    type Input = Option<&'a Key>;
    type Output = Operation<Key>;

    open spec fn diff_post(old: Option<&'a Key>, new: Option<&'a Key>, r: Operation<Key>) -> bool {
        key_post(old, new, r)
    }

    /// Only in old: `Delete` of the old key, which stands for its whole subtree. Only in
    /// new: `Add` of the new key with all its values. Two keys at different paths:
    /// `Modify` with both, the old one to go and the new one to come. Two keys at one
    /// path: `Update` whose key holds just the changed values (removed ones as the
    /// delete sentinel), or `Unchanged` if no value changed.
    fn diff(old: Option<&'a Key>, new: Option<&'a Key>) -> (r: Operation<Key>) {
        match (old, new) {
            (Some(o), None) => Operation::Delete { data: o.clone() },
            (None, Some(n)) => Operation::Add { data: n.clone() },
            (Some(o), Some(n)) if !o.name().same_as(n.name()) => Operation::Modify {
                old_data: o.clone(),
                new_data: n.clone(),
            },
            (Some(o), Some(n)) => {
                let changes = changed_values(o, n);
                proof {
                    lemma_to_map(values_view(changes@));
                }
                if changes.len() == 0 {
                    proof {
                        assert(values_view(changes@) =~= Seq::<ValueV>::empty());
                        assert forall|k: NameV| !changed(to_map(o@.1), to_map(n@.1), k) by {
                            assert(!value_changes(to_map(o@.1), to_map(n@.1)).contains_key(k));
                        }
                    }
                    Operation::Unchanged
                } else {
                    proof {
                        let k = values_view(changes@)[0].0;
                        assert(has_key(values_view(changes@), k));
                        assert(to_map(values_view(changes@)).contains_key(k));
                        assert(value_changes(to_map(o@.1), to_map(n@.1)).contains_key(k));
                        assert(changed(to_map(o@.1), to_map(n@.1), k));
                    }
                    Operation::Update { data: Key::new(n.name().clone(), changes) }
                }
            },
            (None, None) => Operation::Unchanged,
        }
    }
}

/// What a patch says of one key.
#[derive(Debug, PartialEq, Eq)]
pub enum PatchEntry {
    /// Remove the key and everything beneath it.
    Deleted,
    /// Add the key with all these values.
    Full(Vec<Value>),
    /// Change just these values; one holding the delete sentinel is removed.
    Partial(Vec<Value>),
}

/// Mathematical form of a patch entry.
pub enum EntryV {
    Deleted,
    Full(ValuesV),
    Partial(ValuesV),
}

impl View for PatchEntry {
    type V = EntryV;

    open spec fn view(&self) -> EntryV {
        match self {
            PatchEntry::Deleted => EntryV::Deleted,
            PatchEntry::Full(v) => EntryV::Full(to_map(values_view(v@))),
            PatchEntry::Partial(v) => EntryV::Partial(to_map(values_view(v@))),
        }
    }
}

impl Clone for PatchEntry {
    fn clone(&self) -> (r: Self)
        ensures
            r@ == self@,
    {
        match self {
            PatchEntry::Deleted => PatchEntry::Deleted,
            PatchEntry::Full(v) => PatchEntry::Full(clone_values(v)),
            PatchEntry::Partial(v) => PatchEntry::Partial(clone_values(v)),
        }
    }
}

impl Operation<Key> {
    /// The patch entries that a key-level change gives: `Full` for `Add`, `Deleted` for
    /// `Delete`, `Partial` with the changed values for `Update`, `Deleted` at the old
    /// path and `Full` at the new one for `Modify`, none for `Unchanged`.
    pub fn to_entries(self) -> (r: Vec<(KeyPath, PatchEntry)>)
        ensures
            self matches Operation::Unchanged ==> entries_view(r@) == Seq::<(PathV, EntryV)>::empty(),
            self matches Operation::Add { data } ==> entries_view(r@) == seq![(data@.0, EntryV::Full(to_map(data@.1)))],
            self matches Operation::Delete { data } ==> entries_view(r@) == seq![(data@.0, EntryV::Deleted)],
            self matches Operation::Update { data } ==> entries_view(r@) == seq![(data@.0, EntryV::Partial(to_map(data@.1)))],
            self matches Operation::Modify { old_data, new_data } ==> entries_view(r@) == seq![
                (old_data@.0, EntryV::Deleted),
                (new_data@.0, EntryV::Full(to_map(new_data@.1))),
            ],
    {
        let mut r: Vec<(KeyPath, PatchEntry)> = Vec::new();
        match self {
            Operation::Add { data } => {
                let (name, values) = data.into_parts();
                r.push((name, PatchEntry::Full(values)));
            },
            Operation::Delete { data } => {
                r.push(data.into_deleted_key());
            },
            Operation::Update { data } => {
                let (name, values) = data.into_parts();
                r.push((name, PatchEntry::Partial(values)));
            },
            Operation::Modify { old_data, new_data } => {
                r.push(old_data.into_deleted_key());
                let (name, values) = new_data.into_parts();
                r.push((name, PatchEntry::Full(values)));
            },
            Operation::Unchanged => {},
        }
        assert(entries_view(r@) =~= entries_view(r@));
        r
    }
}

impl Key {
    /// The patch entry that removes this key and its subtree.
    pub fn into_deleted_key(self) -> (r: (KeyPath, PatchEntry))
        ensures
            r.0@ == self@.0,
            r.1@ == EntryV::Deleted,
    {
        let (name, _values) = self.into_parts();
        (name, PatchEntry::Deleted)
    }
}

/// The entries of a patch as a list of path and entry.
pub open spec fn entries_view(e: Seq<(KeyPath, PatchEntry)>) -> Seq<(PathV, EntryV)> {
    e.map_values(|x: (KeyPath, PatchEntry)| (x.0@, x.1@))
}

/// The paths of the entries strictly increase in the order of `path_lt`.
pub open spec fn sorted_by_path(e: Seq<(PathV, EntryV)>) -> bool {
    forall|i: int, j: int| 0 <= i < j < e.len() ==> path_lt(#[trigger] e[i].0, #[trigger] e[j].0)
}

/// Inserts an entry for a new path at its place in path order.
fn insert_sorted(entries: &mut Vec<(KeyPath, PatchEntry)>, e: (KeyPath, PatchEntry))
    requires
        sorted_by_path(entries_view(old(entries)@)),
        unique_keys(entries_view(old(entries)@)),
        !has_key(entries_view(old(entries)@), e.0@),
    ensures
        sorted_by_path(entries_view(final(entries)@)),
        unique_keys(entries_view(final(entries)@)),
        to_map(entries_view(final(entries)@)) == to_map(entries_view(old(entries)@)).insert(e.0@, e.1@),
{
    let ghost ev = entries_view(entries@);
    let ghost x = (e.0@, e.1@);
    let mut pos: usize = 0;
    while pos < entries.len()
        invariant
            ev == entries_view(entries@),
            x == (e.0@, e.1@),
            pos <= ev.len(),
            forall|i: int| 0 <= i < pos ==> path_lt(#[trigger] ev[i].0, x.0),
        ensures
            pos <= ev.len(),
            forall|i: int| 0 <= i < pos ==> path_lt(#[trigger] ev[i].0, x.0),
            pos == ev.len() || !path_lt(ev[pos as int].0, x.0),
        decreases entries.len() - pos,
    {
        assert(ev[pos as int].0 == entries@[pos as int].0@);
        if !entries[pos].0.less_than(&e.0) {
            break;
        }
        pos = pos + 1;
    }
    proof {
        lemma_to_map_insert(ev, pos as int, x.0, x.1);
        if pos < ev.len() {
            assert(ev[pos as int].0 != x.0) by {
                assert(has_key(ev, ev[pos as int].0));
            }
            lemma_path_order(x.0, ev[pos as int].0, x.0);
            lemma_path_order(ev[pos as int].0, x.0, x.0);
        }
        let t = ev.insert(pos as int, x);
        assert forall|i: int, j: int| 0 <= i < j < t.len() implies path_lt(#[trigger] t[i].0, #[trigger] t[j].0) by {
            if i < pos && j < pos {
                assert(t[i] == ev[i] && t[j] == ev[j]);
            } else if i < pos && j == pos {
                assert(t[i] == ev[i]);
            } else if i < pos {
                assert(t[i] == ev[i] && t[j] == ev[j - 1]);
                lemma_path_order(ev[i].0, x.0, ev[j - 1].0);
                if j - 1 > pos {
                    lemma_path_order(x.0, ev[pos as int].0, ev[j - 1].0);
                }
            } else if i == pos {
                assert(t[j] == ev[j - 1]);
                if j - 1 > pos {
                    lemma_path_order(x.0, ev[pos as int].0, ev[j - 1].0);
                }
            } else {
                assert(t[i] == ev[i - 1] && t[j] == ev[j - 1]);
            }
        }
    }
    entries.insert(pos, e);
    assert(entries_view(entries@) =~= ev.insert(pos as int, x));
}

/// A patch: at most one entry per path, in path order.
#[derive(Debug)]
pub struct Patch {
    entries: Vec<(KeyPath, PatchEntry)>,
}

impl View for Patch {
    type V = Map<PathV, EntryV>;

    closed spec fn view(&self) -> Map<PathV, EntryV> {
        to_map(entries_view(self.entries@))
    }
}

impl Patch {
    #[verifier::type_invariant]
    spec fn inv(self) -> bool {
        &&& unique_keys(entries_view(self.entries@))
        &&& sorted_by_path(entries_view(self.entries@))
    }

    /// The empty patch.
    pub fn new() -> (r: Patch)
        ensures
            r@ == Map::<PathV, EntryV>::empty(),
    {
        let r = Patch { entries: Vec::new() };
        assert(entries_view(r.entries@) =~= Seq::<(PathV, EntryV)>::empty());
        assert(to_map(Seq::<(PathV, EntryV)>::empty()) =~= Map::<PathV, EntryV>::empty());
        r
    }

    /// The patch with these entries.
    fn from_entries(entries: Vec<(KeyPath, PatchEntry)>) -> (r: Patch)
        requires
            unique_keys(entries_view(entries@)),
            sorted_by_path(entries_view(entries@)),
        ensures
            r@ == to_map(entries_view(entries@)),
    {
        Patch { entries }
    }

    /// Number of entries.
    pub fn len(&self) -> (r: usize)
        ensures
            r == self@.dom().len(),
    {
        proof {
            use_type_invariant(self);
            lemma_map_len(entries_view(self.entries@));
        }
        self.entries.len()
    }

    /// Whether the patch has no entry.
    pub fn is_empty(&self) -> (r: bool)
        ensures
            r == (self@ == Map::<PathV, EntryV>::empty()),
    {
        proof {
            use_type_invariant(self);
            lemma_to_map(entries_view(self.entries@));
            if self.entries@.len() > 0 {
                assert(has_key(entries_view(self.entries@), entries_view(self.entries@)[0].0));
                assert(self@.contains_key(entries_view(self.entries@)[0].0));
            } else {
                assert(entries_view(self.entries@) =~= Seq::<(PathV, EntryV)>::empty());
                assert(self@ =~= Map::<PathV, EntryV>::empty());
            }
        }
        self.entries.len() == 0
    }

    /// The entries, each path once, in path order.
    pub fn entries(&self) -> (r: &Vec<(KeyPath, PatchEntry)>)
        ensures
            to_map(entries_view(r@)) == self@,
            unique_keys(entries_view(r@)),
            sorted_by_path(entries_view(r@)),
    {
        proof {
            use_type_invariant(self);
        }
        &self.entries
    }

    /// The entry for `path`, if any.
    pub fn get(&self, path: &KeyPath) -> (r: Option<&PatchEntry>)
        ensures
            r is Some <==> self@.contains_key(path@),
            r matches Some(e) ==> e@ == self@[path@],
    {
        proof {
            use_type_invariant(self);
            lemma_to_map(entries_view(self.entries@));
        }
        let mut i: usize = 0;
        while i < self.entries.len()
            invariant
                i <= self.entries@.len(),
                forall|j: int| 0 <= j < i ==> self.entries@[j].0@ != path@,
            decreases self.entries.len() - i,
        {
            if self.entries[i].0.same_as(path) {
                proof {
                    use_type_invariant(self);
                    lemma_to_map(entries_view(self.entries@));
                }
                assert(entries_view(self.entries@)[i as int].0 == path@);
                return Some(&self.entries[i].1);
            }
            i = i + 1;
        }
        assert(!has_key(entries_view(self.entries@), path@)) by {
            if has_key(entries_view(self.entries@), path@) {
                let j = choose|j: int| 0 <= j < entries_view(self.entries@).len() && #[trigger] entries_view(self.entries@)[j].0 == path@;
                assert(self.entries@[j].0@ == path@);
            }
        }
        None
    }
}

/// What the patch says of path `p` when `o` becomes `n`:
/// - in `o` only: `Deleted`, if `p`'s parent is in `n`; nothing otherwise, since
///   the deletion of the nearest such ancestor removes it;
/// - in `n` only: `Full` with all its values;
/// - in both, with some value changed: `Partial` with the changed values;
/// - otherwise nothing.
pub open spec fn entry_for(o: Map<PathV, ValuesV>, n: Map<PathV, ValuesV>, p: PathV) -> Option<EntryV> {
    if o.contains_key(p) && !n.contains_key(p) {
        if p.len() > 0 && n.contains_key(p.drop_last()) {
            Some(EntryV::Deleted)
        } else {
            None
        }
    } else if !o.contains_key(p) && n.contains_key(p) {
        Some(EntryV::Full(n[p]))
    } else if o.contains_key(p) && n.contains_key(p) && has_changes(o[p], n[p]) {
        Some(EntryV::Partial(value_changes(o[p], n[p])))
    } else {
        None
    }
}

/// The patch that turns tree `o` into tree `n`: one entry per path, as `entry_for` gives it.
pub open spec fn patch_spec(o: Map<PathV, ValuesV>, n: Map<PathV, ValuesV>) -> Map<PathV, EntryV> {
    Map::new(|p: PathV| entry_for(o, n, p) is Some, |p: PathV| entry_for(o, n, p)->0)
}

/// Where no two keys share a path, the first key at `k` is the one that the
/// snapshot gives `k`.
proof fn lemma_find_key(s: Seq<Key>, k: PathV)
    requires
        unique_keys(keys_view(s)),
    ensures
        find_id(s, k) is Some <==> snapshot(keys_view(s)).contains_key(k),
        find_id(s, k) matches Some(x) ==> x@.0 == k && to_map(x@.1) == snapshot(keys_view(s))[k],
{
    let v = keys_view(s);
    assert forall|x: Key| #[trigger] x.identity() == x@.0 by {}
    lemma_ids_keys::<Key, Seq<ValueV>>(s);
    assert(s.map_values(|x: Key| x@) == v);
    lemma_find_id(s, k);
    lemma_snapshot(v);
    if find_id(s, k) is Some {
        let j = choose|j: int| 0 <= j < s.len() && #[trigger] s[j].identity() == k;
        assert(v[j] == s[j]@);
    }
}

/// Whether the parent of `key` is in `tree`.
fn parent_present(tree: &Registry, key: &Key) -> (r: bool)
    ensures
        r == (key@.0.len() > 0 && snapshot(tree@).contains_key(key@.0.drop_last())),
{
    match key.name().parent() {
        Some(p) => tree.key(&p).is_some(),
        None => false,
    }
}

impl<'a> Diff<'a> for Registry {
    type Input = &'a Registry;
    type Output = Patch;

    open spec fn diff_post(old: &'a Registry, new: &'a Registry, r: Patch) -> bool {
        r@ == patch_spec(snapshot(old@), snapshot(new@))
    }

    /// Pairs the keys of both trees by path and folds each pair's comparison into
    /// one patch entry per path. The deletion of a key whose parent is gone too is
    /// left out: the deletion of that parent covers it.
    fn diff(old: &'a Registry, new: &'a Registry) -> (r: Patch) {
        let ok = old.keys();
        let nk = new.keys();
        let ghost o = snapshot(old@);
        let ghost n = snapshot(new@);
        proof {
            assert forall|x: Key| #[trigger] x.identity() == x@.0 by {}
            lemma_ids_keys::<Key, Seq<ValueV>>(ok@);
            lemma_ids_keys::<Key, Seq<ValueV>>(nk@);
            assert(ok@.map_values(|x: Key| x@) == keys_view(ok@));
            assert(nk@.map_values(|x: Key| x@) == keys_view(nk@));
        }
        let pairs = combine(ok, nk);
        let ghost p = combine_spec(ok@, nk@);
        let mut entries: Vec<(KeyPath, PatchEntry)> = Vec::new();
        let mut i: usize = 0;
        proof {
            assert(entries_view(entries@) =~= Seq::<(PathV, EntryV)>::empty());
            assert(to_map(Seq::<(PathV, EntryV)>::empty()) =~= patch_spec(o, n).restrict(ids_before(p, 0)));
        }
        while i < pairs.len()
            invariant
                pairs_view(pairs@) == p,
                p == combine_spec(ok@, nk@),
                keys_view(ok@) == old@,
                keys_view(nk@) == new@,
                o == snapshot(old@),
                n == snapshot(new@),
                is_tree(old@),
                is_tree(new@),
                unique_ids(ok@),
                unique_ids(nk@),
                i <= p.len(),
                unique_keys(entries_view(entries@)),
                sorted_by_path(entries_view(entries@)),
                to_map(entries_view(entries@)) == patch_spec(o, n).restrict(ids_before(p, i as int)),
            decreases pairs.len() - i,
        {
            let pr = pairs[i];
            let ghost k = pair_id(p[i as int]);
            let ghost before = entries_view(entries@);
            proof {
                assert(pairs_view(pairs@)[i as int] == p[i as int]);
                lemma_combine(ok@, nk@);
                lemma_find_key(ok@, k);
                lemma_find_key(nk@, k);
                assert(ids_before(p, i + 1) =~= ids_before(p, i as int).insert(k));
                lemma_to_map(before);
            }
            let keep = match (pr.0, pr.1) {
                (Some(gone), None) => parent_present(new, gone),
                _ => true,
            };
            let op = Key::diff(pr.0, pr.1);
            let mut produced = if keep {
                op.to_entries()
            } else {
                Vec::new()
            };
            proof {
                assert(entries_view(produced@).len() == produced@.len());
                assert(produced@.len() <= 1);
            }
            let ghost pv = entries_view(produced@);
            let entry = produced.pop();
            match entry {
                Some(e) => {
                    proof {
                        assert(pv.len() == 1);
                        assert(pv[0] == (e.0@, e.1@));
                        assert(e.0@ == k);
                        assert(entry_for(o, n, k) == Some(e.1@));
                        assert(!has_key(before, k)) by {
                            if has_key(before, k) {
                                assert(to_map(before).contains_key(k));
                                let j = choose|j: int| 0 <= j < i && pair_id(#[trigger] p[j]) == k;
                            }
                        }
                    }
                    insert_sorted(&mut entries, e);
                    proof {
                        assert(to_map(entries_view(entries@)) =~= patch_spec(o, n).restrict(ids_before(p, i + 1)));
                    }
                },
                None => {
                    proof {
                        assert(entry_for(o, n, k) is None);
                        assert(patch_spec(o, n).restrict(ids_before(p, i as int)) =~= patch_spec(o, n).restrict(
                            ids_before(p, i + 1),
                        ));
                    }
                },
            }
            i = i + 1;
        }
        proof {
            lemma_combine(ok@, nk@);
            assert forall|k: PathV| #[trigger] patch_spec(o, n).contains_key(k) implies ids_before(p, p.len() as int).contains(k) by {
                lemma_find_key(ok@, k);
                lemma_find_key(nk@, k);
                lemma_find_id(ok@, k);
                lemma_find_id(nk@, k);
                let j = choose|j: int| 0 <= j < p.len() && pair_id(#[trigger] p[j]) == k;
            }
            assert(patch_spec(o, n).restrict(ids_before(p, p.len() as int)) =~= patch_spec(o, n));
        }
        Patch::from_entries(entries)
    }
}

/// A patch with every path placed under the segment `h`.
pub open spec fn under(m: Map<PathV, EntryV>, h: Seq<char>) -> Map<PathV, EntryV> {
    Map::new(
        |q: PathV| q.len() > 0 && q[0] == h && m.contains_key(q.drop_first()),
        |q: PathV| m[q.drop_first()],
    )
}

/// An entry with its path placed under the segment `h`.
pub open spec fn entry_under(e: (PathV, EntryV), h: Seq<char>) -> (PathV, EntryV) {
    (seq![h] + e.0, e.1)
}

proof fn lemma_under_order(h: Seq<char>, a: PathV, b: PathV)
    ensures
        path_lt(seq![h] + a, seq![h] + b) == path_lt(a, b),
        (seq![h] + a == seq![h] + b) == (a == b),
{
    assert((seq![h] + a).drop_first() =~= a);
    assert((seq![h] + b).drop_first() =~= b);
}

impl Patch {
    /// The same patch with every path placed under the hive's root key.
    pub fn under_hive(&self, hive: Hive) -> (r: Patch)
        ensures
            r@ == under(self@, hive_name(hive)),
    {
        proof {
            use_type_invariant(self);
        }
        let ghost h = hive_name(hive);
        let ghost ev = entries_view(self.entries@);
        let ghost f = |e: (PathV, EntryV)| entry_under(e, h);
        let mut out: Vec<(KeyPath, PatchEntry)> = Vec::new();
        let mut i: usize = 0;
        assert(entries_view(out@) =~= ev.subrange(0, 0).map_values(f));
        while i < self.entries.len()
            invariant
                ev == entries_view(self.entries@),
                h == hive_name(hive),
                f == (|e: (PathV, EntryV)| entry_under(e, h)),
                i <= ev.len(),
                entries_view(out@) == ev.subrange(0, i as int).map_values(f),
            decreases self.entries.len() - i,
        {
            let ghost before = entries_view(out@);
            let path = hive.prefix(&self.entries[i].0);
            let entry = self.entries[i].1.clone();
            let ghost item = (path@, entry@);
            out.push((path, entry));
            assert(item == f(ev[i as int]));
            assert(entries_view(out@) =~= before.push(item));
            assert(ev.subrange(0, i + 1).map_values(f) =~= ev.subrange(0, i as int).map_values(f).push(f(ev[i as int])));
            i = i + 1;
        }
        proof {
            assert(ev.subrange(0, i as int) =~= ev);
            let t = entries_view(out@);
            assert forall|a: int, b: int| 0 <= a < b < t.len() implies path_lt(#[trigger] t[a].0, #[trigger] t[b].0) by {
                lemma_under_order(h, ev[a].0, ev[b].0);
            }
            assert forall|a: int, b: int| 0 <= a < t.len() && 0 <= b < t.len() && #[trigger] t[a].0 == #[trigger] t[b].0 implies a == b by {
                lemma_under_order(h, ev[a].0, ev[b].0);
            }
            lemma_to_map(ev);
            lemma_to_map(t);
            assert forall|q: PathV| #[trigger] to_map(t).contains_key(q) <==> under(self@, h).contains_key(q) by {
                if has_key(t, q) {
                    let a = choose|a: int| 0 <= a < t.len() && #[trigger] t[a].0 == q;
                    assert(q.drop_first() =~= ev[a].0);
                    assert(has_key(ev, ev[a].0));
                }
                if under(self@, h).contains_key(q) {
                    let a = choose|a: int| 0 <= a < ev.len() && #[trigger] ev[a].0 == q.drop_first();
                    assert(t[a].0 =~= q);
                }
            }
            assert forall|q: PathV| #[trigger] to_map(t).contains_key(q) implies to_map(t)[q] == under(self@, h)[q] by {
                let a = choose|a: int| 0 <= a < t.len() && #[trigger] t[a].0 == q;
                assert(q.drop_first() =~= ev[a].0);
                assert(to_map(t)[t[a].0] == t[a].1);
                assert(to_map(ev)[ev[a].0] == ev[a].1);
            }
            assert(to_map(t) =~= under(self@, h));
        }
        Patch::from_entries(out)
    }
}

/// Compares two snapshots, either of which may have failed to load. A missing
/// snapshot aborts the comparison: the patch is then empty, not a list of additions.
pub fn diff_snapshots(old: Option<&Registry>, new: Option<&Registry>) -> (r: Patch)
    ensures
        (old is None || new is None) ==> r@ == Map::<PathV, EntryV>::empty(),
        old is Some && new is Some ==> r@ == patch_spec(snapshot(old->0@), snapshot(new->0@)),
{
    match (old, new) {
        (Some(o), Some(n)) => Registry::diff(o, n),
        _ => Patch::new(),
    }
}

} // verus!
