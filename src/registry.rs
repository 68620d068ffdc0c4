//! Registry keys and the tree of keys built from a flat snapshot.
use vstd::prelude::*;
use crate::pairs::{
    has_key, lemma_has_key_push, lemma_to_map, lemma_to_map_insert, lemma_to_map_last, lemma_to_map_push,
    lemma_to_map_update, to_map, unique_keys,
};
use crate::path::{is_prefix, KeyPath, PathV};
use crate::value::{lemma_name_order, name_lt, strings_view, DataV, NameV, Value, ValueName, ValueV};

verus! {

/// The values of a key as a map from name to payload.
pub type ValuesV = Map<NameV, DataV>;

/// Mathematical form of a key: its path and its values, in order.
pub type KeyV = (PathV, Seq<ValueV>);

/// The views of a list of values.
pub open spec fn values_view(v: Seq<Value>) -> Seq<ValueV> {
    v.map_values(|x: Value| x@)
}

/// The supported registry hives (root keys).
#[derive(Clone, Copy, Debug, PartialEq, Eq)]
pub enum Hive {
    /// The HKEY_LOCAL_MACHINE hive.
    LocalMachine,
    /// The HKEY_CURRENT_USER hive.
    CurrentUser,
}

/// The name of a hive's root key.
pub open spec fn hive_name(h: Hive) -> Seq<char> {
    match h {
        Hive::LocalMachine => "HKEY_LOCAL_MACHINE"@,
        Hive::CurrentUser => "HKEY_CURRENT_USER"@,
    }
}

impl Hive {
    /// The name of the hive's root key.
    pub fn to_string(&self) -> (r: String)
        ensures
            r@ == hive_name(*self),
    {
        match self {
            Hive::LocalMachine => String::from_str("HKEY_LOCAL_MACHINE"),
            Hive::CurrentUser => String::from_str("HKEY_CURRENT_USER"),
        }
    }

    /// `path` placed under the hive's root key.
    pub fn prefix(&self, path: &KeyPath) -> (r: KeyPath)
        ensures
            r@ == seq![hive_name(*self)] + path@,
    {
        let mut segments: Vec<String> = Vec::new();
        segments.push(self.to_string());
        let tail = path.segments();
        let mut i: usize = 0;
        while i < tail.len()
            invariant
                i <= tail@.len(),
                strings_view(tail@) == path@,
                strings_view(segments@) == seq![hive_name(*self)] + path@.subrange(0, i as int),
            decreases tail.len() - i,
        {
            let ghost before = strings_view(segments@);
            segments.push(tail[i].clone());
            assert(strings_view(segments@) =~= before.push(path@[i as int]));
            assert(path@.subrange(0, i + 1) =~= path@.subrange(0, i as int).push(path@[i as int]));
            i = i + 1;
        }
        assert(path@.subrange(0, i as int) =~= path@);
        KeyPath::new(segments)
    }
}

/// A key of a registry: its full path and its values, no two with the same name.
#[derive(Debug, PartialEq, Eq)]
pub struct Key {
    name: KeyPath,
    values: Vec<Value>,
}

impl View for Key {
    type V = KeyV;

    closed spec fn view(&self) -> KeyV {
        (self.name@, values_view(self.values@))
    }
}

fn find_value(vs: &Vec<Value>, name: &ValueName) -> (r: Option<usize>)
    ensures
        r matches Some(j) ==> j < vs@.len() && vs@[j as int]@.0 == name@,
        r is None ==> !has_key(values_view(vs@), name@),
{
    let mut i: usize = 0;
    while i < vs.len()
        invariant
            i <= vs@.len(),
            forall|j: int| 0 <= j < i ==> vs@[j]@.0 != name@,
        decreases vs.len() - i,
    {
        if vs[i].name().same_as(name) {
            return Some(i);
        }
        i = i + 1;
    }
    assert forall|j: int| 0 <= j < values_view(vs@).len() implies #[trigger] values_view(vs@)[j].0 != name@ by {
        assert(vs@[j]@.0 != name@);
    }
    None
}

/// The names of the values strictly increase in the order of `name_lt`.
pub open spec fn sorted_by_name(s: Seq<ValueV>) -> bool {
    forall|i: int, j: int| 0 <= i < j < s.len() ==> name_lt(#[trigger] s[i].0, #[trigger] s[j].0)
}

/// Inserts a value of a new name at its place in name order.
fn insert_value_sorted(out: &mut Vec<Value>, v: Value)
    requires
        sorted_by_name(values_view(old(out)@)),
        unique_keys(values_view(old(out)@)),
        !has_key(values_view(old(out)@), v@.0),
    ensures
        sorted_by_name(values_view(final(out)@)),
        unique_keys(values_view(final(out)@)),
        to_map(values_view(final(out)@)) == to_map(values_view(old(out)@)).insert(v@.0, v@.1),
{
    let ghost ev = values_view(out@);
    let ghost x = v@;
    let mut pos: usize = 0;
    while pos < out.len()
        invariant
            ev == values_view(out@),
            x == v@,
            pos <= ev.len(),
            forall|i: int| 0 <= i < pos ==> name_lt(#[trigger] ev[i].0, x.0),
        ensures
            pos <= ev.len(),
            forall|i: int| 0 <= i < pos ==> name_lt(#[trigger] ev[i].0, x.0),
            pos == ev.len() || !name_lt(ev[pos as int].0, x.0),
        decreases out.len() - pos,
    {
        assert(ev[pos as int] == out@[pos as int]@);
        if !out[pos].name().less_than(v.name()) {
            break;
        }
        pos = pos + 1;
    }
    proof {
        lemma_to_map_insert(ev, pos as int, x.0, x.1);
        if pos < ev.len() {
            assert(ev[pos as int].0 != x.0) by {
                assert(has_key(ev, ev[pos as int].0));
            }
            lemma_name_order(x.0, ev[pos as int].0, x.0);
            lemma_name_order(ev[pos as int].0, x.0, x.0);
        }
        let t = ev.insert(pos as int, x);
        assert forall|i: int, j: int| 0 <= i < j < t.len() implies name_lt(#[trigger] t[i].0, #[trigger] t[j].0) by {
            if i < pos && j < pos {
                assert(t[i] == ev[i] && t[j] == ev[j]);
            } else if i < pos && j == pos {
                assert(t[i] == ev[i]);
            } else if i < pos {
                assert(t[i] == ev[i] && t[j] == ev[j - 1]);
                lemma_name_order(ev[i].0, x.0, ev[j - 1].0);
                if j - 1 > pos {
                    lemma_name_order(x.0, ev[pos as int].0, ev[j - 1].0);
                }
            } else if i == pos {
                assert(t[j] == ev[j - 1]);
                if j - 1 > pos {
                    lemma_name_order(x.0, ev[pos as int].0, ev[j - 1].0);
                }
            } else {
                assert(t[i] == ev[i - 1] && t[j] == ev[j - 1]);
            }
        }
    }
    out.insert(pos, v);
    assert(values_view(out@) =~= ev.insert(pos as int, x));
}

impl Key {
    #[verifier::type_invariant]
    spec fn inv(self) -> bool {
        &&& unique_keys(values_view(self.values@))
        &&& sorted_by_name(values_view(self.values@))
    }

    /// A key at `name` holding `values`, ordered by name. Where two values share a
    /// name, the later one is kept.
    pub fn new(name: KeyPath, values: Vec<Value>) -> (r: Key)
        ensures
            r@.0 == name@,
            to_map(r@.1) == to_map(values_view(values@)),
            unique_keys(r@.1),
            sorted_by_name(r@.1),
    {
        let mut out: Vec<Value> = Vec::new();
        let mut i: usize = 0;
        assert(values_view(out@) =~= Seq::<ValueV>::empty());
        assert(values_view(values@).subrange(0, 0) =~= Seq::<ValueV>::empty());
        while i < values.len()
            invariant
                i <= values@.len(),
                unique_keys(values_view(out@)),
                sorted_by_name(values_view(out@)),
                to_map(values_view(out@)) == to_map(values_view(values@).subrange(0, i as int)),
            decreases values.len() - i,
        {
            let v = values[i].clone();
            let ghost before = values_view(out@);
            let ghost vv = v@;
            assert(values_view(values@).subrange(0, i + 1).drop_last() =~= values_view(values@).subrange(0, i as int));
            assert(values_view(values@).subrange(0, i + 1).last() == vv);
            match find_value(&out, v.name()) {
                Some(j) => {
                    out.set(j, v);
                    proof {
                        lemma_to_map_update(before, j as int, vv.1);
                        assert(values_view(out@) =~= before.update(j as int, (before[j as int].0, vv.1)));
                    }
                },
                None => {
                    insert_value_sorted(&mut out, v);
                    proof {
                        lemma_to_map_push(values_view(values@).subrange(0, i as int), vv.0, vv.1);
                    }
                },
            }
            i = i + 1;
        }
        assert(values_view(values@).subrange(0, i as int) =~= values_view(values@));
        Key { name, values: out }
    }

    /// The key's full path.
    pub fn name(&self) -> (r: &KeyPath)
        ensures
            r@ == self@.0,
    {
        &self.name
    }

    /// The key's values, no two with the same name, ordered by name.
    pub fn values(&self) -> (r: &Vec<Value>)
        ensures
            values_view(r@) == self@.1,
            unique_keys(self@.1),
            sorted_by_name(self@.1),
    {
        proof {
            use_type_invariant(self);
        }
        &self.values
    }

    /// The value named `name`, if the key has one.
    pub fn value(&self, name: &ValueName) -> (r: Option<&Value>)
        ensures
            r is Some <==> to_map(self@.1).contains_key(name@),
            r matches Some(v) ==> v@.0 == name@ && v@.1 == to_map(self@.1)[name@],
    {
        proof {
            use_type_invariant(self);
            lemma_to_map(self@.1);
        }
        match find_value(&self.values, name) {
            Some(j) => {
                assert(self@.1[j as int].0 == name@);
                Some(&self.values[j])
            },
            None => None,
        }
    }

    /// The key split into its path and its values.
    pub fn into_parts(self) -> (r: (KeyPath, Vec<Value>))
        ensures
            r.0@ == self@.0,
            values_view(r.1@) == self@.1,
    {
        (self.name, self.values)
    }
}

/// A copy of a list of values.
pub(crate) fn clone_values(v: &Vec<Value>) -> (r: Vec<Value>)
    ensures
        values_view(r@) == values_view(v@),
{
    let mut out: Vec<Value> = Vec::new();
    let mut i: usize = 0;
    while i < v.len()
        invariant
            i <= v@.len(),
            out@.len() == i,
            forall|j: int| 0 <= j < i ==> out@[j]@ == v@[j]@,
        decreases v.len() - i,
    {
        out.push(v[i].clone());
        i = i + 1;
    }
    assert(values_view(out@) =~= values_view(v@));
    out
}

impl Clone for Key {
    fn clone(&self) -> (r: Self)
        ensures
            r@ == self@,
    {
        proof {
            use_type_invariant(self);
        }
        Key { name: self.name.clone(), values: clone_values(&self.values) }
    }
}

/// The views of a list of keys.
pub open spec fn keys_view(v: Seq<Key>) -> Seq<KeyV> {
    v.map_values(|k: Key| k@)
}

/// Each key's path paired with its values as a map.
pub open spec fn paths_map(keys: Seq<KeyV>) -> Seq<(PathV, ValuesV)> {
    keys.map_values(|k: KeyV| (k.0, to_map(k.1)))
}

/// The snapshot that a list of keys denotes: each path mapped to its values, a later
/// key of the same path replacing an earlier one.
pub open spec fn snapshot(keys: Seq<KeyV>) -> Map<PathV, ValuesV> {
    to_map(paths_map(keys))
}

/// The values that a snapshot gives `p`: none if `p` is not in it.
pub open spec fn values_at(keys: Seq<KeyV>, p: PathV) -> ValuesV {
    if snapshot(keys).contains_key(p) {
        snapshot(keys)[p]
    } else {
        Map::empty()
    }
}

/// `p` is the root or a prefix of the path of one of the first `n` keys.
pub open spec fn covered(keys: Seq<KeyV>, n: int, p: PathV) -> bool {
    p.len() == 0 || exists|k: int| 0 <= k < n && is_prefix(p, #[trigger] keys[k].0)
}

/// The tree that a snapshot denotes: every prefix of every path is a key (the root
/// too); a key holds the snapshot's values for its path, or none if the snapshot
/// does not name it.
pub open spec fn closure_tree(keys: Seq<KeyV>) -> Map<PathV, ValuesV> {
    Map::new(|p: PathV| covered(keys, keys.len() as int, p), |p: PathV| values_at(keys, p))
}

/// A list of keys forms a tree: no path twice, the root is there, the parent of every
/// other key is there, and no key has two values of the same name.
pub open spec fn is_tree(keys: Seq<KeyV>) -> bool {
    &&& unique_keys(keys)
    &&& has_key(keys, Seq::empty())
    &&& forall|i: int| 0 <= i < keys.len() && keys[i].0.len() > 0 ==> has_key(keys, #[trigger] keys[i].0.drop_last())
    &&& forall|i: int| 0 <= i < keys.len() ==> unique_keys(#[trigger] keys[i].1)
}

/// The snapshot of a list of keys has the paths of the list, and, where no path occurs
/// twice, each key's own values.
pub proof fn lemma_snapshot(keys: Seq<KeyV>)
    ensures
        forall|p: PathV| #[trigger] snapshot(keys).contains_key(p) <==> has_key(keys, p),
        unique_keys(keys) ==> unique_keys(paths_map(keys)),
        unique_keys(keys) ==> forall|i: int| 0 <= i < keys.len() ==> #[trigger] snapshot(keys)[keys[i].0] == to_map(keys[i].1),
{
    let m = paths_map(keys);
    lemma_to_map(m);
    assert forall|p: PathV| has_key(m, p) <==> has_key(keys, p) by {
        if has_key(m, p) {
            let i = choose|i: int| 0 <= i < m.len() && #[trigger] m[i].0 == p;
            assert(keys[i].0 == p);
        }
        if has_key(keys, p) {
            let i = choose|i: int| 0 <= i < keys.len() && #[trigger] keys[i].0 == p;
            assert(m[i].0 == p);
        }
    }
    if unique_keys(keys) {
        assert forall|i: int, j: int| 0 <= i < m.len() && 0 <= j < m.len() && #[trigger] m[i].0 == #[trigger] m[j].0 implies i == j by {
            assert(keys[i].0 == keys[j].0);
        }
        assert forall|i: int| 0 <= i < keys.len() implies #[trigger] snapshot(keys)[keys[i].0] == to_map(keys[i].1) by {
            assert(m[i].0 == keys[i].0);
        }
    }
}

fn find_key(keys: &Vec<Key>, path: &KeyPath) -> (r: Option<usize>)
    ensures
        r matches Some(j) ==> j < keys@.len() && keys@[j as int]@.0 == path@,
        r is None ==> !has_key(keys_view(keys@), path@),
{
    let mut i: usize = 0;
    while i < keys.len()
        invariant
            i <= keys@.len(),
            forall|j: int| 0 <= j < i ==> keys@[j]@.0 != path@,
        decreases keys.len() - i,
    {
        if keys[i].name().same_as(path) {
            return Some(i);
        }
        i = i + 1;
    }
    assert forall|j: int| 0 <= j < keys_view(keys@).len() implies #[trigger] keys_view(keys@)[j].0 != path@ by {
        assert(keys@[j]@.0 != path@);
    }
    None
}

/// The key at `path` with the values that `snapshot` gives it.
fn make_key(snapshot_keys: &Vec<Key>, path: KeyPath) -> (r: Key)
    ensures
        r@.0 == path@,
        to_map(r@.1) == values_at(keys_view(snapshot_keys@), path@),
        unique_keys(r@.1),
{
    let ghost input = keys_view(snapshot_keys@);
    proof {
        lemma_snapshot(input);
    }
    let mut i: usize = snapshot_keys.len();
    while i > 0
        invariant
            i <= snapshot_keys@.len(),
            input == keys_view(snapshot_keys@),
            forall|m: int| i <= m < input.len() ==> #[trigger] input[m].0 != path@,
        decreases i,
    {
        if snapshot_keys[i - 1].name().same_as(&path) {
            let j = i - 1;
            let r = snapshot_keys[j].clone();
            proof {
                let pm = paths_map(input);
                assert forall|m: int| j < m < pm.len() implies #[trigger] pm[m].0 != pm[j as int].0 by {
                    assert(pm[m].0 == input[m].0);
                }
                lemma_to_map_last(pm, j as int);
                assert(pm[j as int] == (path@, to_map(input[j as int].1)));
                use_type_invariant(&r);
            }
            return r;
        }
        i = i - 1;
    }
    proof {
        assert(!has_key(input, path@)) by {
            if has_key(input, path@) {
                let m = choose|m: int| 0 <= m < input.len() && #[trigger] input[m].0 == path@;
                assert(input[m].0 != path@);
            }
        }
    }
    let none: Vec<Value> = Vec::new();
    proof {
        assert(values_view(none@) =~= Seq::<ValueV>::empty());
        assert(to_map(Seq::<ValueV>::empty()) =~= Map::<NameV, DataV>::empty());
    }
    Key::new(path, none)
}

/// A registry: a tree of keys built from a flat snapshot. A key's parent is the key
/// whose path is its own without the last segment.
pub struct Registry {
    keys: Vec<Key>,
}

impl View for Registry {
    type V = Seq<KeyV>;

    closed spec fn view(&self) -> Seq<KeyV> {
        keys_view(self.keys@)
    }
}

impl Registry {
    #[verifier::type_invariant]
    spec fn inv(self) -> bool {
        is_tree(keys_view(self.keys@))
    }
}

/// The paths of a list of keys, in order.
pub open spec fn paths_of(keys: Seq<KeyV>) -> Seq<PathV> {
    keys.map_values(|k: KeyV| k.0)
}

/// `acc` extended by the prefixes of `p` of lengths 1 to `l`, shortest first, each one
/// that `acc` does not hold yet.
pub open spec fn add_prefixes(acc: Seq<PathV>, p: PathV, l: nat) -> Seq<PathV>
    decreases l,
{
    if l == 0 {
        acc
    } else {
        let a = add_prefixes(acc, p, (l - 1) as nat);
        let q = p.subrange(0, l as int);
        if a.contains(q) {
            a
        } else {
            a.push(q)
        }
    }
}

/// The paths of the tree that a snapshot denotes, in the order in which they are first
/// implied: the root, then for each path of the snapshot in turn its new prefixes,
/// shortest first.
pub open spec fn creation_order(keys: Seq<KeyV>) -> Seq<PathV>
    decreases keys.len(),
{
    if keys.len() == 0 {
        seq![Seq::empty()]
    } else {
        add_prefixes(creation_order(keys.drop_last()), keys.last().0, keys.last().0.len())
    }
}

proof fn lemma_paths_of_contains(kv: Seq<KeyV>, q: PathV)
    ensures
        paths_of(kv).contains(q) <==> has_key(kv, q),
{
    if has_key(kv, q) {
        let j = choose|j: int| 0 <= j < kv.len() && #[trigger] kv[j].0 == q;
        assert(paths_of(kv)[j] == q);
    }
    if paths_of(kv).contains(q) {
        let j = choose|j: int| 0 <= j < paths_of(kv).len() && paths_of(kv)[j] == q;
        assert(kv[j].0 == q);
    }
}

proof fn lemma_tree_push(kv: Seq<KeyV>, k: KeyV)
    requires
        is_tree(kv),
        !has_key(kv, k.0),
        k.0.len() > 0 ==> has_key(kv, k.0.drop_last()),
        unique_keys(k.1),
    ensures
        is_tree(kv.push(k)),
        forall|p: PathV| #[trigger] has_key(kv.push(k), p) <==> has_key(kv, p) || p == k.0,
{
    let t = kv.push(k);
    lemma_to_map_push(kv, k.0, k.1);
    assert forall|p: PathV| #[trigger] has_key(t, p) <==> has_key(kv, p) || p == k.0 by {
        lemma_has_key_push(kv, k, p);
    }
    assert(has_key(t, Seq::empty()));
    assert forall|i: int| 0 <= i < t.len() && t[i].0.len() > 0 implies has_key(t, #[trigger] t[i].0.drop_last()) by {
        if i < kv.len() {
            assert(t[i] == kv[i]);
            assert(has_key(kv, kv[i].0.drop_last()));
        }
        assert(has_key(t, t[i].0.drop_last()));
    }
    assert forall|i: int| 0 <= i < t.len() implies unique_keys(#[trigger] t[i].1) by {
        if i < kv.len() {
            assert(t[i] == kv[i]);
        }
    }
}

impl Registry {
    /// Builds the tree of a flat snapshot. Every prefix of every path becomes a key,
    /// the root too, each built once, in the order in which the snapshot first implies
    /// it. A key that the snapshot names holds its values (where a path is named twice,
    /// the later one); one that it only implies holds none.
    pub fn from_keys(snapshot_keys: Vec<Key>) -> (r: Registry)
        ensures
            snapshot(r@) == closure_tree(keys_view(snapshot_keys@)),
            is_tree(r@),
            paths_of(r@) == creation_order(keys_view(snapshot_keys@)),
    {
        let ghost input = keys_view(snapshot_keys@);
        let mut keys: Vec<Key> = Vec::new();
        let root = make_key(&snapshot_keys, KeyPath::root());
        keys.push(root);
        proof {
            let kv = keys_view(keys@);
            assert(kv =~= seq![root@]);
            assert(kv[0].0 == Seq::<Seq<char>>::empty());
            assert(has_key(kv, Seq::empty()));
            assert(input.subrange(0, 0) =~= Seq::<KeyV>::empty());
            assert(paths_of(kv) =~= creation_order(input.subrange(0, 0)));
            assert forall|p: PathV| #[trigger] has_key(kv, p) <==> covered(input, 0, p) by {
                if has_key(kv, p) {
                    let j = choose|j: int| 0 <= j < kv.len() && #[trigger] kv[j].0 == p;
                    assert(j == 0);
                }
                if p.len() == 0 {
                    assert(p =~= Seq::<Seq<char>>::empty());
                }
            }
        }
        let mut i: usize = 0;
        while i < snapshot_keys.len()
            invariant
                input == keys_view(snapshot_keys@),
                i <= input.len(),
                is_tree(keys_view(keys@)),
                forall|p: PathV| #[trigger] has_key(keys_view(keys@), p) <==> covered(input, i as int, p),
                forall|j: int| 0 <= j < keys@.len() ==> to_map(#[trigger] keys_view(keys@)[j].1) == values_at(input, keys_view(keys@)[j].0),
                paths_of(keys_view(keys@)) == creation_order(input.subrange(0, i as int)),
            decreases snapshot_keys.len() - i,
        {
            let path = snapshot_keys[i].name();
            let n = path.len();
            let mut l: usize = 0;
            while l < n
                invariant
                    input == keys_view(snapshot_keys@),
                    i < input.len(),
                    path@ == input[i as int].0,
                    n == path@.len(),
                    l <= n,
                    is_tree(keys_view(keys@)),
                    forall|p: PathV| #[trigger] has_key(keys_view(keys@), p) <==> covered(input, i as int, p) || (is_prefix(p, path@) && p.len() <= l),
                    forall|j: int| 0 <= j < keys@.len() ==> to_map(#[trigger] keys_view(keys@)[j].1) == values_at(input, keys_view(keys@)[j].0),
                    paths_of(keys_view(keys@)) == add_prefixes(creation_order(input.subrange(0, i as int)), path@, l as nat),
                decreases n - l,
            {
                let q = path.prefix(l + 1);
                let ghost kv = keys_view(keys@);
                proof {
                    lemma_paths_of_contains(kv, q@);
                    assert(is_prefix(q@, path@));
                    assert forall|p: PathV| is_prefix(p, path@) && p.len() <= l + 1 <==> (is_prefix(p, path@) && p.len() <= l) || p == q@ by {
                        if is_prefix(p, path@) && p.len() == l + 1 {
                            assert(p =~= q@);
                        }
                    }
                }
                match find_key(&keys, &q) {
                    Some(j) => {
                        proof {
                            assert(kv[j as int].0 == q@);
                            assert(has_key(kv, q@));
                        }
                    },
                    None => {
                        proof {
                            assert(q@.drop_last() =~= path@.subrange(0, l as int));
                            assert(is_prefix(q@.drop_last(), path@));
                            assert(has_key(kv, q@.drop_last()));
                        }
                        let k = make_key(&snapshot_keys, q);
                        keys.push(k);
                        proof {
                            assert(keys_view(keys@) =~= kv.push(k@));
                            assert(paths_of(kv.push(k@)) =~= paths_of(kv).push(q@));
                            lemma_tree_push(kv, k@);
                            assert forall|j: int| 0 <= j < keys@.len() implies to_map(#[trigger] keys_view(keys@)[j].1) == values_at(input, keys_view(keys@)[j].0) by {
                                if j < kv.len() {
                                    assert(keys_view(keys@)[j] == kv[j]);
                                }
                            }
                        }
                    },
                }
                l = l + 1;
            }
            proof {
                let kv = keys_view(keys@);
                let sub = input.subrange(0, i + 1);
                assert(sub.drop_last() =~= input.subrange(0, i as int));
                assert(sub.last() == input[i as int]);
                assert forall|p: PathV| #[trigger] has_key(kv, p) <==> covered(input, i + 1, p) by {
                    if covered(input, i + 1, p) && p.len() > 0 {
                        let k = choose|k: int| 0 <= k < i + 1 && is_prefix(p, #[trigger] input[k].0);
                        if k < i {
                            assert(covered(input, i as int, p));
                        }
                    }
                    if covered(input, i as int, p) && p.len() > 0 {
                        let k = choose|k: int| 0 <= k < i && is_prefix(p, #[trigger] input[k].0);
                        assert(covered(input, i + 1, p));
                    }
                    if is_prefix(p, path@) {
                        assert(is_prefix(p, input[i as int].0));
                        assert(covered(input, i + 1, p));
                    }
                }
            }
            i = i + 1;
        }
        proof {
            let kv = keys_view(keys@);
            assert(input.subrange(0, i as int) =~= input);
            lemma_snapshot(kv);
            assert forall|p: PathV| #[trigger] snapshot(kv).contains_key(p) implies snapshot(kv)[p] == values_at(input, p) by {
                let j = choose|j: int| 0 <= j < kv.len() && #[trigger] kv[j].0 == p;
                assert(snapshot(kv)[kv[j].0] == to_map(kv[j].1));
            }
            assert(snapshot(kv) =~= closure_tree(input));
        }
        Registry { keys }
    }
}

impl Registry {
    /// All keys of the tree, each path once, in the order in which the tree was built
    /// (`creation_order` of the snapshot).
    pub fn keys(&self) -> (r: &Vec<Key>)
        ensures
            keys_view(r@) == self@,
            is_tree(self@),
    {
        proof {
            use_type_invariant(self);
        }
        &self.keys
    }

    /// The key at path `name`, if the tree has one.
    pub fn key(&self, name: &KeyPath) -> (r: Option<&Key>)
        ensures
            r is Some <==> snapshot(self@).contains_key(name@),
            r matches Some(k) ==> k@.0 == name@ && to_map(k@.1) == snapshot(self@)[name@],
    {
        proof {
            use_type_invariant(self);
            lemma_snapshot(self@);
        }
        match find_key(&self.keys, name) {
            Some(j) => {
                assert(self@[j as int].0 == name@);
                Some(&self.keys[j])
            },
            None => None,
        }
    }

    /// The parent of the key at path `name`: the key at its path without the last
    /// segment. `None` for the root, and for a path that the tree lacks.
    pub fn parent(&self, name: &KeyPath) -> (r: Option<&Key>)
        ensures
            r is Some <==> snapshot(self@).contains_key(name@) && name@.len() > 0,
            r matches Some(k) ==> k@.0 == name@.drop_last() && to_map(k@.1) == snapshot(self@)[name@.drop_last()],
    {
        proof {
            use_type_invariant(self);
            lemma_tree_closed(self@);
        }
        if self.key(name).is_none() {
            return None;
        }
        match name.parent() {
            Some(p) => self.key(&p),
            None => None,
        }
    }
}

/// In a tree, the parent of every key but the root is a key too.
pub proof fn lemma_tree_closed(keys: Seq<KeyV>)
    requires
        is_tree(keys),
    ensures
        snapshot(keys).contains_key(Seq::empty()),
        forall|p: PathV| #[trigger] snapshot(keys).contains_key(p) && p.len() > 0 ==> snapshot(keys).contains_key(p.drop_last()),
{
    lemma_snapshot(keys);
    assert forall|p: PathV| #[trigger] snapshot(keys).contains_key(p) && p.len() > 0 implies snapshot(keys).contains_key(p.drop_last()) by {
        let i = choose|i: int| 0 <= i < keys.len() && #[trigger] keys[i].0 == p;
        assert(has_key(keys, keys[i].0.drop_last()));
    }
}

/// The keys of the list whose parent is `p`, in the list's order.
pub open spec fn children_of(keys: Seq<KeyV>, p: PathV) -> Seq<KeyV>
    decreases keys.len(),
{
    if keys.len() == 0 {
        Seq::empty()
    } else {
        let r = children_of(keys.drop_last(), p);
        if keys.last().0.len() > 0 && keys.last().0.drop_last() == p {
            r.push(keys.last())
        } else {
            r
        }
    }
}

/// The views of a list of key references.
pub open spec fn refs_view(v: Seq<&Key>) -> Seq<KeyV> {
    v.map_values(|k: &Key| k@)
}

impl Registry {
    /// The children of the key at path `name`: the keys one segment below it, in the
    /// order in which the tree was built.
    pub fn children(&self, name: &KeyPath) -> (r: Vec<&Key>)
        ensures
            refs_view(r@) == children_of(self@, name@),
    {
        let mut out: Vec<&Key> = Vec::new();
        let mut i: usize = 0;
        assert(refs_view(out@) =~= Seq::<KeyV>::empty());
        assert(self@.subrange(0, 0) =~= Seq::<KeyV>::empty());
        while i < self.keys.len()
            invariant
                i <= self.keys@.len(),
                self@ == keys_view(self.keys@),
                refs_view(out@) == children_of(self@.subrange(0, i as int), name@),
            decreases self.keys.len() - i,
        {
            let k = &self.keys[i];
            let ghost sub = self@.subrange(0, i + 1);
            assert(sub.drop_last() =~= self@.subrange(0, i as int));
            assert(sub.last() == k@);
            let is_child = match k.name().parent() {
                Some(p) => p.same_as(name),
                None => false,
            };
            if is_child {
                let ghost before = refs_view(out@);
                out.push(k);
                assert(refs_view(out@) =~= before.push(k@));
            }
            i = i + 1;
        }
        assert(self@.subrange(0, i as int) =~= self@);
        out
    }
}

} // verus!
