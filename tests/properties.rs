use std::collections::BTreeMap;

use regdiff::{
    combine, diff_snapshots, Data, Diff, Key, KeyPath, Operation, Patch, PatchEntry, Registry, Value, ValueName,
};

fn sz(s: &str) -> Data {
    Data::Sz(s.to_string())
}

fn val(name: &str, data: Data) -> Value {
    Value::new(ValueName::named(name.to_string()), data)
}

fn key(raw: &str, values: Vec<Value>) -> Key {
    Key::new(KeyPath::parse(raw), values)
}

fn entries(patch: &Patch) -> Vec<(String, PatchEntry)> {
    patch.entries().iter().map(|(p, e)| (p.to_raw(), clone_entry(e))).collect()
}

fn clone_entry(e: &PatchEntry) -> PatchEntry {
    match e {
        PatchEntry::Deleted => PatchEntry::Deleted,
        PatchEntry::Full(v) => PatchEntry::Full(v.clone()),
        PatchEntry::Partial(v) => PatchEntry::Partial(v.clone()),
    }
}

type Tree = BTreeMap<String, BTreeMap<String, Data>>;

fn name_key(n: &ValueName) -> String {
    match n {
        ValueName::Default => "@default".to_string(),
        ValueName::Named(s) => format!("n:{}", s),
    }
}

fn tree_of(r: &Registry) -> Tree {
    r.keys()
        .iter()
        .map(|k| {
            let values = k.values().iter().map(|v| (name_key(v.name()), v.value().clone())).collect();
            (k.name().to_raw(), values)
        })
        .collect()
}

fn is_at_or_below(a: &str, p: &str) -> bool {
    p == a || p.starts_with(&format!("{}\\", a)) || a.is_empty()
}

/// Applies a patch as a registry editor would: deletions remove whole subtrees, other
/// entries set values and remove those that carry the delete sentinel.
fn apply(tree: &Tree, patch: &Patch) -> Tree {
    let mut out = tree.clone();
    for (p, e) in entries(patch) {
        if e == PatchEntry::Deleted {
            out.retain(|k, _| !is_at_or_below(&p, k));
        }
    }
    for (p, e) in entries(patch) {
        let values = match e {
            PatchEntry::Deleted => continue,
            PatchEntry::Full(v) | PatchEntry::Partial(v) => v,
        };
        let slot = out.entry(p).or_default();
        for v in values {
            if *v.value() == Data::Delete {
                slot.remove(&name_key(v.name()));
            } else {
                slot.insert(name_key(v.name()), v.value().clone());
            }
        }
    }
    out
}

fn sample_old() -> Registry {
    Registry::from_keys(vec![
        key("A", vec![val("V1", sz("x"))]),
        key("B\\C\\D", vec![val("deep", Data::Dword(4))]),
        key("C", vec![val("V2", sz("z")), val("V3", sz("k"))]),
        key("S\\T", vec![val("t", Data::Binary(vec![1, 2, 3]))]),
        key("S\\U", vec![val("u", Data::MultiSz(vec!["p".to_string(), "q".to_string()]))]),
        key("E", vec![]),
    ])
}

fn sample_new() -> Registry {
    Registry::from_keys(vec![
        key("A", vec![val("V1", sz("y"))]),
        key("C", vec![val("V3", sz("k"))]),
        key("S\\T", vec![val("t", Data::Binary(vec![1, 2, 3]))]),
        key("S\\U", vec![val("u", Data::MultiSz(vec!["p".to_string(), "q".to_string()]))]),
        key("E\\F\\G", vec![val("g", Data::Qword(7))]),
        key("N", vec![Value::new(ValueName::Default, sz("d"))]),
    ])
}

#[test]
fn modified_value_gives_one_update() {
    let old = Registry::from_keys(vec![key("A", vec![val("V1", sz("x"))])]);
    let new = Registry::from_keys(vec![key("A", vec![val("V1", sz("y"))])]);
    let patch = Registry::diff(&old, &new);
    assert_eq!(entries(&patch), vec![("A".to_string(), PatchEntry::Partial(vec![val("V1", sz("y"))]))]);
}

#[test]
fn deleted_key_gives_one_delete() {
    let old = Registry::from_keys(vec![key("B\\C\\D", vec![]), key("B", vec![val("b", sz("1"))])]);
    let new = Registry::from_keys(vec![]);
    let patch = Registry::diff(&old, &new);
    assert_eq!(entries(&patch), vec![("B".to_string(), PatchEntry::Deleted)]);
}

#[test]
fn removed_value_is_a_delete_sentinel() {
    let old = Registry::from_keys(vec![key("C", vec![val("V2", sz("z"))])]);
    let new = Registry::from_keys(vec![key("C", vec![])]);
    let patch = Registry::diff(&old, &new);
    assert_eq!(entries(&patch), vec![("C".to_string(), PatchEntry::Partial(vec![val("V2", Data::Delete)]))]);
}

#[test]
fn missing_old_snapshot_gives_empty_patch() {
    let new = sample_new();
    assert!(diff_snapshots(None, Some(&new)).is_empty());
    let old = sample_old();
    assert!(diff_snapshots(Some(&old), None).is_empty());
    assert!(diff_snapshots(None, None).is_empty());
    assert_eq!(diff_snapshots(Some(&old), Some(&new)).len(), Registry::diff(&old, &new).len());
}

#[test]
fn diff_of_same_registry_is_empty() {
    let t = sample_old();
    assert!(Registry::diff(&t, &t).is_empty());
    let u = sample_new();
    assert_eq!(Registry::diff(&u, &u).len(), 0);
}

#[test]
fn applying_the_diff_gives_the_new_registry() {
    let old = sample_old();
    let new = sample_new();
    let patch = Registry::diff(&old, &new);
    assert_eq!(apply(&tree_of(&old), &patch), tree_of(&new));
    let back = Registry::diff(&new, &old);
    assert_eq!(apply(&tree_of(&new), &back), tree_of(&old));
}

#[test]
fn sample_patch_entries() {
    let patch = Registry::diff(&sample_old(), &sample_new());
    assert_eq!(
        entries(&patch),
        vec![
            ("A".to_string(), PatchEntry::Partial(vec![val("V1", sz("y"))])),
            ("B".to_string(), PatchEntry::Deleted),
            ("C".to_string(), PatchEntry::Partial(vec![val("V2", Data::Delete)])),
            ("E\\F".to_string(), PatchEntry::Full(vec![])),
            ("E\\F\\G".to_string(), PatchEntry::Full(vec![val("g", Data::Qword(7))])),
            ("N".to_string(), PatchEntry::Full(vec![Value::new(ValueName::Default, sz("d"))])),
        ]
    );
}

#[test]
fn every_added_or_removed_key_is_reported() {
    let old = sample_old();
    let new = sample_new();
    let patch = Registry::diff(&old, &new);
    for k in new.keys() {
        if old.key(k.name()).is_none() {
            assert_eq!(patch.get(k.name()), Some(&PatchEntry::Full(k.values().clone())));
        }
    }
    for k in old.keys() {
        if new.key(k.name()).is_none() {
            // Reported itself, or covered by the deletion of an ancestor.
            let covered = (0..=k.name().len()).any(|n| patch.get(&k.name().prefix(n)) == Some(&PatchEntry::Deleted));
            assert!(covered);
        }
    }
    assert_eq!(patch.get(&KeyPath::parse("B")), Some(&PatchEntry::Deleted));
    assert!(patch.get(&KeyPath::parse("B\\C")).is_none());
    assert!(patch.get(&KeyPath::parse("B\\C\\D")).is_none());
}

#[test]
fn unchanged_subtree_gives_no_entries() {
    let patch = Registry::diff(&sample_old(), &sample_new());
    for (p, _) in entries(&patch) {
        assert!(!is_at_or_below("S", &p));
    }
    assert!(patch.get(&KeyPath::parse("S")).is_none());
    assert!(patch.get(&KeyPath::parse("S\\T")).is_none());
}

#[test]
fn diff_is_local_to_unchanged_key() {
    let old_keys = vec![key("E", vec![val("e", sz("1"))]), key("E\\X", vec![val("x", sz("1"))]), key("Z", vec![])];
    let new_keys = vec![key("E", vec![val("e", sz("1"))]), key("E\\X", vec![val("x", sz("2"))]), key("E\\Y", vec![])];
    let whole = Registry::diff(&Registry::from_keys(old_keys), &Registry::from_keys(new_keys));
    let old_sub = Registry::from_keys(vec![key("E", vec![val("e", sz("1"))]), key("E\\X", vec![val("x", sz("1"))])]);
    let new_sub = Registry::from_keys(vec![key("E", vec![val("e", sz("1"))]), key("E\\X", vec![val("x", sz("2"))]), key("E\\Y", vec![])]);
    let isolated = Registry::diff(&old_sub, &new_sub);
    let below: Vec<(String, PatchEntry)> = entries(&whole).into_iter().filter(|(p, _)| is_at_or_below("E", p)).collect();
    assert_eq!(below, entries(&isolated));
    assert_eq!(below.len(), 2);
    assert!(whole.get(&KeyPath::parse("Z")).is_some());
}

#[test]
fn value_diff_classifies_each_case() {
    let a = val("n", sz("1"));
    let b = val("n", sz("2"));
    assert!(matches!(Value::diff(Some(&a), None), Operation::Delete { data } if data.same_as(&a)));
    assert!(matches!(Value::diff(None, Some(&b)), Operation::Add { data } if data.same_as(&b)));
    assert!(matches!(Value::diff(Some(&a), Some(&b)), Operation::Modify { old_data, new_data } if old_data.same_as(&a) && new_data.same_as(&b)));
    assert!(matches!(Value::diff(Some(&a), Some(&a.clone())), Operation::Unchanged));
    assert!(matches!(Value::diff(None, None), Operation::Unchanged));
}

#[test]
fn value_operation_fragments() {
    let a = val("n", sz("1"));
    let b = val("n", sz("2"));
    assert_eq!(Value::diff(Some(&a), None).to_value(), Some(val("n", Data::Delete)));
    assert_eq!(Value::diff(None, Some(&b)).to_value(), Some(b.clone()));
    assert_eq!(Value::diff(Some(&a), Some(&b)).to_value(), Some(b.clone()));
    assert_eq!(Value::diff(Some(&a), Some(&a)).to_value(), None);
}

#[test]
fn key_diff_merges_value_changes() {
    let o = key("K", vec![val("same", sz("s")), val("mod", sz("1")), val("gone", sz("g"))]);
    let n = key("K", vec![val("same", sz("s")), val("mod", sz("2")), val("added", Data::Dword(5))]);
    match Key::diff(Some(&o), Some(&n)) {
        Operation::Update { data: new_data } => {
            assert_eq!(new_data.name().to_raw(), "K");
            assert_eq!(
                new_data.values(),
                &vec![val("added", Data::Dword(5)), val("gone", Data::Delete), val("mod", sz("2"))]
            );
        },
        other => panic!("expected an update, got {:?}", other),
    }
    assert!(matches!(Key::diff(Some(&o), Some(&o.clone())), Operation::Unchanged));
    assert!(matches!(Key::diff(Some(&o), None), Operation::Delete { .. }));
    assert!(matches!(Key::diff(None, Some(&n)), Operation::Add { .. }));
    assert_eq!(Key::diff(Some(&o), None).to_entries(), vec![(KeyPath::parse("K"), PatchEntry::Deleted)]);
    assert_eq!(
        Key::diff(None, Some(&n)).to_entries(),
        vec![(KeyPath::parse("K"), PatchEntry::Full(n.values().clone()))]
    );
    assert!(Key::diff(Some(&o), Some(&o)).to_entries().is_empty());
    assert_eq!(o.clone().into_deleted_key(), (KeyPath::parse("K"), PatchEntry::Deleted));
}

#[test]
fn combine_pairs_old_order_then_new_only() {
    let old = vec![val("b", sz("1")), val("a", sz("2"))];
    let new = vec![val("c", sz("3")), val("a", sz("4")), val("d", sz("5"))];
    let pairs = combine(&old, &new);
    let names: Vec<(Option<String>, Option<String>)> = pairs
        .iter()
        .map(|(o, n)| (o.map(|v| format!("{:?}", v.value())), n.map(|v| format!("{:?}", v.value()))))
        .collect();
    assert_eq!(
        names,
        vec![
            (Some(format!("{:?}", sz("1"))), None),
            (Some(format!("{:?}", sz("2"))), Some(format!("{:?}", sz("4")))),
            (None, Some(format!("{:?}", sz("3")))),
            (None, Some(format!("{:?}", sz("5")))),
        ]
    );
    assert!(combine::<Value>(&vec![], &vec![]).is_empty());
}

#[test]
fn patch_lookup() {
    let patch = Registry::diff(&sample_old(), &sample_new());
    assert_eq!(patch.len(), 6);
    assert!(!patch.is_empty());
    assert!(patch.get(&KeyPath::parse("Nope")).is_none());
    assert!(Patch::new().is_empty());
    assert_eq!(Patch::new().len(), 0);
}

#[test]
fn patch_entries_come_in_path_order() {
    let old = Registry::from_keys(vec![key("Z", vec![val("v", sz("1"))]), key("M\\A", vec![])]);
    let new = Registry::from_keys(vec![
        key("Z", vec![val("v", sz("2"))]),
        key("M", vec![]),
        key("A B", vec![]),
        key("A\\X", vec![]),
    ]);
    let patch = Registry::diff(&old, &new);
    let names: Vec<String> = entries(&patch).into_iter().map(|(p, _)| p).collect();
    assert_eq!(names, vec!["A", "A\\X", "A B", "M\\A", "Z"]);
}

#[test]
fn path_order_is_by_segment_then_character() {
    assert!(KeyPath::parse("A").less_than(&KeyPath::parse("A\\X")));
    assert!(KeyPath::parse("A\\X").less_than(&KeyPath::parse("A B")));
    assert!(!KeyPath::parse("A B").less_than(&KeyPath::parse("A\\X")));
    assert!(KeyPath::root().less_than(&KeyPath::parse("A")));
    assert!(!KeyPath::parse("b").less_than(&KeyPath::parse("B")));
    assert!(KeyPath::parse("B").less_than(&KeyPath::parse("b")));
    assert!(!KeyPath::parse("Same").less_than(&KeyPath::parse("Same")));
    assert!(KeyPath::parse("\u{e9}").less_than(&KeyPath::parse("\u{1f600}")));
}

#[test]
fn keys_at_different_paths_are_replaced() {
    let o = key("Old", vec![val("v", sz("1"))]);
    let n = key("New", vec![val("v", sz("1"))]);
    match Key::diff(Some(&o), Some(&n)) {
        Operation::Modify { old_data, new_data } => {
            assert_eq!(old_data, o);
            assert_eq!(new_data, n);
        },
        other => panic!("expected a replacement, got {:?}", other),
    }
    assert_eq!(
        Key::diff(Some(&o), Some(&n)).to_entries(),
        vec![
            (KeyPath::parse("Old"), PatchEntry::Deleted),
            (KeyPath::parse("New"), PatchEntry::Full(vec![val("v", sz("1"))])),
        ]
    );
}

#[test]
fn update_fragment_is_the_value() {
    let a = val("n", sz("1"));
    assert_eq!(Operation::Update { data: &a }.to_value(), Some(a.clone()));
}
