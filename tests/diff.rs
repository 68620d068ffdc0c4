use regdiff::{Data, Diff, Hive, Key, KeyPath, Patch, PatchEntry, Registry, Value, ValueName};

fn sz(s: &str) -> Data {
    Data::Sz(s.to_string())
}

fn val(name: &str, data: Data) -> Value {
    Value::new(ValueName::named(name.to_string()), data)
}

fn path(hive: Hive, raw: &str) -> KeyPath {
    hive.prefix(&KeyPath::parse(raw))
}

fn key(raw: &str, values: Vec<Value>) -> Key {
    Key::new(KeyPath::parse(raw), values)
}

fn old_registry() -> Registry {
    Registry::from_keys(vec![
        key("TestKeyDelete", vec![val("Kept", sz("x"))]),
        key("TestKeyDelete\\Child", vec![val("Inner", Data::Dword(1))]),
        key("TestValueCreate", vec![val("Other", sz("x"))]),
        key("TestValueDelete", vec![val("DeleteValue", sz("gone")), val("Stay", sz("s"))]),
        key("TestValueUpdate", vec![val("TestValueUpdate", sz("old"))]),
        key("TestNoChange", vec![val("Same", sz("same"))]),
    ])
}

fn new_registry() -> Registry {
    Registry::from_keys(vec![
        key("TestKeyCreate", vec![val("Fresh", sz("f"))]),
        key("TestValueCreate", vec![val("Other", sz("x")), val("CreateValue", sz("new"))]),
        key("TestValueDelete", vec![val("Stay", sz("s"))]),
        key("TestValueUpdate", vec![val("TestValueUpdate", sz("new"))]),
        key("TestNoChange", vec![val("Same", sz("same"))]),
    ])
}

fn generate_diff(hive: Hive) -> Patch {
    let o_reg = old_registry();
    let n_reg = new_registry();
    Registry::diff(&o_reg, &n_reg).under_hive(hive)
}

fn entry_values(entry: &PatchEntry) -> &Vec<Value> {
    match entry {
        PatchEntry::Full(v) | PatchEntry::Partial(v) => v,
        PatchEntry::Deleted => panic!("no values in a deleted entry"),
    }
}

fn find<'a>(values: &'a [Value], name: &str) -> Option<&'a Value> {
    values.iter().find(|v| *v.name() == ValueName::named(name.to_string()))
}

#[test]
fn test_diff_delete_key() {
    let hive = Hive::LocalMachine;
    let diff = generate_diff(hive);

    let key = diff.get(&path(hive, "TestKeyDelete"));
    assert!(key.is_some());
    let key = key.unwrap();
    assert_eq!(key, &PatchEntry::Deleted);
    assert!(!matches!(key, PatchEntry::Full(_) | PatchEntry::Partial(_)));
}

#[test]
fn test_diff_create_key() {
    let hive = Hive::LocalMachine;
    let diff = generate_diff(hive);

    let key = diff.get(&path(hive, "TestKeyCreate"));
    assert!(key.is_some());
    let key = key.unwrap();
    assert!(matches!(key, PatchEntry::Full(_)));
}

#[test]
fn test_diff_value_create() {
    let hive = Hive::LocalMachine;
    let diff = generate_diff(hive);

    let key = diff.get(&path(hive, "TestValueCreate"));
    assert!(key.is_some());
    let key = key.unwrap();

    let value = find(entry_values(key), "CreateValue");
    assert!(value.is_some());

    let value = value.unwrap();
    assert_eq!(value.value(), &Data::Sz("new".to_string()));
}

#[test]
fn test_diff_value_delete() {
    let hive = Hive::LocalMachine;
    let diff = generate_diff(hive);

    let key = diff.get(&path(hive, "TestValueDelete"));
    assert!(key.is_some());
    let key = key.unwrap();

    let value = find(entry_values(key), "DeleteValue");
    assert!(value.is_some());

    let value = value.unwrap();
    assert_eq!(value.value(), &Data::Delete);
}

#[test]
fn test_diff_value_update() {
    let hive = Hive::LocalMachine;
    let diff = generate_diff(hive);

    let key = diff.get(&path(hive, "TestValueUpdate"));
    assert!(key.is_some());
    let key = key.unwrap();

    let value = find(entry_values(key), "TestValueUpdate");
    assert!(value.is_some());

    let value = value.unwrap();
    assert_eq!(value.value(), &Data::Sz("new".to_string()));
}

#[test]
fn test_diff_no_change() {
    let hive = Hive::LocalMachine;
    let diff = generate_diff(hive);

    let key = diff.get(&path(hive, "TestNoChange"));
    assert!(key.is_none());
}

#[test]
fn fixture_patch_has_exactly_the_expected_entries() {
    let hive = Hive::LocalMachine;
    let diff = generate_diff(hive);
    // TestKeyDelete (its child is covered), TestKeyCreate, three updated keys.
    assert_eq!(diff.len(), 5);
    assert!(diff.get(&path(hive, "TestKeyDelete\\Child")).is_none());
    let update = diff.get(&path(hive, "TestValueDelete")).unwrap();
    assert_eq!(entry_values(update).len(), 1);
}

#[test]
fn deleted_key_under_a_hive_is_deleted_itself() {
    let old = Registry::from_keys(vec![key("B", vec![]), key("B\\X", vec![])]);
    let new = Registry::from_keys(vec![]);
    let patch = Registry::diff(&old, &new).under_hive(Hive::LocalMachine);
    assert_eq!(patch.len(), 1);
    assert_eq!(patch.get(&path(Hive::LocalMachine, "B")), Some(&PatchEntry::Deleted));
    assert!(patch.get(&path(Hive::LocalMachine, "B\\X")).is_none());
    assert!(patch.get(&KeyPath::parse("HKEY_LOCAL_MACHINE")).is_none());
}

#[test]
fn patch_under_hive_keeps_entries_and_order() {
    let hive = Hive::CurrentUser;
    let plain = Registry::diff(&old_registry(), &new_registry());
    let placed = plain.under_hive(hive);
    assert_eq!(placed.len(), plain.len());
    let names: Vec<String> = placed.entries().iter().map(|(p, _)| p.to_raw()).collect();
    let expected: Vec<String> =
        plain.entries().iter().map(|(p, _)| format!("HKEY_CURRENT_USER\\{}", p.to_raw())).collect();
    assert_eq!(names, expected);
    for (p, e) in plain.entries() {
        assert_eq!(placed.get(&hive.prefix(p)), Some(e));
    }
}
