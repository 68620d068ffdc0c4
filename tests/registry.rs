use regdiff::{Data, Hive, Key, KeyPath, Registry, Value, ValueName};

fn sz(s: &str) -> Data {
    Data::Sz(s.to_string())
}

fn val(name: &str, data: Data) -> Value {
    Value::new(ValueName::named(name.to_string()), data)
}

fn user_path(raw: &str) -> KeyPath {
    Hive::CurrentUser.prefix(&KeyPath::parse(raw))
}

fn user_registry() -> Registry {
    Registry::from_keys(vec![
        Key::new(user_path("Software\\Wine\\Fonts"), vec![]),
        Key::new(
            user_path("Software\\Wine\\Fonts\\Replacements"),
            vec![
                val("Arial Unicode MS", sz("Droid Sans Fallback")),
                val("Microsoft JhengHei", sz("Droid Sans Fallback")),
            ],
        ),
        Key::new(user_path("Software\\Wine\\X11 Driver"), vec![val("Decorated", sz("Y"))]),
    ])
}

#[test]
fn test_get_existing_registry_key() {
    let registry = user_registry();
    let key = registry.key(&user_path("Software\\Wine\\Fonts"));
    assert!(key.is_some());
}

#[test]
fn test_registry_key_has_correct_name() {
    let registry = user_registry();
    let key = registry.key(&user_path("Software\\Wine\\Fonts")).unwrap();
    assert_eq!(key.name().to_raw(), "HKEY_CURRENT_USER\\Software\\Wine\\Fonts");
}

#[test]
fn test_get_nonexistent_registry_key_returns_none() {
    let registry = user_registry();
    let key = registry.key(&user_path("Software\\Wine\\NonExistent"));
    assert!(key.is_none());
}

#[test]
fn test_registry_key_value_count_is_correct() {
    let registry = user_registry();
    let key = registry.key(&user_path("Software\\Wine\\X11 Driver")).unwrap();
    assert_eq!(key.values().len(), 1);
}

#[test]
fn test_registry_key_contains_expected_values() {
    let registry = user_registry();
    let key = registry.key(&user_path("Software\\Wine\\Fonts\\Replacements")).unwrap();

    let value = key.value(&ValueName::named("Arial Unicode MS".to_string())).cloned().unwrap();

    assert_eq!(value.value(), &Data::Sz("Droid Sans Fallback".to_string()));
}

#[test]
fn test_registry_key_value_index_out_of_range_returns_none() {
    let registry = user_registry();
    let key = registry.key(&user_path("Software\\Wine\\X11 Driver")).unwrap();
    assert!(key.values().iter().nth(999).is_none());
}

#[test]
fn builder_adds_implied_ancestors_with_no_values() {
    let registry = user_registry();
    // root, hive, Software, Wine, Fonts, Replacements, X11 Driver
    assert_eq!(registry.keys().len(), 7);
    let wine = registry.key(&user_path("Software\\Wine")).unwrap();
    assert!(wine.values().is_empty());
    let root = registry.key(&KeyPath::root()).unwrap();
    assert_eq!(root.name().len(), 0);
}

#[test]
fn builder_orders_keys_by_first_implication() {
    let registry = Registry::from_keys(vec![
        Key::new(KeyPath::parse("A\\B"), vec![]),
        Key::new(KeyPath::parse("C"), vec![]),
        Key::new(KeyPath::parse("A"), vec![val("v", Data::Dword(1))]),
    ]);
    let raws: Vec<String> = registry.keys().iter().map(|k| k.name().to_raw()).collect();
    assert_eq!(raws, vec!["", "A", "A\\B", "C"]);
    // "A" was implied first, yet holds the values that the snapshot gives it.
    let a = registry.key(&KeyPath::parse("A")).unwrap();
    assert_eq!(a.values().len(), 1);
}

#[test]
fn builder_of_empty_snapshot_has_only_the_root() {
    let registry = Registry::from_keys(vec![]);
    assert_eq!(registry.keys().len(), 1);
    assert!(registry.key(&KeyPath::root()).unwrap().values().is_empty());
}

#[test]
fn builder_keeps_later_duplicate_path() {
    let registry = Registry::from_keys(vec![
        Key::new(KeyPath::parse("K"), vec![val("v", sz("first"))]),
        Key::new(KeyPath::parse("K"), vec![val("v", sz("second"))]),
    ]);
    assert_eq!(registry.keys().len(), 2);
    let k = registry.key(&KeyPath::parse("K")).unwrap();
    assert_eq!(k.values().len(), 1);
    assert_eq!(k.values()[0].value(), &sz("second"));
}

#[test]
fn builder_keeps_root_values() {
    let registry = Registry::from_keys(vec![Key::new(KeyPath::parse(""), vec![val("top", Data::Qword(9))])]);
    assert_eq!(registry.keys().len(), 1);
    assert_eq!(registry.key(&KeyPath::root()).unwrap().values()[0].value(), &Data::Qword(9));
}

#[test]
fn parent_is_found_by_path() {
    let registry = user_registry();
    let parent = registry.parent(&user_path("Software\\Wine\\Fonts\\Replacements")).unwrap();
    assert_eq!(parent.name().to_raw(), "HKEY_CURRENT_USER\\Software\\Wine\\Fonts");
    assert!(registry.parent(&KeyPath::root()).is_none());
    assert!(registry.parent(&user_path("Nope\\Child")).is_none());
}

#[test]
fn key_new_keeps_one_value_per_name() {
    let k = Key::new(
        KeyPath::parse("K"),
        vec![val("a", sz("1")), val("b", sz("2")), val("a", sz("3"))],
    );
    assert_eq!(k.values().len(), 2);
    assert_eq!(k.values()[0].name(), &ValueName::named("a".to_string()));
    assert_eq!(k.values()[0].value(), &sz("3"));
    assert_eq!(k.values()[1].value(), &sz("2"));
    assert!(k.value(&ValueName::Default).is_none());
}

#[test]
fn default_and_named_values_are_distinct() {
    let k = Key::new(
        KeyPath::parse("K"),
        vec![Value::new(ValueName::Default, sz("d")), val("@", sz("n"))],
    );
    assert_eq!(k.values().len(), 2);
    assert_eq!(k.value(&ValueName::Default).unwrap().value(), &sz("d"));
}

#[test]
fn path_parse_and_join() {
    let p = KeyPath::parse("HKEY_CURRENT_USER\\Software\\Wine");
    assert_eq!(p.len(), 3);
    assert_eq!(p.segments()[1], "Software");
    assert_eq!(p.to_raw(), "HKEY_CURRENT_USER\\Software\\Wine");
    assert_eq!(KeyPath::parse("").len(), 0);
    assert_eq!(KeyPath::root().to_raw(), "");
    assert_eq!(KeyPath::parse("Single").to_raw(), "Single");
}

#[test]
fn path_keeps_empty_segments() {
    let p = KeyPath::parse("A\\\\B");
    assert_eq!(p.segments(), &vec!["A".to_string(), String::new(), "B".to_string()]);
    let q = KeyPath::parse("A\\");
    assert_eq!(q.segments(), &vec!["A".to_string(), String::new()]);
    assert_eq!(p.to_raw(), "A\\\\B");
}

#[test]
fn path_comparison_is_exact() {
    assert!(!KeyPath::parse("Software").same_as(&KeyPath::parse("software")));
    assert!(KeyPath::parse("A\\B").same_as(&KeyPath::parse("A\\B")));
    assert!(!KeyPath::parse("A\\B").same_as(&KeyPath::parse("A")));
}

#[test]
fn path_parent_and_prefix() {
    let p = KeyPath::parse("A\\B\\C");
    assert_eq!(p.parent().unwrap().to_raw(), "A\\B");
    assert!(KeyPath::root().parent().is_none());
    assert_eq!(p.prefix(1).to_raw(), "A");
}

#[test]
fn hive_names_and_prefix() {
    assert_eq!(Hive::LocalMachine.to_string(), "HKEY_LOCAL_MACHINE");
    assert_eq!(Hive::CurrentUser.to_string(), "HKEY_CURRENT_USER");
    let p = Hive::LocalMachine.prefix(&KeyPath::parse("Software\\X"));
    assert_eq!(p.to_raw(), "HKEY_LOCAL_MACHINE\\Software\\X");
    assert_eq!(Hive::CurrentUser.prefix(&KeyPath::root()).to_raw(), "HKEY_CURRENT_USER");
}

#[test]
fn data_equality_is_structural() {
    assert!(Data::Binary(vec![1, 2]).same_as(&Data::Binary(vec![1, 2])));
    assert!(!Data::Binary(vec![1, 2]).same_as(&Data::Binary(vec![1, 3])));
    assert!(!Data::Sz("x".to_string()).same_as(&Data::ExpandSz("x".to_string())));
    assert!(!Data::Dword(1).same_as(&Data::DwordBigEndian(1)));
    let m1 = Data::MultiSz(vec!["a".to_string(), "b".to_string()]);
    let m2 = Data::MultiSz(vec!["a".to_string()]);
    assert!(!m1.same_as(&m2));
    assert!(m1.same_as(&m1.clone()));
    assert!(!Data::Hex { kind: 7, bytes: vec![0] }.same_as(&Data::Hex { kind: 8, bytes: vec![0] }));
    assert!(Data::Qword(5).same_as(&Data::Qword(5)));
    assert!(Data::Delete.same_as(&Data::Delete));
}

#[test]
fn value_parts() {
    let v = val("n", Data::Dword(3));
    assert!(v.same_as(&v.clone()));
    let (name, data) = v.clone().into_deleted_value();
    assert_eq!(name, ValueName::named("n".to_string()));
    assert_eq!(data, Data::Delete);
    let (name, data) = v.into_parts();
    assert_eq!(name, ValueName::named("n".to_string()));
    assert_eq!(data, Data::Dword(3));
}

#[test]
fn children_are_the_keys_one_segment_below() {
    let registry = user_registry();
    let wine = user_path("Software\\Wine");
    let names: Vec<String> = registry.children(&wine).iter().map(|k| k.name().to_raw()).collect();
    assert_eq!(
        names,
        vec![
            "HKEY_CURRENT_USER\\Software\\Wine\\Fonts".to_string(),
            "HKEY_CURRENT_USER\\Software\\Wine\\X11 Driver".to_string(),
        ]
    );
    let roots: Vec<String> = registry.children(&KeyPath::root()).iter().map(|k| k.name().to_raw()).collect();
    assert_eq!(roots, vec!["HKEY_CURRENT_USER".to_string()]);
    assert!(registry.children(&user_path("Software\\Wine\\X11 Driver")).is_empty());
}

#[test]
fn key_values_are_ordered_by_name() {
    let k = Key::new(
        KeyPath::parse("K"),
        vec![val("b", sz("1")), val("B", sz("2")), Value::new(ValueName::Default, sz("d")), val("a", sz("3"))],
    );
    let names: Vec<ValueName> = k.values().iter().map(|v| v.name().clone()).collect();
    assert_eq!(
        names,
        vec![
            ValueName::Default,
            ValueName::named("B".to_string()),
            ValueName::named("a".to_string()),
            ValueName::named("b".to_string()),
        ]
    );
    assert!(ValueName::Default.less_than(&ValueName::named(String::new())));
    assert!(!ValueName::named("x".to_string()).less_than(&ValueName::Default));
}
