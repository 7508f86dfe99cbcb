use loam_build::{DepKind, MetaValue, Package, PackageExt};

fn object(entries: Vec<(&str, MetaValue)>) -> MetaValue {
    MetaValue::Object(entries.into_iter().map(|(key, value)| (key.to_string(), value)).collect())
}

fn package_with(metadata: MetaValue) -> Package {
    Package {
        id: "core 1.0.0 (path+file:///ws/core)".to_string(),
        name: "core".to_string(),
        version: "1.0.0".to_string(),
        manifest_path: "/ws/core/Cargo.toml".to_string(),
        metadata,
    }
}

#[test]
fn tag_names() {
    assert_eq!(DepKind::Riff.to_string(), "riff");
    assert_eq!(DepKind::Contract.to_string(), "contract");
}

#[test]
fn tag_set_to_true_is_found() {
    let package = package_with(object(vec![(
        "loam",
        object(vec![("contract", MetaValue::Bool(true))]),
    )]));
    assert!(package.is_dep(&DepKind::Contract));
    assert!(!package.is_dep(&DepKind::Riff));
}

#[test]
fn tag_set_to_false_is_absent() {
    let package = package_with(object(vec![(
        "loam",
        object(vec![("riff", MetaValue::Bool(false)), ("contract", MetaValue::Bool(true))]),
    )]));
    assert!(!package.is_dep(&DepKind::Riff));
    assert!(package.is_dep(&DepKind::Contract));
}

#[test]
fn missing_metadata_sets_no_tag() {
    let package = package_with(MetaValue::Other);
    assert!(!package.is_dep(&DepKind::Riff));
    assert!(!package.is_dep(&DepKind::Contract));
}

#[test]
fn missing_namespace_sets_no_tag() {
    let package = package_with(object(vec![(
        "other-tool",
        object(vec![("riff", MetaValue::Bool(true))]),
    )]));
    assert!(!package.is_dep(&DepKind::Riff));
}

#[test]
fn namespace_that_is_no_object_sets_no_tag() {
    let package = package_with(object(vec![("loam", MetaValue::Bool(true))]));
    assert!(!package.is_dep(&DepKind::Riff));
    let package = package_with(object(vec![("loam", MetaValue::Other)]));
    assert!(!package.is_dep(&DepKind::Contract));
}

#[test]
fn tag_that_is_no_boolean_is_absent() {
    let package = package_with(object(vec![(
        "loam",
        object(vec![("riff", MetaValue::Other), ("contract", object(vec![]))]),
    )]));
    assert!(!package.is_dep(&DepKind::Riff));
    assert!(!package.is_dep(&DepKind::Contract));
}

#[test]
fn tag_outside_the_namespace_is_absent() {
    let package = package_with(object(vec![("riff", MetaValue::Bool(true))]));
    assert!(!package.is_dep(&DepKind::Riff));
}

#[test]
fn first_entry_of_a_key_counts() {
    let value = object(vec![("a", MetaValue::Bool(true)), ("a", MetaValue::Bool(false))]);
    assert_eq!(value.get(&"a".to_string()), Some(&MetaValue::Bool(true)));
    assert_eq!(value.get(&"b".to_string()), None);
    assert_eq!(MetaValue::Bool(true).get(&"a".to_string()), None);
}

#[test]
fn only_the_boolean_true_is_true() {
    assert!(MetaValue::Bool(true).is_true());
    assert!(!MetaValue::Bool(false).is_true());
    assert!(!MetaValue::Other.is_true());
    assert!(!object(vec![]).is_true());
}

#[test]
fn clone_keeps_every_field() {
    let package = package_with(object(vec![(
        "loam",
        object(vec![("contract", MetaValue::Bool(true)), ("note", MetaValue::Other)]),
    )]));
    let copy = package.clone();
    assert_eq!(copy, package);
    assert_eq!(copy.id, "core 1.0.0 (path+file:///ws/core)");
    assert_eq!(copy.metadata, package.metadata);
}
