use loam_build::filter::{distinct_pairs, locate};
use loam_build::{
    get_contract_deps, get_deps, get_loam_deps, get_riff_deps, DepKind, Error, MetaValue, Package,
    Resolution, ResolvedGraph,
};

fn tagged(name: &str, version: &str, tags: &[&str]) -> Package {
    let flags = tags.iter().map(|tag| (tag.to_string(), MetaValue::Bool(true))).collect();
    Package {
        id: format!("{name} {version} (path+file:///ws/{name})"),
        name: name.to_string(),
        version: version.to_string(),
        manifest_path: format!("/ws/{name}/Cargo.toml"),
        metadata: MetaValue::Object(vec![("loam".to_string(), MetaValue::Object(flags))]),
    }
}

fn resolution(packages: Vec<Package>, root: &Package, tree: &str) -> Resolution {
    Resolution {
        graph: Ok(ResolvedGraph { packages, root: Some(root.clone()) }),
        tree: Some(tree.as_bytes().to_vec()),
    }
}

fn pair(source: &str, output: &str) -> (String, String) {
    (source.to_string(), output.to_string())
}

fn app_with_util_and_core() -> (Package, Package, Package, Resolution) {
    let app = tagged("app", "1.0.0", &[]);
    let util = tagged("util", "2.0.0", &["riff"]);
    let core = tagged("core", "1.0.0", &["contract"]);
    let tree = "app v1.0.0 (/ws/app)\nutil v2.0.0 (/ws/util)\ncore v1.0.0 (/ws/core)\n";
    let answers = resolution(vec![app.clone(), util.clone(), core.clone()], &app, tree);
    (app, util, core, answers)
}

#[test]
fn riff_filter_gives_the_tagged_package_and_the_root() {
    let (_, _, _, answers) = app_with_util_and_core();
    let pairs = get_loam_deps("/ws/app/Cargo.toml", DepKind::Riff, &answers).unwrap();
    assert_eq!(
        pairs,
        vec![
            pair("/ws/util/src/lib.rs", "util2.0.0/loam/util"),
            pair("/ws/app/src/lib.rs", "app1.0.0/loam/app"),
        ]
    );
}

#[test]
fn riff_deps_is_the_filter_for_riff() {
    let (_, _, _, answers) = app_with_util_and_core();
    assert_eq!(
        get_riff_deps("/ws/app/Cargo.toml", &answers),
        get_loam_deps("/ws/app/Cargo.toml", DepKind::Riff, &answers)
    );
}

#[test]
fn contract_filter_gives_the_deployable_unit() {
    let (_, _, core, answers) = app_with_util_and_core();
    assert_eq!(get_contract_deps("/ws/app/Cargo.toml", &answers), Ok(vec![core]));
}

#[test]
fn contract_tag_filter_gives_the_unit_and_the_root() {
    let (_, _, _, answers) = app_with_util_and_core();
    let pairs = get_loam_deps("/ws/app/Cargo.toml", DepKind::Contract, &answers).unwrap();
    assert_eq!(
        pairs,
        vec![
            pair("/ws/core/src/lib.rs", "core1.0.0/loam/core"),
            pair("/ws/app/src/lib.rs", "app1.0.0/loam/app"),
        ]
    );
}

#[test]
fn tag_filter_twice_gives_the_same_set() {
    let (_, _, _, answers) = app_with_util_and_core();
    let mut first = get_loam_deps("/ws/app/Cargo.toml", DepKind::Riff, &answers).unwrap();
    let mut second = get_loam_deps("/ws/app/Cargo.toml", DepKind::Riff, &answers).unwrap();
    first.sort();
    second.sort();
    assert_eq!(first, second);
}

#[test]
fn tagged_root_comes_once() {
    let app = tagged("app", "1.0.0", &["riff"]);
    let answers = resolution(vec![app.clone()], &app, "app v1.0.0 (/ws/app)\n");
    let pairs = get_riff_deps("/ws/app/Cargo.toml", &answers).unwrap();
    assert_eq!(pairs, vec![pair("/ws/app/src/lib.rs", "app1.0.0/loam/app")]);
}

#[test]
fn root_is_selected_by_the_path_that_was_asked_for() {
    let app = tagged("app", "1.0.0", &[]);
    let answers = resolution(vec![app.clone()], &app, "");
    assert_eq!(get_riff_deps("/ws/app/Cargo.toml", &answers).unwrap().len(), 1);
    assert_eq!(get_riff_deps("/ws/app/../app/Cargo.toml", &answers), Ok(vec![]));
    assert_eq!(get_riff_deps("/elsewhere/Cargo.toml", &answers), Ok(vec![]));
}

#[test]
fn one_path_may_be_written_in_two_ways() {
    let app = tagged("app", "1.0.0", &["contract"]);
    let answers = resolution(vec![app.clone()], &app, "");
    assert_eq!(get_riff_deps("/ws//app/./Cargo.toml", &answers).unwrap().len(), 1);
    assert_eq!(get_contract_deps("/ws//app/./Cargo.toml", &answers), Ok(vec![]));
    assert_eq!(get_contract_deps("/ws/app/../app/Cargo.toml", &answers), Ok(vec![app]));
}

#[test]
fn output_directory_has_underscores() {
    let app = tagged("app", "1.0.0", &[]);
    let dashed = tagged("status-message", "0.1.0", &["riff"]);
    let answers =
        resolution(vec![app.clone(), dashed.clone()], &app, "status-message v0.1.0\n");
    let pairs = get_riff_deps("/ws/app/Cargo.toml", &answers).unwrap();
    assert_eq!(
        pairs[0],
        pair("/ws/status-message/src/lib.rs", "status-message0.1.0/loam/status_message")
    );
}

#[test]
fn equal_pairs_are_given_once() {
    let app = tagged("app", "1.0.0", &[]);
    let mut alt = tagged("app", "1.0.0", &["riff"]);
    alt.manifest_path = "/ws/app/Alt.toml".to_string();
    let answers = resolution(vec![app.clone(), alt.clone()], &app, "app v1.0.0\n");
    assert_eq!(get_deps("/ws/app/Cargo.toml", &answers), Ok(vec![alt, app]));
    assert_eq!(
        get_riff_deps("/ws/app/Cargo.toml", &answers),
        Ok(vec![pair("/ws/app/src/lib.rs", "app1.0.0/loam/app")])
    );
}

#[test]
fn distinct_pairs_keeps_first_occurrences() {
    let pairs = vec![pair("a", "1"), pair("b", "2"), pair("a", "1"), pair("a", "2"), pair("b", "2")];
    assert_eq!(distinct_pairs(&pairs), vec![pair("a", "1"), pair("b", "2"), pair("a", "2")]);
    assert_eq!(distinct_pairs(&vec![]), vec![]);
}

#[test]
fn locate_derives_both_paths() {
    let core = tagged("my-core", "1.2.3", &[]);
    assert_eq!(
        locate(&core),
        Some(pair("/ws/my-core/src/lib.rs", "my-core1.2.3/loam/my_core"))
    );
}

#[test]
fn locate_needs_a_parent() {
    let mut core = tagged("core", "1.0.0", &[]);
    core.manifest_path = "/".to_string();
    assert_eq!(locate(&core), None);
}

#[test]
fn selected_package_without_parent_is_reported() {
    let app = tagged("app", "1.0.0", &[]);
    let mut stray = tagged("stray", "1.0.0", &["riff"]);
    stray.manifest_path = "/".to_string();
    let mut other = tagged("other", "1.0.0", &["riff"]);
    other.manifest_path = "".to_string();
    let answers = resolution(
        vec![app.clone(), stray.clone(), other.clone()],
        &app,
        "other v1.0.0\nstray v1.0.0\n",
    );
    assert_eq!(
        get_riff_deps("/ws/app/Cargo.toml", &answers),
        Err(Error::ParentNotFound("".to_string()))
    );
}

#[test]
fn package_without_parent_that_is_not_selected_does_no_harm() {
    let app = tagged("app", "1.0.0", &[]);
    let mut stray = tagged("stray", "1.0.0", &["contract"]);
    stray.manifest_path = "/".to_string();
    let answers = resolution(vec![app.clone(), stray.clone()], &app, "stray v1.0.0\n");
    assert_eq!(
        get_riff_deps("/ws/app/Cargo.toml", &answers),
        Ok(vec![pair("/ws/app/src/lib.rs", "app1.0.0/loam/app")])
    );
}

#[test]
fn filters_forward_the_failure_of_the_enumerator() {
    let broken = Resolution { graph: Err("cause".to_string()), tree: None };
    assert_eq!(
        get_riff_deps("/ws/app/Cargo.toml", &broken),
        Err(Error::Metadata("cause".to_string()))
    );
    assert_eq!(
        get_contract_deps("/ws/app/Cargo.toml", &broken),
        Err(Error::Metadata("cause".to_string()))
    );
}

#[test]
fn no_tagged_dependency_gives_no_unit() {
    let app = tagged("app", "1.0.0", &["contract"]);
    let util = tagged("util", "2.0.0", &["riff"]);
    let plain = tagged("plain", "0.1.0", &[]);
    let answers = resolution(
        vec![app.clone(), util.clone(), plain.clone()],
        &app,
        "app v1.0.0\nutil v2.0.0\nplain v0.1.0\n",
    );
    assert_eq!(get_contract_deps("/ws/app/Cargo.toml", &answers), Ok(vec![]));
}

#[test]
fn units_come_in_the_order_of_the_closure() {
    let app = tagged("app", "1.0.0", &[]);
    let a = tagged("a", "1.0.0", &["contract"]);
    let b = tagged("b", "1.0.0", &["contract", "riff"]);
    let c = tagged("c", "1.0.0", &["riff"]);
    let answers = resolution(
        vec![a.clone(), b.clone(), c.clone(), app.clone()],
        &app,
        "b v1.0.0\nc v1.0.0\na v1.0.0\n",
    );
    assert_eq!(get_contract_deps("/ws/app/Cargo.toml", &answers), Ok(vec![b, a]));
}
