use loam_build::deps::enumerate;
use loam_build::{get_deps, Error, MetaValue, Package, Resolution, ResolvedGraph};

fn package(name: &str, version: &str) -> Package {
    Package {
        id: format!("{name} {version} (path+file:///ws/{name})"),
        name: name.to_string(),
        version: version.to_string(),
        manifest_path: format!("/ws/{name}/Cargo.toml"),
        metadata: MetaValue::Other,
    }
}

fn resolution(packages: Vec<Package>, root: Option<Package>, tree: &str) -> Resolution {
    Resolution { graph: Ok(ResolvedGraph { packages, root }), tree: Some(tree.as_bytes().to_vec()) }
}

fn names(packages: &[Package]) -> Vec<String> {
    packages.iter().map(|p| format!("{}@{}", p.name, p.version)).collect()
}

#[test]
fn lone_root_is_its_own_closure() {
    let core = package("core", "1.0.0");
    let answers = resolution(vec![core.clone()], Some(core.clone()), "core v1.0.0 (/ws/core)\n");
    let deps = get_deps("/ws/core/Cargo.toml", &answers).unwrap();
    assert_eq!(deps, vec![core]);
}

#[test]
fn root_comes_last_and_once() {
    let app = package("app", "1.0.0");
    let util = package("util", "2.0.0");
    let core = package("core", "1.0.0");
    let tree = "app v1.0.0 (/ws/app)\nutil v2.0.0 (/ws/util)\napp v1.0.0 (/ws/app) (*)\ncore v1.0.0 (/ws/core)\n";
    let answers =
        resolution(vec![core.clone(), app.clone(), util.clone()], Some(app.clone()), tree);
    let deps = get_deps("/ws/app/Cargo.toml", &answers).unwrap();
    assert_eq!(names(&deps), vec!["util@2.0.0", "core@1.0.0", "app@1.0.0"]);
    assert_eq!(deps.iter().filter(|p| p.manifest_path == app.manifest_path).count(), 1);
}

#[test]
fn root_is_there_without_any_line() {
    let core = package("core", "1.0.0");
    let answers = resolution(vec![core.clone()], Some(core.clone()), "");
    assert_eq!(get_deps("/ws/core/Cargo.toml", &answers).unwrap(), vec![core]);
}

#[test]
fn repeated_lines_give_one_record() {
    let app = package("app", "1.0.0");
    let util = package("util", "2.0.0");
    let tree = "util v2.0.0 (/ws/util)\nutil v2.0.0 (/ws/util) (*)\nutil v2.0.0\n";
    let answers = resolution(vec![app.clone(), util.clone()], Some(app.clone()), tree);
    let deps = get_deps("/ws/app/Cargo.toml", &answers).unwrap();
    assert_eq!(names(&deps), vec!["util@2.0.0", "app@1.0.0"]);
}

#[test]
fn lines_that_do_not_resolve_are_passed_over() {
    let app = package("app", "1.0.0");
    let util = package("util", "2.0.0");
    let tree = "\nwarning: something\nunknown v9.9.9\nutil\nutil v2.0.1\nutil 2.0.0\nutil v2.0.0 extra tokens here\n[build-dependencies]\n";
    let answers = resolution(vec![app.clone(), util.clone()], Some(app.clone()), tree);
    let deps = get_deps("/ws/app/Cargo.toml", &answers).unwrap();
    assert_eq!(names(&deps), vec!["util@2.0.0", "app@1.0.0"]);
}

#[test]
fn lines_may_end_with_return_and_newline() {
    let app = package("app", "1.0.0");
    let serde = package("serde", "1.0.2");
    let tree = "app v1.0.0 (C:\\ws\\app)\r\nserde v1.0.2\r\n";
    let answers = resolution(vec![app.clone(), serde.clone()], Some(app.clone()), tree);
    let deps = get_deps("/ws/app/Cargo.toml", &answers).unwrap();
    assert_eq!(names(&deps), vec!["serde@1.0.2", "app@1.0.0"]);
}

#[test]
fn last_line_needs_no_newline() {
    let app = package("app", "1.0.0");
    let serde = package("serde", "1.0.2");
    let answers =
        resolution(vec![app.clone(), serde.clone()], Some(app.clone()), "serde v1.0.2");
    let deps = get_deps("/ws/app/Cargo.toml", &answers).unwrap();
    assert_eq!(names(&deps), vec!["serde@1.0.2", "app@1.0.0"]);
}

#[test]
fn versions_of_one_name_are_told_apart() {
    let app = package("app", "1.0.0");
    let mut old = package("dep", "1.0.0");
    old.manifest_path = "/registry/dep-1.0.0/Cargo.toml".to_string();
    let mut new = package("dep", "2.0.0");
    new.manifest_path = "/registry/dep-2.0.0/Cargo.toml".to_string();
    let tree = "dep v2.0.0\ndep v1.0.0\n";
    let answers =
        resolution(vec![old.clone(), new.clone(), app.clone()], Some(app.clone()), tree);
    let deps = get_deps("/ws/app/Cargo.toml", &answers).unwrap();
    assert_eq!(names(&deps), vec!["dep@2.0.0", "dep@1.0.0", "app@1.0.0"]);
}

#[test]
fn key_is_the_two_tokens_put_together() {
    let app = package("app", "1.0.0");
    let odd = package("a", "1");
    let answers = resolution(vec![odd.clone(), app.clone()], Some(app.clone()), "av 1\n");
    let deps = get_deps("/ws/app/Cargo.toml", &answers).unwrap();
    assert_eq!(names(&deps), vec!["a@1", "app@1.0.0"]);
}

#[test]
fn last_record_of_a_key_is_the_one_found() {
    let app = package("app", "1.0.0");
    let mut first = package("dep", "1.0.0");
    first.manifest_path = "/first/Cargo.toml".to_string();
    let mut second = package("dep", "1.0.0");
    second.manifest_path = "/second/Cargo.toml".to_string();
    let answers = resolution(
        vec![first.clone(), second.clone(), app.clone()],
        Some(app.clone()),
        "dep v1.0.0\n",
    );
    let deps = get_deps("/ws/app/Cargo.toml", &answers).unwrap();
    assert_eq!(deps.len(), 2);
    assert_eq!(deps[0].manifest_path, "/second/Cargo.toml");
}

#[test]
fn a_record_with_the_root_path_is_the_root() {
    let app = package("app", "1.0.0");
    let mut twin = package("twin", "0.1.0");
    twin.manifest_path = app.manifest_path.clone();
    let answers =
        resolution(vec![twin.clone(), app.clone()], Some(app.clone()), "twin v0.1.0\n");
    let deps = get_deps("/ws/app/Cargo.toml", &answers).unwrap();
    assert_eq!(names(&deps), vec!["app@1.0.0"]);
}

#[test]
fn a_record_at_the_root_path_written_otherwise_is_the_root() {
    let app = package("app", "1.0.0");
    let mut twin = package("twin", "0.1.0");
    twin.manifest_path = "/ws//app/./Cargo.toml".to_string();
    let answers =
        resolution(vec![twin.clone(), app.clone()], Some(app.clone()), "twin v0.1.0\n");
    let deps = get_deps("/ws/app/Cargo.toml", &answers).unwrap();
    assert_eq!(names(&deps), vec!["app@1.0.0"]);
}

#[test]
fn records_at_one_path_are_one_package() {
    let app = package("app", "1.0.0");
    let one = package("one", "0.1.0");
    let mut other = package("other", "0.1.0");
    other.manifest_path = "/ws/one//Cargo.toml".to_string();
    let answers = resolution(
        vec![one.clone(), other.clone(), app.clone()],
        Some(app.clone()),
        "one v0.1.0\nother v0.1.0\n",
    );
    let deps = get_deps("/ws/app/Cargo.toml", &answers).unwrap();
    assert_eq!(names(&deps), vec!["one@0.1.0", "app@1.0.0"]);
}

#[test]
fn enumerate_works_on_the_plain_parts() {
    let app = package("app", "1.0.0");
    let util = package("util", "2.0.0");
    let deps = enumerate(&vec![util.clone(), app.clone()], &app, b"util v2.0.0\n");
    assert_eq!(deps, vec![util, app]);
}

#[test]
fn failed_metadata_query_is_forwarded() {
    let answers = Resolution {
        graph: Err("`cargo metadata` exited with an error".to_string()),
        tree: Some(b"core v1.0.0\n".to_vec()),
    };
    assert_eq!(
        get_deps("/ws/core/Cargo.toml", &answers),
        Err(Error::Metadata("`cargo metadata` exited with an error".to_string()))
    );
}

#[test]
fn failed_metadata_query_comes_before_every_other_failure() {
    let answers = Resolution { graph: Err("cause".to_string()), tree: None };
    assert_eq!(get_deps("", &answers), Err(Error::Metadata("cause".to_string())));
}

#[test]
fn missing_root_is_reported() {
    let core = package("core", "1.0.0");
    let answers = resolution(vec![core], None, "core v1.0.0\n");
    assert_eq!(
        get_deps("/elsewhere/Cargo.toml", &answers),
        Err(Error::RootNotFound("/elsewhere/Cargo.toml".to_string()))
    );
}

#[test]
fn manifest_path_without_parent_is_reported() {
    let core = package("core", "1.0.0");
    let answers = resolution(vec![core.clone()], Some(core.clone()), "core v1.0.0\n");
    assert_eq!(get_deps("", &answers), Err(Error::ParentNotFound("".to_string())));
    assert_eq!(get_deps("/", &answers), Err(Error::ParentNotFound("/".to_string())));
}

#[test]
fn tree_query_that_did_not_start_is_reported() {
    let core = package("core", "1.0.0");
    let answers = Resolution {
        graph: Ok(ResolvedGraph { packages: vec![core.clone()], root: Some(core) }),
        tree: None,
    };
    assert_eq!(
        get_deps("/ws/core/Cargo.toml", &answers),
        Err(Error::CargoTree("/ws/core".to_string()))
    );
}

#[test]
fn tree_output_that_is_no_text_is_reported() {
    let core = package("core", "1.0.0");
    let answers = Resolution {
        graph: Ok(ResolvedGraph { packages: vec![core.clone()], root: Some(core) }),
        tree: Some(vec![b'c', b'o', 0xff, 0xfe, b'\n']),
    };
    assert_eq!(
        get_deps("/ws/core/Cargo.toml", &answers),
        Err(Error::CargoTree("/ws/core".to_string()))
    );
}

#[test]
fn tree_output_in_utf8_is_text() {
    let app = package("app", "1.0.0");
    let odd = package("caf\u{e9}", "1.0.0");
    let answers = resolution(
        vec![odd.clone(), app.clone()],
        Some(app.clone()),
        "caf\u{e9} v1.0.0 (/ws/caf\u{e9})\n",
    );
    let deps = get_deps("/ws/app/Cargo.toml", &answers).unwrap();
    assert_eq!(names(&deps), vec!["caf\u{e9}@1.0.0", "app@1.0.0"]);
}
