use loam_build::out_dir;
use loam_build::paths::{replace_dashes, source_entry};

#[test]
fn out_dir_follows_the_convention() {
    assert_eq!(out_dir("target", "my-crate"), "target/loam/my_crate");
}

#[test]
fn out_dir_replaces_every_dash() {
    assert_eq!(out_dir("/abs/target", "a-b-c"), "/abs/target/loam/a_b_c");
}

#[test]
fn out_dir_keeps_a_name_without_dashes() {
    assert_eq!(out_dir("core1.0.0", "core"), "core1.0.0/loam/core");
}

#[test]
fn dashes_become_underscores() {
    assert_eq!(replace_dashes("status-message"), "status_message");
    assert_eq!(replace_dashes("--"), "__");
    assert_eq!(replace_dashes("plain_name"), "plain_name");
    assert_eq!(replace_dashes(""), "");
    assert_eq!(replace_dashes("caf\u{e9}-au-lait"), "caf\u{e9}_au_lait");
}

#[test]
fn source_entry_is_under_the_manifest_dir() {
    assert_eq!(source_entry("/ws/core/Cargo.toml"), Some("/ws/core/src/lib.rs".to_string()));
}

#[test]
fn source_entry_of_a_bare_file_name_is_relative() {
    assert_eq!(source_entry("Cargo.toml"), Some("src/lib.rs".to_string()));
}

#[test]
fn source_entry_needs_a_parent() {
    assert_eq!(source_entry(""), None);
    assert_eq!(source_entry("/"), None);
}
