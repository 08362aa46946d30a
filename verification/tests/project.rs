use que::project::{check_bundle_extension, default_project_config_text, parse_project_config, resolve_bundle_path};
use std::path::PathBuf;

#[test]
fn parse_project_config_reads_entry_and_deps() {
    let cfg = parse_project_config(
        "entry = \"main.que\"\ndeps = [\"./utils.que\", \"./lib/math.que\"]\n[env]\nQUE_WASM_OPT = \"speed\"",
        "que.toml",
    )
    .expect("config should parse");
    assert_eq!(cfg.entry.as_deref(), Some("main.que"));
    assert_eq!(cfg.deps.len(), 2);
    assert_eq!(cfg.env.get("QUE_WASM_OPT").map(String::as_str), Some("speed"));
}

#[test]
fn default_project_config_contains_entry() {
    let text = default_project_config_text();
    assert!(text.contains("entry = \"main.que\""));
    assert!(text.contains("deps = []"));
    assert!(text.contains("[env]"));
}

#[test]
fn bundle_files_must_have_the_que_extension() {
    assert_eq!(check_bundle_extension(Some("que"), "a.que"), Ok(()));
    assert_eq!(
        check_bundle_extension(Some("txt"), "a.txt"),
        Err("bundle 'a.txt' must be a .que file".to_string())
    );
    assert_eq!(
        check_bundle_extension(None, "lib"),
        Err("bundle 'lib' must be a .que file".to_string())
    );
}

#[test]
fn bundle_paths_resolve_against_the_project_root() {
    let base = PathBuf::from("/proj");
    assert_eq!(
        resolve_bundle_path(&base, "utils/util.que"),
        Ok(PathBuf::from("/proj/utils/util.que"))
    );
    assert_eq!(resolve_bundle_path(&base, "/abs/x.que"), Ok(PathBuf::from("/abs/x.que")));
    assert_eq!(
        resolve_bundle_path(&base, "lib.txt"),
        Err("bundle '/proj/lib.txt' must be a .que file".to_string())
    );
}
