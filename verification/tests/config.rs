use artifact_cleaner::{merge_name_sets, Config, Profile};

#[test]
fn new_config_defaults() {
    let cfg = Config::new();
    assert_eq!(
        cfg.py.artifact_names,
        vec!["__pycache__", ".mypy_cache", ".ruff_cache"]
    );
    assert!(cfg.py.ignore.is_empty());
    assert_eq!(cfg.rust.artifact_names, vec!["target"]);
    assert!(cfg.rust.ignore.is_empty());
    assert!(cfg.user.artifact_names.is_empty());
    assert!(cfg.user.ignore.is_empty());
    assert_eq!(cfg.ignore, vec![".git", ".github"]);
}

#[test]
fn default_config_matches_new() {
    let cfg: Config = Default::default();
    let fresh = Config::new();
    assert_eq!(cfg.py.artifact_names, fresh.py.artifact_names);
    assert_eq!(cfg.rust.artifact_names, fresh.rust.artifact_names);
    assert_eq!(cfg.user.artifact_names, fresh.user.artifact_names);
    assert_eq!(cfg.ignore, fresh.ignore);
}

#[test]
fn profile_selects_matching_sets() {
    let cfg = Config::new();
    assert_eq!(cfg.profile(Profile::Py).artifact_names, cfg.py.artifact_names);
    assert_eq!(cfg.profile(Profile::Rust).artifact_names, vec!["target"]);
    assert!(cfg.profile(Profile::User).artifact_names.is_empty());
}

#[test]
fn merge_name_sets_keeps_global_entries_first() {
    let global = vec![String::from(".git"), String::from(".github")];
    let profile = vec![String::from("venv")];
    let merged = merge_name_sets(&global, &profile);
    assert_eq!(merged, vec![".git", ".github", "venv"]);
}

#[test]
fn merge_name_sets_of_empty_lists_is_empty() {
    let merged = merge_name_sets(&Vec::new(), &Vec::new());
    assert!(merged.is_empty());
}
