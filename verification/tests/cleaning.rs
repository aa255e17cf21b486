use artifact_cleaner::cleaning::{
    delete_all_artifacts, dir_name_in_collection, find_dirs, DeletionOutcome, DirPath, DirTree,
    FsState,
};

fn path(s: &str) -> DirPath {
    DirPath {
        components: s.split('/').filter(|c| !c.is_empty()).map(String::from).collect(),
    }
}

fn dir(name: &str, children: Vec<DirTree>) -> DirTree {
    DirTree { name: String::from(name), is_symlink: false, children }
}

fn symlink_dir(name: &str) -> DirTree {
    DirTree { name: String::from(name), is_symlink: true, children: Vec::new() }
}

fn names(items: &[&str]) -> Vec<String> {
    items.iter().map(|s| String::from(*s)).collect()
}

#[test]
fn run_is_cleanable_flag_found_match() {
    let test_path = path("/some/path/artifact_dir_1");
    let artifacts = vec![String::from("artifact_dir_1")];
    assert!(dir_name_in_collection(&test_path, &artifacts));
}

#[test]
fn run_is_cleanable_flag_no_match() {
    let test_path = path("/some/path/artifact_dir_1");
    let artifacts = vec![String::from("artifact_dir_2")];
    assert!(!dir_name_in_collection(&test_path, &artifacts));
}

#[test]
fn empty_path_never_matches() {
    let test_path = DirPath { components: Vec::new() };
    let artifacts = vec![String::from("artifact_dir_1")];
    assert!(!dir_name_in_collection(&test_path, &artifacts));
}

#[test]
fn run_find_dir() {
    let tree = dir(
        "root",
        vec![dir("subdir", vec![dir("artifact", vec![])]), dir("artifact", vec![])],
    );
    let artifacts = names(&["artifact"]);
    let ignore: Vec<String> = Vec::new();
    let mut findings: Vec<DirPath> = Vec::new();

    find_dirs(&mut findings, &path("root"), &tree, &artifacts, &ignore, 2);

    assert_eq!(findings.len(), 2);
    assert_eq!(findings[0], path("root/subdir/artifact"));
    assert_eq!(findings[1], path("root/artifact"));
}

#[test]
fn run_find_dir_max_depth() {
    let tree = dir(
        "root",
        vec![dir(
            "subdir_1",
            vec![dir("subdir_2", vec![dir("subdir_3", vec![dir("artifact", vec![])])])],
        )],
    );
    let artifacts = names(&["artifact"]);
    let ignore: Vec<String> = Vec::new();
    let mut findings: Vec<DirPath> = Vec::new();

    find_dirs(&mut findings, &path("root"), &tree, &artifacts, &ignore, 2);
    assert_eq!(findings.len(), 0);

    find_dirs(&mut findings, &path("root"), &tree, &artifacts, &ignore, 5);
    assert_eq!(findings.len(), 1);
    assert_eq!(findings[0], path("root/subdir_1/subdir_2/subdir_3/artifact"));
}

#[test]
fn run_find_dir_test_ignore() {
    let tree = dir(
        "root",
        vec![
            dir("subdir", vec![dir("artifact", vec![])]),
            dir("ignore_dir", vec![dir("artifact", vec![])]),
        ],
    );
    let artifacts = names(&["artifact"]);
    let ignore = names(&["ignore_dir"]);
    let mut findings: Vec<DirPath> = Vec::new();

    find_dirs(&mut findings, &path("root"), &tree, &artifacts, &ignore, 10);

    assert_eq!(findings.len(), 1);
    assert_eq!(findings[0], path("root/subdir/artifact"));
}

#[test]
fn zero_depth_finds_nothing() {
    let tree = dir("root", vec![dir("artifact", vec![])]);
    let artifacts = names(&["artifact"]);
    let ignore: Vec<String> = Vec::new();
    let mut findings: Vec<DirPath> = Vec::new();

    find_dirs(&mut findings, &path("root"), &tree, &artifacts, &ignore, 0);

    assert_eq!(findings.len(), 0);
}

#[test]
fn artifact_match_is_not_descended_into() {
    let tree = dir(
        "root",
        vec![dir("target", vec![dir("target", vec![]), dir("nested", vec![dir("target", vec![])])])],
    );
    let artifacts = names(&["target"]);
    let ignore: Vec<String> = Vec::new();
    let mut findings: Vec<DirPath> = Vec::new();

    find_dirs(&mut findings, &path("root"), &tree, &artifacts, &ignore, 10);

    assert_eq!(findings.len(), 1);
    assert_eq!(findings[0], path("root/target"));
}

#[test]
fn symlink_directory_is_never_reported() {
    let tree = dir(
        "root",
        vec![symlink_dir("artifact"), dir("subdir", vec![symlink_dir("artifact")])],
    );
    let artifacts = names(&["artifact"]);
    let ignore: Vec<String> = Vec::new();
    let mut findings: Vec<DirPath> = Vec::new();

    find_dirs(&mut findings, &path("root"), &tree, &artifacts, &ignore, 10);

    assert_eq!(findings.len(), 0);
}

#[test]
fn findings_appended_in_enumeration_order() {
    let tree = dir(
        "root",
        vec![dir("b_dir", vec![dir("artifact", vec![])]), dir("a_dir", vec![dir("artifact", vec![])])],
    );
    let artifacts = names(&["artifact"]);
    let ignore: Vec<String> = Vec::new();
    let mut findings: Vec<DirPath> = Vec::new();

    find_dirs(&mut findings, &path("root"), &tree, &artifacts, &ignore, 10);

    assert_eq!(findings.len(), 2);
    assert_eq!(findings[0], path("root/b_dir/artifact"));
    assert_eq!(findings[1], path("root/a_dir/artifact"));
}

#[test]
fn run_delete_all_artifact() {
    let mut fs = FsState {
        dirs: vec![
            path("root"),
            path("root/artifact"),
            path("root/some_sub_folder"),
            path("root/some_sub_folder/artifact"),
            path("root/some_sub_folder/artifact/some_other_dir"),
        ],
    };
    let findings = vec![path("root/artifact"), path("root/some_sub_folder/artifact")];

    assert!(fs.exists_dir(&path("root/artifact")));
    assert!(fs.exists_dir(&path("root/some_sub_folder/artifact")));

    let outcomes = delete_all_artifacts(&findings, &mut fs);

    assert!(!fs.exists_dir(&path("root/artifact")));
    assert!(!fs.exists_dir(&path("root/some_sub_folder/artifact")));
    assert!(!fs.exists_dir(&path("root/some_sub_folder/artifact/some_other_dir")));
    assert!(fs.exists_dir(&path("root/some_sub_folder")));
    assert_eq!(outcomes, vec![DeletionOutcome::Deleted, DeletionOutcome::Deleted]);
}

#[test]
fn deletion_failure_is_isolated() {
    let mut fs = FsState { dirs: vec![path("root"), path("root/artifact")] };
    let findings = vec![path("root/vanished"), path("root/artifact")];

    let outcomes = delete_all_artifacts(&findings, &mut fs);

    assert_eq!(outcomes, vec![DeletionOutcome::Failed, DeletionOutcome::Deleted]);
    assert!(!fs.exists_dir(&path("root/artifact")));
    assert!(fs.exists_dir(&path("root")));
}

#[test]
fn deleting_a_parent_takes_the_subtree() {
    let mut fs = FsState {
        dirs: vec![path("root"), path("root/target"), path("root/target/debug")],
    };
    let findings = vec![path("root/target"), path("root/target/debug")];

    let outcomes = delete_all_artifacts(&findings, &mut fs);

    assert_eq!(outcomes, vec![DeletionOutcome::Deleted, DeletionOutcome::Failed]);
    assert!(!fs.exists_dir(&path("root/target")));
    assert!(!fs.exists_dir(&path("root/target/debug")));
}
