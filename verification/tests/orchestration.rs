use gits::fstree::{DirNode, ReadDirStatus};
use gits::pathstr::sort_dedup;
use gits::resolve::{resolve_targets, DiscoveryConfig};
use gits::run::{
    default_command_args, list_labels, normalize_exit_code, overall_exit_code,
    should_print_headings,
};

fn dir(name: &str, is_repo: bool, children: Vec<DirNode>) -> DirNode {
    DirNode { name: name.to_string(), is_repo, status: ReadDirStatus::Readable, children }
}

#[test]
fn empty_workspace_resolves_to_no_targets_and_success() {
    let cfg = DiscoveryConfig { root: "W".to_string(), max_depth: None, parent: false };
    let tree = dir("W", false, vec![]);
    let targets = resolve_targets(&cfg, &tree, &vec![], &vec![]).unwrap();
    assert!(targets.is_empty());
    // No command runs, so no codes are recorded and the run succeeds.
    let codes: Vec<i32> = Vec::new();
    assert_eq!(overall_exit_code(&codes), 0);
}

#[test]
fn last_exit_code_wins() {
    assert_eq!(overall_exit_code(&vec![0, 3]), 3);
    assert_eq!(overall_exit_code(&vec![3, 0]), 0);
    assert_eq!(overall_exit_code(&vec![2]), 2);
}

#[test]
fn abnormal_termination_counts_as_failure() {
    assert_eq!(normalize_exit_code(Some(7)), 7);
    assert_eq!(normalize_exit_code(Some(0)), 0);
    assert_eq!(normalize_exit_code(None), 1);
}

#[test]
fn list_mode_prints_one_sorted_label_per_target() {
    let cfg = DiscoveryConfig { root: "W".to_string(), max_depth: None, parent: false };
    let tree = dir(
        "W",
        false,
        vec![
            dir("c", true, vec![]),
            dir("a", true, vec![]),
            dir("b", true, vec![]),
        ],
    );
    let targets = resolve_targets(&cfg, &tree, &vec![], &vec![]).unwrap();
    assert_eq!(targets, vec!["W/a".to_string(), "W/b".to_string(), "W/c".to_string()]);
    let canons: Vec<Option<String>> = vec![None, None, None];
    let labels = list_labels(&targets, &"W".to_string(), false, &canons);
    assert_eq!(labels, vec!["a/".to_string(), "b/".to_string(), "c/".to_string()]);
}

#[test]
fn repository_root_resolves_to_itself() {
    let cfg = DiscoveryConfig { root: "/w/repo".to_string(), max_depth: None, parent: false };
    let tree = dir("repo", true, vec![dir("nested", true, vec![])]);
    let targets = resolve_targets(&cfg, &tree, &vec![], &vec![]).unwrap();
    assert_eq!(targets, vec!["/w/repo".to_string()]);
}

#[test]
fn parent_mode_unions_root_with_marked_lineage_and_dedups() {
    let cfg = DiscoveryConfig { root: "/w/repo".to_string(), max_depth: None, parent: true };
    let tree = dir("repo", true, vec![]);
    let lineage = vec!["/w/repo".to_string(), "/w".to_string(), "/".to_string()];
    let marks = vec![true, true, false];
    let targets = resolve_targets(&cfg, &tree, &lineage, &marks).unwrap();
    assert_eq!(targets, vec!["/w".to_string(), "/w/repo".to_string()]);
}

#[test]
fn default_command_is_the_status_subcommand() {
    let args = default_command_args(Vec::new());
    assert_eq!(args, vec!["status".to_string()]);
    let own = default_command_args(vec!["log".to_string(), "-n1".to_string()]);
    assert_eq!(own, vec!["log".to_string(), "-n1".to_string()]);
}

#[test]
fn heading_emission_policy() {
    assert!(should_print_headings(2, false, false, false, false));
    assert!(should_print_headings(1, true, false, false, false));
    assert!(should_print_headings(1, false, true, false, false));
    assert!(should_print_headings(1, false, false, true, false));
    assert!(!should_print_headings(1, false, false, false, false));
    assert!(!should_print_headings(0, false, false, false, false));
    assert!(!should_print_headings(5, true, true, true, true));
}

#[test]
fn sort_dedup_orders_and_removes_duplicates() {
    let v = vec![
        "b".to_string(),
        "a".to_string(),
        "b".to_string(),
        "aa".to_string(),
    ];
    assert_eq!(sort_dedup(v), vec!["a".to_string(), "aa".to_string(), "b".to_string()]);
}
