use gits::discover::{ancestors_with_git, discover_children, DiscoveryError};
use gits::fstree::{DirNode, ReadDirStatus};

fn dir(name: &str, is_repo: bool, children: Vec<DirNode>) -> DirNode {
    DirNode { name: name.to_string(), is_repo, status: ReadDirStatus::Readable, children }
}

fn workspace() -> DirNode {
    // W holds a repository at a (with a nested repository at a/vendor) and a
    // repository at b/c, while b itself is not one.
    dir(
        "W",
        false,
        vec![
            dir("a", true, vec![dir("vendor", true, vec![])]),
            dir("b", false, vec![dir("c", true, vec![])]),
        ],
    )
}

#[test]
fn unbounded_discovery_prunes_nested_repository() {
    let tree = workspace();
    let found = discover_children(&"W".to_string(), &tree, None).unwrap();
    assert_eq!(found, vec!["W/a".to_string(), "W/b/c".to_string()]);
}

#[test]
fn depth_one_misses_deeper_repository() {
    let tree = workspace();
    let found = discover_children(&"W".to_string(), &tree, Some(1)).unwrap();
    assert_eq!(found, vec!["W/a".to_string()]);
}

#[test]
fn depth_zero_finds_only_a_repository_root() {
    let repo_root = dir("r", true, vec![dir("x", true, vec![])]);
    let found = discover_children(&"r".to_string(), &repo_root, Some(0)).unwrap();
    assert_eq!(found, vec!["r".to_string()]);

    let plain_root = workspace();
    let found = discover_children(&"W".to_string(), &plain_root, Some(0)).unwrap();
    assert!(found.is_empty());
}

#[test]
fn repeated_discovery_is_identical_and_sorted() {
    // Children deliberately out of order: the result is sorted all the same.
    let tree = dir(
        "W",
        false,
        vec![
            dir("zeta", true, vec![]),
            dir("alpha", true, vec![]),
            dir("mid", false, vec![dir("inner", true, vec![])]),
        ],
    );
    let first = discover_children(&"W".to_string(), &tree, None).unwrap();
    let second = discover_children(&"W".to_string(), &tree, None).unwrap();
    assert_eq!(first, second);
    assert_eq!(
        first,
        vec!["W/alpha".to_string(), "W/mid/inner".to_string(), "W/zeta".to_string()]
    );
    for w in first.windows(2) {
        assert!(w[0] < w[1]);
    }
}

#[test]
fn git_named_directory_is_never_descended() {
    // A directory literally named .git hides anything beneath it, even when
    // it does not satisfy the predicate itself.
    let tree = dir("W", false, vec![dir(".git", false, vec![dir("hidden", true, vec![])])]);
    let found = discover_children(&"W".to_string(), &tree, None).unwrap();
    assert!(found.is_empty());
}

#[test]
fn permission_denied_directory_is_skipped_silently() {
    let mut locked = dir("locked", false, vec![dir("unseen", true, vec![])]);
    locked.status = ReadDirStatus::PermissionDenied;
    let tree = dir("W", false, vec![locked, dir("open", true, vec![])]);
    let found = discover_children(&"W".to_string(), &tree, None).unwrap();
    assert_eq!(found, vec!["W/open".to_string()]);
}

#[test]
fn other_read_failure_aborts_discovery() {
    let mut broken = dir("broken", false, vec![]);
    broken.status = ReadDirStatus::Failed;
    let tree = dir("W", false, vec![broken, dir("open", true, vec![])]);
    let r = discover_children(&"W".to_string(), &tree, None);
    assert_eq!(r, Err(DiscoveryError::ReadDirFailed));
}

#[test]
fn failure_below_a_repository_is_invisible() {
    // The subtree of a found repository is pruned before its status is read.
    let mut inner = dir("inner", false, vec![]);
    inner.status = ReadDirStatus::Failed;
    let tree = dir("W", false, vec![dir("repo", true, vec![inner])]);
    let found = discover_children(&"W".to_string(), &tree, None).unwrap();
    assert_eq!(found, vec!["W/repo".to_string()]);
}

#[test]
fn ancestors_collects_marked_directories_nearest_first() {
    let dirs = vec![
        "/w/x/y".to_string(),
        "/w/x".to_string(),
        "/w".to_string(),
        "/".to_string(),
    ];
    let marks = vec![true, false, true, false];
    let found = ancestors_with_git(&dirs, &marks);
    assert_eq!(found, vec!["/w/x/y".to_string(), "/w".to_string()]);
}

#[test]
fn lineage_without_repository_yields_nothing() {
    let dirs = vec!["/a/b".to_string(), "/a".to_string(), "/".to_string()];
    let marks = vec![false, false, false];
    let found = ancestors_with_git(&dirs, &marks);
    assert!(found.is_empty());
}
