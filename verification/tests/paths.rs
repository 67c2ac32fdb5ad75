use gits::discover::discover_children;
use gits::fstree::{DirNode, ReadDirStatus};
use gits::heading::heading_for;
use gits::pathstr::{join_path_str, str_lt};

fn dir(name: &str, is_repo: bool, children: Vec<DirNode>) -> DirNode {
    DirNode { name: name.to_string(), is_repo, status: ReadDirStatus::Readable, children }
}

#[test]
fn join_inserts_separator_only_when_needed() {
    assert_eq!(join_path_str(&"/w".to_string(), &"a".to_string()), "/w/a");
    assert_eq!(join_path_str(&"/".to_string(), &"a".to_string()), "/a");
    assert_eq!(join_path_str(&"".to_string(), &"a".to_string()), "a");
}

#[test]
fn string_order_is_lexicographic() {
    assert!(str_lt("a", "b"));
    assert!(str_lt("a", "aa"));
    assert!(!str_lt("b", "a"));
    assert!(!str_lt("a", "a"));
    assert!(str_lt("", "a"));
}

#[test]
fn discovery_rooted_at_filesystem_root() {
    let tree = dir("/", false, vec![dir("srv", true, vec![])]);
    let found = discover_children(&"/".to_string(), &tree, None).unwrap();
    assert_eq!(found, vec!["/srv".to_string()]);
}

#[test]
fn relative_heading_falls_back_when_no_route_exists() {
    // A relative target against an absolute root has no relative route; the
    // raw path is used, still with the trailing separator.
    let h = heading_for(&"w/repo".to_string(), &"/abs".to_string(), false, None);
    assert_eq!(h, "w/repo/");
}
