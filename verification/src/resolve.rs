//! Target resolution: picking between the root itself (with optional
//! ancestors) and its repository descendants, then normalizing the set.
use crate::discover::{
    ancestors_with_git, discover_children, marked_repos, walk_node, DiscoveryError,
};
use crate::fstree::DirNode;
use crate::pathstr::{sort_dedup, strictly_sorted};
use vstd::prelude::*;

verus! {

/// What a discovery pass was asked: where to start, how deep to go, and
/// whether to include ancestor repositories of the working directory.
pub struct DiscoveryConfig {
    pub root: String,
    pub max_depth: Option<usize>,
    pub parent: bool,
}

/// The targets before normalization: the root itself when it is a
/// repository (with the marked lineage directories when ancestors were
/// requested), otherwise whatever the downward walk finds.
pub open spec fn target_pool(
    cfg: DiscoveryConfig,
    tree: DirNode,
    lineage_dirs: Seq<Seq<char>>,
    lineage_marks: Seq<bool>,
) -> Seq<Seq<char>> {
    if tree.is_repo {
        if cfg.parent {
            seq![cfg.root@] + marked_repos(lineage_dirs, lineage_marks)
        } else {
            seq![cfg.root@]
        }
    } else {
        walk_node(cfg.root@, tree, cfg.max_depth).0
    }
}

/// Whether resolution succeeds: only a downward walk can fail.
pub open spec fn resolve_ok(cfg: DiscoveryConfig, tree: DirNode) -> bool {
    tree.is_repo || walk_node(cfg.root@, tree, cfg.max_depth).1
}

/// Resolves the operative target set: the pool for the given mode, then
/// always deduplicated and sorted lexicographically, so the outcome is one
/// total order however the directories were enumerated. `tree` is the
/// snapshot rooted at `cfg.root` (its `is_repo` is the predicate at the
/// root); `lineage_dirs` and `lineage_marks` describe the working
/// directory's upward lineage.
pub fn resolve_targets(
    cfg: &DiscoveryConfig,
    tree: &DirNode,
    lineage_dirs: &Vec<String>,
    lineage_marks: &Vec<bool>,
) -> (r: Result<Vec<String>, DiscoveryError>)
    requires
        lineage_dirs@.len() == lineage_marks@.len(),
    ensures
        r is Ok == resolve_ok(*cfg, *tree),
        r matches Ok(v) ==> strictly_sorted(v.deep_view()) && (forall|p: Seq<char>|
            v.deep_view().contains(p) <==> target_pool(
                *cfg,
                *tree,
                lineage_dirs.deep_view(),
                lineage_marks@,
            ).contains(p)),
{
    if tree.is_repo {
        let mut pool: Vec<String> = Vec::new();
        pool.push(cfg.root.clone());
        proof {
            assert(pool.deep_view() =~= seq![cfg.root@]);
        }
        if cfg.parent {
            let ghost before = pool.deep_view();
            let mut anc = ancestors_with_git(lineage_dirs, lineage_marks);
            let ghost anc_view = anc.deep_view();
            pool.append(&mut anc);
            proof {
                assert(pool.deep_view() =~= before + anc_view);
            }
        }
        Ok(sort_dedup(pool))
    } else {
        discover_children(&cfg.root, tree, cfg.max_depth)
    }
}

} // verus!
