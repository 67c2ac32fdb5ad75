//! Repository discovery: the downward walk with first-occurrence pruning and
//! a depth budget, and the upward ancestor scan.
use crate::fstree::{DirNode, ReadDirStatus};
use crate::pathstr::{join_path, join_path_str, sort_dedup, strictly_sorted, valid_name};
use vstd::prelude::*;

verus! {

/// A discovery pass that hit an enumeration failure other than a permission
/// refusal; the whole pass is abandoned.
#[derive(Clone, Copy, PartialEq, Eq, Structural, Debug)]
pub enum DiscoveryError {
    ReadDirFailed,
}

/// The entry name that marks repository internals; never descended into.
pub open spec fn git_marker() -> Seq<char> {
    seq!['.', 'g', 'i', 't']
}

/// Depth budget one level further down.
pub open spec fn dec_budget(b: Option<usize>) -> Option<usize>
    recommends
        b != Some(0usize),
{
    match b {
        Option::None => Option::None,
        Option::Some(k) => Option::Some((k - 1) as usize),
    }
}

/// Repositories found under `n` (whose own path is `path`), paired with
/// whether the walk ran to completion. A repository is recorded and its
/// subtree pruned; a non-repository is descended into while the budget
/// lasts; a permission refusal is skipped; any other enumeration failure
/// stops the walk.
pub open spec fn walk_node(path: Seq<char>, n: DirNode, budget: Option<usize>) -> (Seq<
    Seq<char>,
>, bool)
    decreases n, 1int, 0int,
{
    if n.is_repo {
        (seq![path], true)
    } else if budget == Some(0usize) {
        (Seq::empty(), true)
    } else {
        match n.status {
            ReadDirStatus::Readable => walk_children(path, n, 0, dec_budget(budget)),
            ReadDirStatus::PermissionDenied => (Seq::empty(), true),
            ReadDirStatus::Failed => (Seq::empty(), false),
        }
    }
}

/// Repositories found under the children of `n` from index `i` on, each
/// child walked with budget `cb`.
pub open spec fn walk_children(path: Seq<char>, n: DirNode, i: int, cb: Option<usize>) -> (Seq<
    Seq<char>,
>, bool)
    decreases n, 0int, n.children@.len() - i,
{
    if 0 <= i < n.children@.len() {
        let c = n.children@[i];
        if c.name@ == git_marker() {
            walk_children(path, n, i + 1, cb)
        } else {
            let sub = walk_node(join_path(path, c.name@), c, cb);
            if !sub.1 {
                (sub.0, false)
            } else {
                let rest = walk_children(path, n, i + 1, cb);
                (sub.0 + rest.0, rest.1)
            }
        }
    } else {
        (Seq::empty(), true)
    }
}

fn walk_exec(path: &String, n: &DirNode, budget: Option<usize>) -> (r: Result<
    Vec<String>,
    DiscoveryError,
>)
    ensures
        r matches Ok(v) ==> walk_node(path@, *n, budget).1 && v.deep_view() == walk_node(
            path@,
            *n,
            budget,
        ).0,
        r is Err ==> !walk_node(path@, *n, budget).1,
    decreases *n,
{
    if n.is_repo {
        let mut out: Vec<String> = Vec::new();
        out.push(path.clone());
        proof {
            assert(out.deep_view() =~= seq![path@]);
        }
        return Ok(out);
    }
    let cb: Option<usize> = match budget {
        Option::None => Option::None,
        Option::Some(k) => {
            if k == 0 {
                let out: Vec<String> = Vec::new();
                proof {
                    assert(out.deep_view() =~= Seq::<Seq<char>>::empty());
                }
                return Ok(out);
            }
            Option::Some(k - 1)
        },
    };
    proof {
        assert(cb == dec_budget(budget));
    }
    match n.status {
        ReadDirStatus::Readable => {},
        ReadDirStatus::PermissionDenied => {
            let out: Vec<String> = Vec::new();
            proof {
                assert(out.deep_view() =~= Seq::<Seq<char>>::empty());
            }
            return Ok(out);
        },
        ReadDirStatus::Failed => {
            return Err(DiscoveryError::ReadDirFailed);
        },
    }
    let mut out: Vec<String> = Vec::new();
    let mut i: usize = 0;
    proof {
        assert(out.deep_view() =~= Seq::<Seq<char>>::empty());
        assert(Seq::<Seq<char>>::empty() + walk_children(path@, *n, 0, cb).0 =~= walk_children(
            path@,
            *n,
            0,
            cb,
        ).0);
    }
    while i < n.children.len()
        invariant
            i <= n.children@.len(),
            n.is_repo == false,
            n.status == ReadDirStatus::Readable,
            budget != Some(0usize),
            cb == dec_budget(budget),
            walk_children(path@, *n, 0, cb).0 =~= out.deep_view() + walk_children(
                path@,
                *n,
                i as int,
                cb,
            ).0,
            walk_children(path@, *n, 0, cb).1 == walk_children(path@, *n, i as int, cb).1,
        decreases n.children@.len() - i,
    {
        let c = &n.children[i];
        if is_git_marker_name(&c.name) {
            i = i + 1;
            continue ;
        }
        let child_path = join_path_str(path, &c.name);
        let sub = walk_exec(&child_path, c, cb);
        match sub {
            Ok(mut v) => {
                let ghost out_prev = out.deep_view();
                let ghost v_prev = v.deep_view();
                out.append(&mut v);
                proof {
                    assert(out.deep_view() =~= out_prev + v_prev);
                }
            },
            Err(e) => {
                proof {
                    assert(!walk_children(path@, *n, i as int, cb).1);
                }
                return Err(e);
            },
        }
        i = i + 1;
    }
    proof {
        assert(out.deep_view() + Seq::<Seq<char>>::empty() =~= out.deep_view());
    }
    Ok(out)
}

/// Whether an entry name is exactly the repository marker name.
fn is_git_marker_name(s: &String) -> (r: bool)
    ensures
        r == (s@ == git_marker()),
{
    let marker = String::from_str(".git");
    proof {
        reveal_strlit(".git");
        assert(".git"@ =~= git_marker());
    }
    *s == marker
}

/// Walks downward from `root` (whose snapshot is `tree`) and returns the
/// repositories found, sorted lexicographically with duplicates removed.
/// `max_depth` of zero tests the root alone; absent, the descent is
/// unbounded.
pub fn discover_children(root: &String, tree: &DirNode, max_depth: Option<usize>) -> (r: Result<
    Vec<String>,
    DiscoveryError,
>)
    ensures
        r is Ok == walk_node(root@, *tree, max_depth).1,
        r matches Ok(v) ==> strictly_sorted(v.deep_view()) && (forall|p: Seq<char>|
            v.deep_view().contains(p) <==> walk_node(root@, *tree, max_depth).0.contains(p)),
{
    match walk_exec(root, tree, max_depth) {
        Ok(v) => Ok(sort_dedup(v)),
        Err(e) => Err(e),
    }
}

/// No member of `rs` lies strictly above another member.
pub open spec fn no_nesting(rs: Seq<Seq<char>>) -> bool {
    forall|a: int, b: int|
        0 <= a < rs.len() && 0 <= b < rs.len() ==> !crate::pathstr::strict_ancestor(
            rs[a],
            rs[b],
        )
}

spec fn all_below(rs: Seq<Seq<char>>, base: Seq<char>) -> bool {
    forall|k: int| 0 <= k < rs.len() ==> crate::pathstr::at_or_below(#[trigger] rs[k], base)
}

spec fn from_some_child(rs: Seq<Seq<char>>, path: Seq<char>, n: DirNode, i: int) -> bool {
    forall|k: int|
        0 <= k < rs.len() ==> exists|j: int|
            i <= j < n.children@.len() && crate::pathstr::at_or_below(
                #[trigger] rs[k],
                join_path(path, n.children@[j].name@),
            )
}

proof fn lemma_walk_sound(path: Seq<char>, n: DirNode, budget: Option<usize>)
    requires
        n.wf(),
    ensures
        no_nesting(walk_node(path, n, budget).0),
        path.len() > 0 ==> all_below(walk_node(path, n, budget).0, path),
    decreases n, 1int, 0int,
{
    let rs = walk_node(path, n, budget).0;
    if n.is_repo {
        assert(rs =~= seq![path]);
    } else if budget == Some(0usize) {
    } else {
        match n.status {
            ReadDirStatus::Readable => {
                let cb = dec_budget(budget);
                lemma_walk_children_sound(path, n, 0, cb);
                if path.len() > 0 {
                    assert forall|k: int| 0 <= k < rs.len() implies crate::pathstr::at_or_below(
                        #[trigger] rs[k],
                        path,
                    ) by {
                        let j = choose|j: int|
                            0 <= j < n.children@.len() && crate::pathstr::at_or_below(
                                rs[k],
                                join_path(path, n.children@[j].name@),
                            );
                        crate::pathstr::lemma_join_below(path, n.children@[j].name@);
                        crate::pathstr::lemma_below_transitive(
                            path,
                            join_path(path, n.children@[j].name@),
                            rs[k],
                        );
                    }
                }
            },
            ReadDirStatus::PermissionDenied => {},
            ReadDirStatus::Failed => {},
        }
    }
}

proof fn lemma_walk_children_sound(path: Seq<char>, n: DirNode, i: int, cb: Option<usize>)
    requires
        n.wf(),
    ensures
        no_nesting(walk_children(path, n, i, cb).0),
        from_some_child(walk_children(path, n, i, cb).0, path, n, i),
    decreases n, 0int, n.children@.len() - i,
{
    let rs = walk_children(path, n, i, cb).0;
    if 0 <= i < n.children@.len() {
        let c = n.children@[i];
        if c.name@ == git_marker() {
            lemma_walk_children_sound(path, n, i + 1, cb);
        } else {
            let jp = join_path(path, c.name@);
            assert(jp.len() > 0) by {
                assert(valid_name(c.name@));
            }
            assert(c.wf());
            lemma_walk_sound(jp, c, cb);
            let sub = walk_node(jp, c, cb);
            if !sub.1 {
                assert forall|k: int| 0 <= k < rs.len() implies exists|j: int|
                    i <= j < n.children@.len() && crate::pathstr::at_or_below(
                        #[trigger] rs[k],
                        join_path(path, n.children@[j].name@),
                    ) by {
                    assert(crate::pathstr::at_or_below(rs[k], join_path(
                        path,
                        n.children@[i].name@,
                    )));
                }
            } else {
                lemma_walk_children_sound(path, n, i + 1, cb);
                let rest = walk_children(path, n, i + 1, cb);
                assert(rs =~= sub.0 + rest.0);
                assert forall|k: int| 0 <= k < rs.len() implies exists|j: int|
                    i <= j < n.children@.len() && crate::pathstr::at_or_below(
                        #[trigger] rs[k],
                        join_path(path, n.children@[j].name@),
                    ) by {
                    if k < sub.0.len() {
                        assert(rs[k] == sub.0[k]);
                        assert(crate::pathstr::at_or_below(rs[k], join_path(
                            path,
                            n.children@[i].name@,
                        )));
                    } else {
                        assert(rs[k] == rest.0[k - sub.0.len()]);
                        let j = choose|j: int|
                            i + 1 <= j < n.children@.len() && crate::pathstr::at_or_below(
                                rest.0[k - sub.0.len()],
                                join_path(path, n.children@[j].name@),
                            );
                        assert(i <= j < n.children@.len() && crate::pathstr::at_or_below(
                            rs[k],
                            join_path(path, n.children@[j].name@),
                        ));
                    }
                }
                assert forall|a: int, b: int|
                    0 <= a < rs.len() && 0 <= b < rs.len() implies !crate::pathstr::strict_ancestor(
                    rs[a],
                    rs[b],
                ) by {
                    if a < sub.0.len() && b < sub.0.len() {
                        assert(rs[a] == sub.0[a] && rs[b] == sub.0[b]);
                    } else if a >= sub.0.len() && b >= sub.0.len() {
                        assert(rs[a] == rest.0[a - sub.0.len()] && rs[b] == rest.0[b - sub.0.len()]);
                    } else {
                        let (ks, kr) = if a < sub.0.len() {
                            (a, b)
                        } else {
                            (b, a)
                        };
                        assert(rs[ks] == sub.0[ks]);
                        assert(crate::pathstr::at_or_below(rs[ks], jp));
                        let j = choose|j: int|
                            i + 1 <= j < n.children@.len() && crate::pathstr::at_or_below(
                                rest.0[kr - sub.0.len()],
                                join_path(path, n.children@[j].name@),
                            );
                        assert(n.children@[i].name@ != n.children@[j].name@);
                        assert(valid_name(n.children@[j].name@));
                        crate::pathstr::lemma_divergent_no_nesting(
                            path,
                            n.children@[i].name@,
                            n.children@[j].name@,
                            rs[ks],
                            rs[kr],
                        );
                        crate::pathstr::lemma_divergent_no_nesting(
                            path,
                            n.children@[j].name@,
                            n.children@[i].name@,
                            rs[kr],
                            rs[ks],
                        );
                    }
                }
            }
        }
    }
}

/// First-occurrence pruning is exhaustive: over a faithful snapshot, no walk
/// result lies strictly above another, so discovery never yields both a
/// directory and one of its descendants. `v` is any selection of the walk's
/// results, such as the sorted, deduplicated sequence discovery returns.
pub proof fn lemma_discovery_prunes_nested(
    path: Seq<char>,
    n: DirNode,
    budget: Option<usize>,
    v: Seq<Seq<char>>,
)
    requires
        n.wf(),
        forall|p: Seq<char>| v.contains(p) ==> walk_node(path, n, budget).0.contains(p),
    ensures
        no_nesting(v),
{
    lemma_walk_sound(path, n, budget);
    let rs = walk_node(path, n, budget).0;
    assert forall|a: int, b: int|
        0 <= a < v.len() && 0 <= b < v.len() implies !crate::pathstr::strict_ancestor(
        v[a],
        v[b],
    ) by {
        assert(v.contains(v[a]) && v.contains(v[b]));
        assert(rs.contains(v[a]) && rs.contains(v[b]));
        let ka = choose|k: int| 0 <= k < rs.len() && rs[k] == v[a];
        let kb = choose|k: int| 0 <= k < rs.len() && rs[k] == v[b];
        assert(!crate::pathstr::strict_ancestor(rs[ka], rs[kb]));
    }
}

/// The directories among `dirs[i..]` whose mark is set, nearest first.
pub open spec fn marked_from(dirs: Seq<Seq<char>>, marks: Seq<bool>, i: int) -> Seq<Seq<char>>
    decreases dirs.len() - i,
{
    if 0 <= i < dirs.len() && i < marks.len() {
        (if marks[i] {
            seq![dirs[i]]
        } else {
            Seq::empty()
        }) + marked_from(dirs, marks, i + 1)
    } else {
        Seq::empty()
    }
}

/// The repositories in a lineage: every directory of `dirs` whose mark in
/// `marks` says it carries the repository marker, in the order given
/// (nearest ancestor first).
pub open spec fn marked_repos(dirs: Seq<Seq<char>>, marks: Seq<bool>) -> Seq<Seq<char>> {
    marked_from(dirs, marks, 0)
}

/// Collects the repositories along an upward walk. `dirs` lists the starting
/// directory and its ancestors outward; `marks` says of each whether it
/// satisfies the repository predicate.
pub fn ancestors_with_git(dirs: &Vec<String>, marks: &Vec<bool>) -> (r: Vec<String>)
    requires
        dirs@.len() == marks@.len(),
    ensures
        r.deep_view() == marked_repos(dirs.deep_view(), marks@),
{
    let mut r: Vec<String> = Vec::new();
    let mut i: usize = 0;
    proof {
        assert(Seq::<Seq<char>>::empty() + marked_from(dirs.deep_view(), marks@, 0)
            =~= marked_from(dirs.deep_view(), marks@, 0));
        assert(r.deep_view() =~= Seq::<Seq<char>>::empty());
    }
    while i < dirs.len()
        invariant
            i <= dirs@.len(),
            dirs@.len() == marks@.len(),
            marked_repos(dirs.deep_view(), marks@) =~= r.deep_view() + marked_from(
                dirs.deep_view(),
                marks@,
                i as int,
            ),
        decreases dirs@.len() - i,
    {
        if marks[i] {
            let ghost prev = r.deep_view();
            r.push(dirs[i].clone());
            proof {
                assert(r.deep_view() =~= prev + seq![dirs.deep_view()[i as int]]);
            }
        }
        i = i + 1;
    }
    proof {
        assert(r.deep_view() + Seq::<Seq<char>>::empty() =~= r.deep_view());
    }
    r
}

/// A lineage with no repository anywhere yields nothing.
pub proof fn lemma_ancestors_empty_without_repo(dirs: Seq<Seq<char>>, marks: Seq<bool>)
    requires
        forall|k: int| 0 <= k < marks.len() ==> !marks[k],
    ensures
        marked_repos(dirs, marks).len() == 0,
{
    lemma_marked_from_empty(dirs, marks, 0);
}

proof fn lemma_marked_from_empty(dirs: Seq<Seq<char>>, marks: Seq<bool>, i: int)
    requires
        forall|k: int| 0 <= k < marks.len() ==> !marks[k],
    ensures
        marked_from(dirs, marks, i).len() == 0,
    decreases dirs.len() - i,
{
    if 0 <= i < dirs.len() && i < marks.len() {
        lemma_marked_from_empty(dirs, marks, i + 1);
    }
}

/// With a depth budget of zero the walk tests the root alone: it yields the
/// root itself exactly when the root satisfies the predicate, and never
/// fails.
pub proof fn lemma_depth_zero(path: Seq<char>, n: DirNode)
    ensures
        walk_node(path, n, Some(0usize)).1,
        n.is_repo ==> walk_node(path, n, Some(0usize)).0 =~= seq![path],
        !n.is_repo ==> walk_node(path, n, Some(0usize)).0 =~= Seq::<Seq<char>>::empty(),
{
}

/// With a depth bound of zero, discovery returns at most one target: the
/// root itself, exactly when it satisfies the predicate. `v` is any sorted,
/// duplicate-free sequence with the walk's members, such as what discovery
/// returns.
pub proof fn lemma_depth_zero_discovery(path: Seq<char>, n: DirNode, v: Seq<Seq<char>>)
    requires
        strictly_sorted(v),
        forall|p: Seq<char>| v.contains(p) <==> walk_node(path, n, Some(0usize)).0.contains(p),
    ensures
        n.is_repo ==> v =~= seq![path],
        !n.is_repo ==> v =~= Seq::<Seq<char>>::empty(),
{
    lemma_depth_zero(path, n);
    if n.is_repo {
        crate::pathstr::lemma_sorted_dedup_canonical(v, seq![path]);
    } else {
        crate::pathstr::lemma_sorted_dedup_canonical(v, Seq::<Seq<char>>::empty());
    }
}

/// Discovery is deterministic: any two sorted, duplicate-free sequences
/// drawn from the same walk over the same snapshot are one and the same
/// sequence.
pub proof fn lemma_discovery_deterministic(
    path: Seq<char>,
    n: DirNode,
    budget: Option<usize>,
    s1: Seq<Seq<char>>,
    s2: Seq<Seq<char>>,
)
    requires
        strictly_sorted(s1),
        strictly_sorted(s2),
        forall|p: Seq<char>| s1.contains(p) <==> walk_node(path, n, budget).0.contains(p),
        forall|p: Seq<char>| s2.contains(p) <==> walk_node(path, n, budget).0.contains(p),
    ensures
        s1 == s2,
{
    crate::pathstr::lemma_sorted_dedup_canonical(s1, s2);
}

} // verus!
