//! Paths as plain strings: lexicographic ordering, joining with the
//! separator, the ancestor relation, and a sorted, duplicate-free
//! normal form for lists of paths.
use vstd::prelude::*;

verus! {

/// Strict lexicographic order on character sequences.
pub open spec fn lex_lt(a: Seq<char>, b: Seq<char>) -> bool
    decreases a.len(),
{
    if b.len() == 0 {
        false
    } else if a.len() == 0 {
        true
    } else if a[0] != b[0] {
        a[0] < b[0]
    } else {
        lex_lt(a.skip(1), b.skip(1))
    }
}

pub proof fn lemma_lex_lt_irreflexive(a: Seq<char>)
    ensures
        !lex_lt(a, a),
    decreases a.len(),
{
    if a.len() > 0 {
        lemma_lex_lt_irreflexive(a.skip(1));
    }
}

/// Two sequences are ordered one way or the other unless they are equal.
pub proof fn lemma_lex_lt_total(a: Seq<char>, b: Seq<char>)
    ensures
        lex_lt(a, b) || lex_lt(b, a) || a == b,
    decreases a.len(),
{
    if a.len() == 0 {
        if b.len() == 0 {
            assert(a =~= b);
        }
    } else if b.len() > 0 && a[0] == b[0] {
        lemma_lex_lt_total(a.skip(1), b.skip(1));
        if a.skip(1) == b.skip(1) {
            assert(a.skip(1).len() == b.skip(1).len());
            assert(a.len() == b.len());
            assert forall|i: int| 0 <= i < a.len() implies a[i] == b[i] by {
                if i > 0 {
                    assert(a.skip(1)[i - 1] == a[i]);
                    assert(b.skip(1)[i - 1] == b[i]);
                }
            }
            assert(a =~= b);
        }
    }
}

pub proof fn lemma_lex_lt_asymmetric(a: Seq<char>, b: Seq<char>)
    ensures
        !(lex_lt(a, b) && lex_lt(b, a)),
    decreases a.len(),
{
    if a.len() > 0 && b.len() > 0 && a[0] == b[0] {
        lemma_lex_lt_asymmetric(a.skip(1), b.skip(1));
    }
}

pub proof fn lemma_lex_lt_transitive(a: Seq<char>, b: Seq<char>, c: Seq<char>)
    ensures
        lex_lt(a, b) && lex_lt(b, c) ==> lex_lt(a, c),
    decreases a.len(),
{
    if a.len() > 0 && b.len() > 0 && c.len() > 0 && a[0] == b[0] && b[0] == c[0] {
        lemma_lex_lt_transitive(a.skip(1), b.skip(1), c.skip(1));
    }
}

/// If `a` and `b` agree on their first `i` characters, their order is
/// decided past that point.
proof fn lemma_lex_lt_skip_common(a: Seq<char>, b: Seq<char>, i: int)
    requires
        0 <= i <= a.len(),
        0 <= i <= b.len(),
        forall|k: int| 0 <= k < i ==> a[k] == b[k],
    ensures
        lex_lt(a, b) == lex_lt(a.skip(i), b.skip(i)),
    decreases i,
{
    if i > 0 {
        assert(a.len() > 0 && b.len() > 0 && a[0] == b[0]);
        assert(forall|k: int| 0 <= k < i - 1 ==> a.skip(1)[k] == b.skip(1)[k]);
        lemma_lex_lt_skip_common(a.skip(1), b.skip(1), i - 1);
        assert(a.skip(1).skip(i - 1) =~= a.skip(i));
        assert(b.skip(1).skip(i - 1) =~= b.skip(i));
    } else {
        assert(a.skip(0) =~= a);
        assert(b.skip(0) =~= b);
    }
}

/// Compares two strings in the lexicographic order of their characters.
pub fn str_lt(a: &str, b: &str) -> (r: bool)
    ensures
        r == lex_lt(a@, b@),
{
    let la = a.unicode_len();
    let lb = b.unicode_len();
    let mut i: usize = 0;
    loop
        invariant
            i <= la,
            i <= lb,
            la == a@.len(),
            lb == b@.len(),
            forall|k: int| 0 <= k < i ==> a@[k] == b@[k],
        decreases la - i,
    {
        if i >= la || i >= lb {
            proof {
                lemma_lex_lt_skip_common(a@, b@, i as int);
            }
            return la < lb;
        }
        let ca = a.get_char(i);
        let cb = b.get_char(i);
        if ca != cb {
            proof {
                lemma_lex_lt_skip_common(a@, b@, i as int);
            }
            return ca < cb;
        }
        i = i + 1;
    }
}

/// A directory entry name: nonempty and free of the path separator.
pub open spec fn valid_name(s: Seq<char>) -> bool {
    s.len() > 0 && (forall|i: int| 0 <= i < s.len() ==> s[i] != '/')
}

/// Path of the entry `name` directly inside the directory `base`.
pub open spec fn join_path(base: Seq<char>, name: Seq<char>) -> Seq<char> {
    if base.len() == 0 {
        name
    } else if base.last() == '/' {
        base + name
    } else {
        base + seq!['/'] + name
    }
}

/// `a` names a directory strictly above `b`.
pub open spec fn strict_ancestor(a: Seq<char>, b: Seq<char>) -> bool {
    &&& a.len() < b.len()
    &&& b.subrange(0, a.len() as int) == a
    &&& (b[a.len() as int] == '/' || (a.len() > 0 && a.last() == '/'))
}

/// `r` names `base` itself or a directory strictly below it.
pub open spec fn at_or_below(r: Seq<char>, base: Seq<char>) -> bool {
    r == base || strict_ancestor(base, r)
}

/// The leading part of `join_path(base, name)` before the name.
pub open spec fn join_prefix(base: Seq<char>) -> Seq<char> {
    if base.len() == 0 {
        Seq::empty()
    } else if base.last() == '/' {
        base
    } else {
        base + seq!['/']
    }
}

proof fn lemma_prefix_chars(a: Seq<char>, b: Seq<char>)
    requires
        a.len() <= b.len(),
        b.subrange(0, a.len() as int) == a,
    ensures
        forall|k: int| 0 <= k < a.len() ==> b[k] == a[k],
{
    assert forall|k: int| 0 <= k < a.len() implies b[k] == a[k] by {
        assert(b.subrange(0, a.len() as int)[k] == b[k]);
    }
}

/// A directory lies strictly above the entries joined onto it.
pub proof fn lemma_join_below(base: Seq<char>, name: Seq<char>)
    requires
        valid_name(name),
        base.len() > 0,
    ensures
        strict_ancestor(base, join_path(base, name)),
{
    let j = join_path(base, name);
    if base.last() == '/' {
        assert(j.subrange(0, base.len() as int) =~= base);
    } else {
        assert(j =~= (base + seq!['/']) + name);
        assert(j.subrange(0, base.len() as int) =~= base);
        assert(j[base.len() as int] == '/');
    }
}

pub proof fn lemma_below_transitive(a: Seq<char>, b: Seq<char>, c: Seq<char>)
    requires
        at_or_below(b, a),
        at_or_below(c, b),
    ensures
        at_or_below(c, a),
{
    if b != a && c != b {
        assert(strict_ancestor(a, b) && strict_ancestor(b, c));
        lemma_prefix_chars(a, b);
        lemma_prefix_chars(b, c);
        assert(c.subrange(0, a.len() as int) =~= a);
        if !(a.len() > 0 && a.last() == '/') {
            assert(b[a.len() as int] == '/');
            assert(c[a.len() as int] == '/');
        }
    }
}

/// Subtrees hanging off two distinct entries of one directory are disjoint:
/// nothing in one is an ancestor of anything in the other.
pub proof fn lemma_divergent_no_nesting(
    base: Seq<char>,
    n1: Seq<char>,
    n2: Seq<char>,
    r1: Seq<char>,
    r2: Seq<char>,
)
    requires
        valid_name(n1),
        valid_name(n2),
        n1 != n2,
        at_or_below(r1, join_path(base, n1)),
        at_or_below(r2, join_path(base, n2)),
    ensures
        !strict_ancestor(r1, r2),
{
    let pre = join_prefix(base);
    let j1 = join_path(base, n1);
    let j2 = join_path(base, n2);
    let off = pre.len() as int;
    assert(j1 =~= pre + n1);
    assert(j2 =~= pre + n2);
    let l1 = n1.len() as int;
    let l2 = n2.len() as int;
    if strict_ancestor(r1, r2) {
        if r1 != j1 {
            lemma_prefix_chars(j1, r1);
        }
        lemma_prefix_chars(r1, r2);
        if r2 != j2 {
            lemma_prefix_chars(j2, r2);
        }
        assert(forall|k: int| 0 <= k < j1.len() ==> r1[k] == j1[k]);
        assert(forall|k: int| 0 <= k < r1.len() ==> r2[k] == r1[k]);
        assert(forall|k: int| 0 <= k < j2.len() ==> r2[k] == j2[k]);
        assert(r1.len() >= j1.len() && r2.len() > r1.len() && r2.len() >= j2.len());
        if l1 == l2 {
            if forall|k: int| 0 <= k < l1 ==> n1[k] == n2[k] {
                assert(n1 =~= n2);
            } else {
                let k = choose|k: int| 0 <= k < l1 && n1[k] != n2[k];
                assert(r1[off + k] == j1[off + k] && j1[off + k] == n1[k]);
                assert(r2[off + k] == j2[off + k] && j2[off + k] == n2[k]);
                assert(r2[off + k] == r1[off + k]);
            }
        } else if l1 < l2 {
            if forall|k: int| 0 <= k < l1 ==> n1[k] == n2[k] {
                // n1 is a proper prefix of n2: right past it, one path has the
                // separator and the other a name character.
                let kstar = off + l1;
                assert(kstar == j1.len());
                assert(r2[kstar] == j2[kstar] && j2[kstar] == n2[l1]);
                assert(n2[l1] != '/');
                if r1 == j1 {
                    assert(j1.last() == n1[l1 - 1]);
                    assert(!(r1.len() > 0 && r1.last() == '/'));
                    assert(r2[kstar] == '/');
                } else {
                    assert(strict_ancestor(j1, r1));
                    assert(j1.last() == n1[l1 - 1]);
                    assert(r1[kstar] == '/');
                    assert(r2[kstar] == r1[kstar]);
                }
            } else {
                let k = choose|k: int| 0 <= k < l1 && n1[k] != n2[k];
                assert(r1[off + k] == j1[off + k] && j1[off + k] == n1[k]);
                assert(r2[off + k] == j2[off + k] && j2[off + k] == n2[k]);
                assert(r2[off + k] == r1[off + k]);
            }
        } else {
            if forall|k: int| 0 <= k < l2 ==> n1[k] == n2[k] {
                // n2 is a proper prefix of n1.
                let kstar = off + l2;
                assert(kstar == j2.len());
                assert(kstar < j1.len());
                assert(r1[kstar] == j1[kstar] && j1[kstar] == n1[l2]);
                assert(n1[l2] != '/');
                assert(r2[kstar] == r1[kstar]);
                assert(r2.len() > r1.len() && r1.len() >= j1.len() && j1.len() > kstar);
                assert(r2 != j2);
                assert(strict_ancestor(j2, r2));
                assert(j2.last() == n2[l2 - 1]);
                assert(r2[kstar] == '/');
            } else {
                let k = choose|k: int| 0 <= k < l2 && n1[k] != n2[k];
                assert(r1[off + k] == j1[off + k] && j1[off + k] == n1[k]);
                assert(r2[off + k] == j2[off + k] && j2[off + k] == n2[k]);
                assert(r2[off + k] == r1[off + k]);
            }
        }
    }
}

/// Joins a directory path and an entry name with the separator.
pub fn join_path_str(base: &String, name: &String) -> (r: String)
    ensures
        r@ == join_path(base@, name@),
{
    let l = base.as_str().unicode_len();
    if l == 0 {
        return name.clone();
    }
    let last = base.as_str().get_char(l - 1);
    let mut r = base.clone();
    if last != '/' {
        proof {
            reveal_strlit("/");
        }
        r.append("/");
        proof {
            assert(r@ =~= base@ + seq!['/']);
        }
    }
    r.append(name.as_str());
    proof {
        if last == '/' {
            assert(r@ =~= base@ + name@);
        } else {
            assert(r@ =~= base@ + seq!['/'] + name@);
        }
    }
    r
}

/// A sequence of paths in normal form: strictly ascending, hence free of
/// duplicates.
pub open spec fn strictly_sorted(s: Seq<Seq<char>>) -> bool {
    forall|i: int, j: int| 0 <= i < j < s.len() ==> lex_lt(s[i], s[j])
}

/// The normal form is canonical: two strictly ascending sequences with the
/// same members are the same sequence.
pub proof fn lemma_sorted_dedup_canonical(s1: Seq<Seq<char>>, s2: Seq<Seq<char>>)
    requires
        strictly_sorted(s1),
        strictly_sorted(s2),
        forall|p: Seq<char>| s1.contains(p) <==> s2.contains(p),
    ensures
        s1 =~= s2,
    decreases s1.len(),
{
    if s1.len() == 0 {
        if s2.len() > 0 {
            assert(s1.contains(s2[0]));
        }
    } else if s2.len() == 0 {
        assert(s2.contains(s1[0]));
    } else {
        // The heads are both the unique minimum of the common member set.
        assert(s2.contains(s1[0]));
        let j1 = choose|j: int| 0 <= j < s2.len() && s2[j] == s1[0];
        assert(s1.contains(s2[0]));
        let i1 = choose|i: int| 0 <= i < s1.len() && s1[i] == s2[0];
        if j1 > 0 {
            assert(lex_lt(s2[0], s2[j1]));
        }
        if i1 > 0 {
            assert(lex_lt(s1[0], s1[i1]));
        }
        lemma_lex_lt_asymmetric(s1[0], s2[0]);
        lemma_lex_lt_irreflexive(s1[0]);
        assert(s1[0] == s2[0]);
        assert forall|p: Seq<char>| s1.skip(1).contains(p) implies s2.skip(1).contains(p) by {
            let k = choose|k: int| 0 <= k < s1.skip(1).len() && s1.skip(1)[k] == p;
            assert(s1[k + 1] == p);
            assert(s1.contains(p));
            assert(lex_lt(s1[0], p));
            assert(s2.contains(p));
            let k2 = choose|k2: int| 0 <= k2 < s2.len() && s2[k2] == p;
            lemma_lex_lt_irreflexive(p);
            assert(k2 > 0);
            assert(s2.skip(1)[k2 - 1] == p);
        }
        assert forall|p: Seq<char>| s2.skip(1).contains(p) implies s1.skip(1).contains(p) by {
            let k = choose|k: int| 0 <= k < s2.skip(1).len() && s2.skip(1)[k] == p;
            assert(s2[k + 1] == p);
            assert(s2.contains(p));
            assert(lex_lt(s2[0], p));
            assert(s1.contains(p));
            let k2 = choose|k2: int| 0 <= k2 < s1.len() && s1[k2] == p;
            lemma_lex_lt_irreflexive(p);
            assert(k2 > 0);
            assert(s1.skip(1)[k2 - 1] == p);
        }
        assert(strictly_sorted(s1.skip(1)));
        assert(strictly_sorted(s2.skip(1)));
        lemma_sorted_dedup_canonical(s1.skip(1), s2.skip(1));
        assert forall|i: int| 0 <= i < s1.len() implies s1[i] == s2[i] by {
            if i > 0 {
                assert(s1.skip(1)[i - 1] == s2.skip(1)[i - 1]);
                assert(s1.skip(1)[i - 1] == s1[i]);
                assert(s2.skip(1)[i - 1] == s2[i]);
            }
        }
        assert(s1.skip(1).len() == s2.skip(1).len());
    }
}

/// Index of the first element of `v` that is not below `x`, in a strictly
/// ascending `v`.
fn lower_bound(v: &Vec<String>, x: &str) -> (j: usize)
    requires
        strictly_sorted(v.deep_view()),
    ensures
        j <= v@.len(),
        forall|k: int| 0 <= k < j ==> lex_lt(v.deep_view()[k], x@),
        j < v@.len() ==> !lex_lt(v.deep_view()[j as int], x@),
{
    let mut j: usize = 0;
    while j < v.len()
        invariant
            j <= v@.len(),
            forall|k: int| 0 <= k < j ==> lex_lt(v.deep_view()[k], x@),
        decreases v@.len() - j,
    {
        if !str_lt(v[j].as_str(), x) {
            assert(v.deep_view()[j as int] == v@[j as int]@);
            return j;
        }
        assert(v.deep_view()[j as int] == v@[j as int]@);
        j = j + 1;
    }
    j
}

/// Inserts `x` into a strictly ascending list, keeping it ascending and
/// duplicate-free.
fn insert_unique_sorted(v: Vec<String>, x: String) -> (r: Vec<String>)
    requires
        strictly_sorted(v.deep_view()),
    ensures
        strictly_sorted(r.deep_view()),
        forall|p: Seq<char>|
            r.deep_view().contains(p) <==> (v.deep_view().contains(p) || p == x@),
{
    let j = lower_bound(&v, x.as_str());
    if j < v.len() && v[j] == x {
        proof {
            assert(v.deep_view()[j as int] == x@);
            assert(v.deep_view().contains(x@));
        }
        return v;
    }
    proof {
        if j < v@.len() {
            // Not below x and not equal to it: strictly above.
            assert(v.deep_view()[j as int] == v@[j as int]@);
            lemma_lex_lt_total(x@, v.deep_view()[j as int]);
            assert(lex_lt(x@, v.deep_view()[j as int]));
        }
    }
    let ghost vd = v.deep_view();
    let ghost jj = j as int;
    let mut r = v;
    r.insert(j, x);
    proof {
        let dv = r.deep_view();
        assert(dv.len() == vd.len() + 1);
        assert(forall|k: int| 0 <= k < jj ==> r@[k] == r@.subrange(0, jj).push(x)[k]);
        assert forall|k: int| 0 <= k < dv.len() implies dv[k] == (if k < jj {
            vd[k]
        } else if k == jj {
            x@
        } else {
            vd[k - 1]
        }) by {
            assert(dv[k] == r@[k]@);
            if k < jj {
                assert(r@[k] == v@[k]);
            } else if k > jj {
                assert(r@[k] == v@[k - 1]);
            }
        }
        assert forall|a: int, b: int| 0 <= a < b < dv.len() implies lex_lt(dv[a], dv[b]) by {
            if b < jj {
                assert(lex_lt(vd[a], vd[b]));
            } else if b == jj {
                assert(lex_lt(vd[a], x@));
            } else if a == jj {
                assert(lex_lt(x@, vd[jj]));
                if b - 1 > jj {
                    assert(lex_lt(vd[jj], vd[b - 1]));
                    lemma_lex_lt_transitive(x@, vd[jj], vd[b - 1]);
                }
            } else if a < jj {
                assert(lex_lt(vd[a], vd[b - 1]));
            } else {
                assert(lex_lt(vd[a - 1], vd[b - 1]));
            }
        }
        assert forall|p: Seq<char>| dv.contains(p) implies (vd.contains(p) || p == x@) by {
            let k = choose|k: int| 0 <= k < dv.len() && dv[k] == p;
            if k != jj {
                let k0 = if k < jj {
                    k
                } else {
                    k - 1
                };
                assert(vd[k0] == p);
            }
        }
        assert forall|p: Seq<char>| vd.contains(p) || p == x@ implies dv.contains(p) by {
            if p == x@ {
                assert(dv[jj] == p);
            } else {
                let k = choose|k: int| 0 <= k < vd.len() && vd[k] == p;
                let k1 = if k < jj {
                    k
                } else {
                    k + 1
                };
                assert(dv[k1] == p);
            }
        }
    }
    r
}

/// Normal form of a list of paths: sorted lexicographically with duplicates
/// removed. The members are kept exactly; only order and multiplicity change.
pub fn sort_dedup(v: Vec<String>) -> (r: Vec<String>)
    ensures
        strictly_sorted(r.deep_view()),
        forall|p: Seq<char>| r.deep_view().contains(p) <==> v.deep_view().contains(p),
{
    let mut out: Vec<String> = Vec::new();
    let mut i: usize = 0;
    proof {
        assert(out.deep_view() =~= Seq::<Seq<char>>::empty());
    }
    while i < v.len()
        invariant
            i <= v@.len(),
            strictly_sorted(out.deep_view()),
            forall|p: Seq<char>|
                out.deep_view().contains(p) <==> v.deep_view().take(i as int).contains(p),
        decreases v@.len() - i,
    {
        let ghost prev = out.deep_view();
        let x = v[i].clone();
        assert(x@ == v.deep_view()[i as int]);
        out = insert_unique_sorted(out, x);
        proof {
            let t1 = v.deep_view().take(i as int);
            let t2 = v.deep_view().take(i + 1);
            assert forall|p: Seq<char>| t2.contains(p) implies (t1.contains(p) || p
                == v.deep_view()[i as int]) by {
                let k = choose|k: int| 0 <= k < t2.len() && t2[k] == p;
                if k < i {
                    assert(t1[k] == p);
                }
            }
            assert forall|p: Seq<char>| t1.contains(p) || p == v.deep_view()[i as int] implies
                t2.contains(p) by {
                if p == v.deep_view()[i as int] {
                    assert(t2[i as int] == p);
                } else {
                    let k = choose|k: int| 0 <= k < t1.len() && t1[k] == p;
                    assert(t2[k] == p);
                }
            }
        }
        i = i + 1;
    }
    proof {
        assert(v.deep_view().take(v@.len() as int) =~= v.deep_view());
    }
    out
}

} // verus!
