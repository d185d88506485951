//! Table-of-contents construction.
//!
//! The hierarchy is determined by the parent relation: the parent of a
//! heading is the nearest preceding heading of strictly smaller level, and
//! a heading without one is a root.  Level jumps never fabricate
//! intermediate levels: a heading attaches to that nearest smaller-level
//! heading however large the jump.  The nested node tree is built from the
//! parent relation.

use vstd::prelude::*;
use crate::headings::SHeading;
use crate::model::{Heading, TocNode};

verus! {

/// Nearest `j` in `[0, j0]` with a level smaller than heading `i`'s.
pub open spec fn parent_search(hs: Seq<SHeading>, i: int, j: int) -> Option<int>
    decreases j + 1,
{
    if j < 0 {
        None
    } else if hs[j].level < hs[i].level {
        Some(j)
    } else {
        parent_search(hs, i, j - 1)
    }
}

/// The TOC parent of heading `i`: the nearest preceding heading of
/// strictly smaller level, if any.
pub open spec fn toc_parent(hs: Seq<SHeading>, i: int) -> Option<int> {
    parent_search(hs, i, i - 1)
}

proof fn lemma_parent_search_char(hs: Seq<SHeading>, i: int, j: int, a: int)
    requires
        j < hs.len(),
    ensures
        parent_search(hs, i, j) == Some(a) <==> (0 <= a <= j && hs[a].level < hs[i].level
            && forall|k: int| a < k <= j ==> (#[trigger] hs[k]).level >= hs[i].level),
    decreases j + 1,
{
    if j >= 0 && !(hs[j].level < hs[i].level) {
        lemma_parent_search_char(hs, i, j - 1, a);
    }
}

proof fn lemma_parent_search_none(hs: Seq<SHeading>, i: int, j: int)
    requires
        j < hs.len(),
    ensures
        parent_search(hs, i, j).is_none() <==> (forall|k: int|
            0 <= k <= j ==> (#[trigger] hs[k]).level >= hs[i].level),
    decreases j + 1,
{
    if j >= 0 && !(hs[j].level < hs[i].level) {
        lemma_parent_search_none(hs, i, j - 1);
    }
}

/// The TOC attachment rule: heading `b` attaches to heading `a` exactly
/// when `a` precedes `b` with a smaller level and every heading strictly
/// between them has level at least `b`'s; `b` is a root exactly when no
/// preceding heading has a smaller level.
pub proof fn lemma_toc_nesting(hs: Seq<SHeading>, b: int, a: int)
    requires
        0 <= b < hs.len(),
    ensures
        toc_parent(hs, b) == Some(a) <==> (0 <= a < b && hs[a].level < hs[b].level && forall|k: int|
            a < k < b ==> (#[trigger] hs[k]).level >= hs[b].level),
        toc_parent(hs, b).is_none() <==> (forall|k: int|
            0 <= k < b ==> (#[trigger] hs[k]).level >= hs[b].level),
{
    lemma_parent_search_char(hs, b, b - 1, a);
    lemma_parent_search_none(hs, b, b - 1);
}

/// `pv` is the executable image of the specification parent relation.
pub open spec fn parents_match(pv: Seq<Option<usize>>, hs: Seq<SHeading>) -> bool {
    &&& pv.len() == hs.len()
    &&& forall|k: int|
        0 <= k < hs.len() ==> (match #[trigger] pv[k] {
            Option::None => toc_parent(hs, k).is_none(),
            Option::Some(p) => toc_parent(hs, k) == Some(p as int),
        })
}

/// The parent relation as a sequence, determined by the headings alone.
pub open spec fn parents_of(hs: Seq<SHeading>) -> Seq<Option<usize>> {
    Seq::new(
        hs.len(),
        |i: int|
            match toc_parent(hs, i) {
                Option::None => Option::<usize>::None,
                Option::Some(p) => Option::Some(p as usize),
            },
    )
}

/// Any executable parent vector that matches the headings is exactly
/// `parents_of` of them.
pub proof fn lemma_parents_determined(pv: Seq<Option<usize>>, hs: Seq<SHeading>)
    requires
        parents_match(pv, hs),
    ensures
        pv == parents_of(hs),
{
    assert forall|k: int| 0 <= k < hs.len() implies pv[k] == parents_of(hs)[k] by {
        match pv[k] {
            Option::None => {},
            Option::Some(p) => {},
        }
    }
    assert(pv =~= parents_of(hs));
}

fn parent_search_x(headings: &Vec<Heading>, i: usize, j0: usize) -> (r: Option<usize>)
    requires
        i < headings@.len(),
        j0 <= i,
    ensures
        (match r {
            Option::None => parent_search(crate::headings::hviews(headings@), i as int, j0 - 1).is_none(),
            Option::Some(p) => parent_search(crate::headings::hviews(headings@), i as int, j0 - 1)
                == Some(p as int),
        }),
    decreases j0,
{
    if j0 == 0 {
        None
    } else {
        let j = j0 - 1;
        if headings[j].level < headings[i].level {
            Some(j)
        } else {
            parent_search_x(headings, i, j)
        }
    }
}

/// Computes the TOC parent of every heading: `None` marks a root.
pub fn toc_parents(headings: &Vec<Heading>) -> (r: Vec<Option<usize>>)
    ensures
        parents_match(r@, crate::headings::hviews(headings@)),
{
    let mut r: Vec<Option<usize>> = Vec::new();
    let n = headings.len();
    let mut i: usize = 0;
    while i < n
        invariant
            i <= n,
            n == headings@.len(),
            r@.len() == i,
            forall|k: int|
                0 <= k < i ==> (match #[trigger] r@[k] {
                    Option::None => toc_parent(crate::headings::hviews(headings@), k).is_none(),
                    Option::Some(p) => toc_parent(crate::headings::hviews(headings@), k) == Some(
                        p as int,
                    ),
                }),
        decreases n - i,
    {
        let p = parent_search_x(headings, i, i);
        r.push(p);
        i = i + 1;
    }
    r
}

/// The subtree rooted at `n` mirrors the parent relation `ps` exactly:
/// its children are precisely the headings whose parent is `n.heading`,
/// in increasing order, and each child subtree is well-formed in turn.
pub open spec fn node_wf(n: TocNode, ps: Seq<Option<usize>>) -> bool
    decreases n,
{
    &&& (n.heading as int) < ps.len()
    &&& (forall|k: int|
        0 <= k < n.children@.len() ==> n.heading < (#[trigger] n.children@[k]).heading
            && (n.children@[k].heading as int) < ps.len() && ps[n.children@[k].heading as int]
            == Some(n.heading) && node_wf(n.children@[k], ps))
    &&& (forall|k1: int, k2: int|
        0 <= k1 < k2 < n.children@.len() ==> (#[trigger] n.children@[k1]).heading
            < (#[trigger] n.children@[k2]).heading)
    &&& (forall|j: int|
        (n.heading as int) < j < ps.len() && ps[j] == Some(n.heading) ==> exists|k: int|
            0 <= k < n.children@.len() && (#[trigger] n.children@[k]).heading == j)
}

/// An edge of a well-formed TOC node is exactly the attachment rule: each
/// child heading has the node's heading as its nearest preceding heading
/// of strictly smaller level, and every heading strictly between them has
/// a level at least the child's.
pub proof fn lemma_tree_edge_is_nearest_smaller(hs: Seq<SHeading>, n: TocNode, k: int)
    requires
        hs.len() <= usize::MAX,
        node_wf(n, parents_of(hs)),
        0 <= k < n.children@.len(),
    ensures
        toc_parent(hs, n.children@[k].heading as int) == Some(n.heading as int),
        hs[n.heading as int].level < hs[n.children@[k].heading as int].level,
        forall|j: int|
            n.heading < j < n.children@[k].heading ==> (#[trigger] hs[j]).level
                >= hs[n.children@[k].heading as int].level,
{
    let c = n.children@[k].heading as int;
    assert(parents_of(hs)[c] == Some(n.heading));
    match toc_parent(hs, c) {
        Option::None => {
            assert(false);
        },
        Option::Some(p) => {
            lemma_parent_search_char(hs, c, c - 1, p);
            assert(0 <= p);
            assert(p as usize == n.heading);
            lemma_toc_nesting(hs, c, n.heading as int);
        },
    }
}

/// Builds the ordered child nodes of heading `p` from the parent relation.
///
/// Each returned node's heading index lies in `(p, n)`, carries `Some(p)`
/// in `parents`, and the nodes appear in increasing heading order with
/// none missing.
pub fn toc_children(parents: &Vec<Option<usize>>, p: usize) -> (r: Vec<TocNode>)
    requires
        p < parents@.len(),
    ensures
        forall|k: int|
            0 <= k < r@.len() ==> p < (#[trigger] r@[k]).heading < parents@.len()
                && parents@[r@[k].heading as int] == Some(p) && node_wf(r@[k], parents@),
        forall|k1: int, k2: int|
            0 <= k1 < k2 < r@.len() ==> (#[trigger] r@[k1]).heading < (#[trigger] r@[k2]).heading,
        forall|j: int|
            p < j < parents@.len() && parents@[j] == Some(p) ==> exists|k: int|
                0 <= k < r@.len() && (#[trigger] r@[k]).heading == j,
    decreases parents@.len() - p,
{
    let n = parents.len();
    let mut r: Vec<TocNode> = Vec::new();
    let mut i: usize = p + 1;
    while i < n
        invariant
            p < i <= n,
            n == parents@.len(),
            forall|k: int|
                0 <= k < r@.len() ==> p < (#[trigger] r@[k]).heading && (r@[k]).heading < i
                    && parents@[r@[k].heading as int] == Some(p) && node_wf(r@[k], parents@),
            forall|k1: int, k2: int|
                0 <= k1 < k2 < r@.len() ==> (#[trigger] r@[k1]).heading
                    < (#[trigger] r@[k2]).heading,
            forall|j: int|
                p < j < i && parents@[j] == Some(p) ==> exists|k: int|
                    0 <= k < r@.len() && (#[trigger] r@[k]).heading == j,
        decreases n - i,
    {
        let is_child = match parents[i] {
            Option::Some(q) => q == p,
            Option::None => false,
        };
        if is_child {
            let children = toc_children(parents, i);
            let ghost pre = r@;
            r.push(TocNode { heading: i, children });
            proof {
                assert(r@[pre.len() as int].heading == i);
                assert(node_wf(r@[pre.len() as int], parents@));
                assert forall|j: int|
                    p < j < i + 1 && parents@[j] == Some(p) implies exists|k: int|
                    0 <= k < r@.len() && (#[trigger] r@[k]).heading == j by {
                    if j < i {
                        let k = choose|k: int| 0 <= k < pre.len() && (#[trigger] pre[k]).heading == j;
                        assert(r@[k].heading == j);
                    } else {
                        assert(r@[pre.len() as int].heading == j);
                    }
                }
            }
        }
        i = i + 1;
    }
    r
}

/// Builds the TOC forest: one root node per heading without a parent,
/// in source order, children attached by the parent relation.
pub fn build_toc(parents: &Vec<Option<usize>>) -> (r: Vec<TocNode>)
    ensures
        forall|k: int|
            0 <= k < r@.len() ==> (#[trigger] r@[k]).heading < parents@.len()
                && parents@[r@[k].heading as int] is None && node_wf(r@[k], parents@),
        forall|k1: int, k2: int|
            0 <= k1 < k2 < r@.len() ==> (#[trigger] r@[k1]).heading < (#[trigger] r@[k2]).heading,
        forall|j: int|
            0 <= j < parents@.len() && parents@[j] is None ==> exists|k: int|
                0 <= k < r@.len() && (#[trigger] r@[k]).heading == j,
{
    let n = parents.len();
    let mut r: Vec<TocNode> = Vec::new();
    let mut i: usize = 0;
    while i < n
        invariant
            i <= n,
            n == parents@.len(),
            forall|k: int|
                0 <= k < r@.len() ==> (#[trigger] r@[k]).heading < i
                    && parents@[r@[k].heading as int] is None && node_wf(r@[k], parents@),
            forall|k1: int, k2: int|
                0 <= k1 < k2 < r@.len() ==> (#[trigger] r@[k1]).heading
                    < (#[trigger] r@[k2]).heading,
            forall|j: int|
                0 <= j < i && parents@[j] is None ==> exists|k: int|
                    0 <= k < r@.len() && (#[trigger] r@[k]).heading == j,
        decreases n - i,
    {
        let is_root = match parents[i] {
            Option::None => true,
            Option::Some(_) => false,
        };
        if is_root {
            let children = toc_children(parents, i);
            let ghost pre = r@;
            r.push(TocNode { heading: i, children });
            proof {
                assert(r@[pre.len() as int].heading == i);
                assert(node_wf(r@[pre.len() as int], parents@));
                assert forall|j: int|
                    0 <= j < i + 1 && parents@[j] is None implies exists|k: int|
                    0 <= k < r@.len() && (#[trigger] r@[k]).heading == j by {
                    if j < i {
                        let k = choose|k: int| 0 <= k < pre.len() && (#[trigger] pre[k]).heading == j;
                        assert(r@[k].heading == j);
                    } else {
                        assert(r@[pre.len() as int].heading == j);
                    }
                }
            }
        }
        i = i + 1;
    }
    r
}

} // verus!
