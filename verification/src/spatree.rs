//! **Spatree**: a linear bounding-volume hierarchy (LBVH) over axis-aligned
//! rectangles.
//!
//! Morton encoding maps 2D coordinates onto a 1D Z-order curve; sorting the
//! codes makes spatially close rectangles adjacent, which allows efficient
//! top-down hierarchy generation and a single backward sweep to refit the
//! internal bounding boxes.

use crate::geom::{spec_union, rect_wf, spec_encloses, Point, Rect};
use crate::morton::{find_split, morton_2d, sorted_by_code, MortonCode};
use vstd::pervasive::VecAdditionalExecFns;
use vstd::multiset::Multiset;
use vstd::prelude::*;

verus! {

/// A reference from an internal node to one of its two children: another
/// internal node, a leaf rectangle, or nothing.
#[derive(Debug, Clone, Copy, PartialEq, Eq, Hash, Structural)]
pub enum NodeRef {
    Internal(usize),
    Leaf(usize),
    Invalid,
}

/// An internal node of the hierarchy.
#[derive(Debug, Clone, Copy)]
pub struct Node {
    pub rect: Rect,
    pub parent: Option<usize>,
    pub children: [NodeRef; 2],
}

/// An opaque handle for an inserted rectangle: its insertion index.
#[derive(Debug, Clone, Copy, PartialEq, Eq, PartialOrd, Ord, Hash, Structural)]
pub struct RectId(pub usize);

impl RectId {
    /// The insertion index the handle stands for.
    pub fn into_inner(self) -> (r: usize)
        ensures
            r == self.0,
    {
        self.0
    }
}

/// The running union of a sequence of rectangles: the first rectangle,
/// grown by union with each later one; the zero rectangle when no
/// rectangle was pushed yet.
pub open spec fn bound_of(rects: Seq<Rect>) -> Rect
    decreases rects.len(),
{
    if rects.len() == 0 {
        Rect { x0: 0, y0: 0, x1: 0, y1: 0 }
    } else if rects.len() == 1 {
        rects[0]
    } else {
        spec_union(bound_of(rects.drop_last()), rects.last())
    }
}

/// The running union encloses every rectangle of the sequence.
pub proof fn lemma_bound_encloses(rects: Seq<Rect>)
    ensures
        forall|i: int| 0 <= i < rects.len() ==> spec_encloses(bound_of(rects), rects[i]),
    decreases rects.len(),
{
    if rects.len() > 0 {
        lemma_bound_encloses(rects.drop_last());
        assert forall|i: int| 0 <= i < rects.len() implies spec_encloses(
            bound_of(rects),
            rects[i],
        ) by {
            if rects.len() > 1 && i < rects.len() - 1 {
                assert(spec_encloses(bound_of(rects.drop_last()), rects.drop_last()[i]));
            }
        }
    }
}

/// Any rectangle that encloses every rectangle of the sequence encloses
/// their running union: together with `lemma_bound_encloses` the union is
/// the tight bound of what was pushed.
pub proof fn lemma_bound_minimal(rects: Seq<Rect>, outer: Rect)
    requires
        rects.len() > 0,
        forall|i: int| 0 <= i < rects.len() ==> spec_encloses(outer, rects[i]),
    ensures
        spec_encloses(outer, bound_of(rects)),
    decreases rects.len(),
{
    if rects.len() > 1 {
        assert forall|i: int| 0 <= i < rects.drop_last().len() implies spec_encloses(
            outer,
            rects.drop_last()[i],
        ) by {
            assert(rects.drop_last()[i] == rects[i]);
        }
        lemma_bound_minimal(rects.drop_last(), outer);
    }
}

/// Internal child references point strictly forward: an internal child of
/// node `i` has an index above `i` and below the node count.
pub open spec fn shape_ok_at(nodes: Seq<Node>, i: int, r: NodeRef) -> bool {
    match r {
        NodeRef::Internal(j) => i < j < nodes.len(),
        NodeRef::Leaf(l) => true,
        NodeRef::Invalid => true,
    }
}

/// Structural well-formedness of the node array.
pub open spec fn shape_ok(nodes: Seq<Node>) -> bool {
    forall|i: int| #![trigger nodes[i]]
        0 <= i < nodes.len() ==> shape_ok_at(nodes, i, nodes[i].children[0]) && shape_ok_at(
            nodes,
            i,
            nodes[i].children[1],
        )
}

/// The sequence of leaf indices reachable from a child reference, in
/// left-to-right order.
pub open spec fn subtree_leaves(nodes: Seq<Node>, r: NodeRef) -> Seq<int>
    decreases (match r {
        NodeRef::Internal(i) => nodes.len() - i,
        _ => 0,
    }),
    when shape_ok(nodes) && (r is Internal ==> 0 <= r->Internal_0 < nodes.len())
{
    match r {
        NodeRef::Leaf(l) => seq![l as int],
        NodeRef::Invalid => Seq::empty(),
        NodeRef::Internal(i) => subtree_leaves(nodes, nodes[i as int].children[0])
            + subtree_leaves(nodes, nodes[i as int].children[1]),
    }
}


/// Sorts Morton codes ascending by code with insertion sort; the records
/// are permuted, nothing else.
fn sort_codes(codes: &mut Vec<MortonCode>)
    ensures
        sorted_by_code(final (codes)@),
        final (codes)@.to_multiset() == old(codes)@.to_multiset(),
        final (codes)@.map_values(|c: MortonCode| c.index as int).to_multiset() == old(
            codes,
        )@.map_values(|c: MortonCode| c.index as int).to_multiset(),
        final (codes)@.len() == old(codes)@.len(),
{
    broadcast use vstd::seq_lib::to_multiset_update;
    broadcast use vstd::seq_lib::group_to_multiset_ensures;
    broadcast use vstd::multiset::group_multiset_axioms;

    let ghost pick = |c: MortonCode| c.index as int;
    let n = codes.len();
    if n < 2 {
        return;
    }
    let mut i: usize = 1;
    while i < n
        invariant
            n == codes@.len(),
            1 <= i <= n,
            codes@.to_multiset() == old(codes)@.to_multiset(),
            codes@.map_values(pick).to_multiset() == old(codes)@.map_values(pick).to_multiset(),
            pick == (|c: MortonCode| c.index as int),
            forall|p: int, q: int| 0 <= p < q < i ==> codes@[p].code <= codes@[q].code,
        decreases n - i,
    {
        let mut j: usize = i;
        while j > 0 && codes[j - 1].code > codes[j].code
            invariant
                n == codes@.len(),
                0 <= j <= i < n,
                codes@.to_multiset() == old(codes)@.to_multiset(),
                codes@.map_values(pick).to_multiset() == old(codes)@.map_values(
                    pick,
                ).to_multiset(),
                pick == (|c: MortonCode| c.index as int),
                forall|p: int, q: int|
                    0 <= p < q <= i && q != j ==> codes@[p].code <= codes@[q].code,
            decreases j,
        {
            let ghost before = codes@;
            let a = codes[j - 1];
            let b = codes[j];
            codes.set(j - 1, b);
            let ghost mid = codes@;
            codes.set(j, a);
            proof {
                let ji = j as int;
                vstd::seq_lib::to_multiset_update(before, ji - 1, b);
                vstd::seq_lib::to_multiset_update(mid, ji, a);
                assert(mid[ji] == before[ji]);
                assert(before.contains(a));
                assert(before.to_multiset().count(a) >= 1) by {
                    before.to_multiset_ensures();
                }
                assert(mid.to_multiset().count(b) >= 1) by {
                    mid.to_multiset_ensures();
                    assert(mid[ji] == b);
                    assert(mid.contains(b));
                }
                assert forall|x: MortonCode|
                    codes@.to_multiset().count(x) == before.to_multiset().count(x) by {}
                assert(codes@.to_multiset() =~= before.to_multiset());
                let bm = before.map_values(pick);
                let mm = mid.map_values(pick);
                let cm = codes@.map_values(pick);
                assert(mm =~= bm.update(ji - 1, pick(b)));
                assert(cm =~= mm.update(ji, pick(a)));
                vstd::seq_lib::to_multiset_update(bm, ji - 1, pick(b));
                vstd::seq_lib::to_multiset_update(mm, ji, pick(a));
                assert(mm[ji] == bm[ji]);
                assert(bm.to_multiset().count(pick(a)) >= 1) by {
                    bm.to_multiset_ensures();
                    assert(bm[ji - 1] == pick(a));
                    assert(bm.contains(pick(a)));
                }
                assert(mm.to_multiset().count(pick(b)) >= 1) by {
                    mm.to_multiset_ensures();
                    assert(mm[ji] == pick(b));
                    assert(mm.contains(pick(b)));
                }
                assert forall|x: int| cm.to_multiset().count(x) == bm.to_multiset().count(x) by {}
                assert(cm.to_multiset() =~= bm.to_multiset());
            }
            j = j - 1;
        }
        i = i + 1;
    }
}


/// Leaf indices reachable from subtrees are unchanged by edits at or above
/// `lo` and by appended nodes, as long as the children links from `lo` up
/// are kept.
pub proof fn lemma_leaves_stable(n1: Seq<Node>, n2: Seq<Node>, r: NodeRef, lo: int)
    requires
        shape_ok(n1),
        shape_ok(n2),
        n1.len() <= n2.len(),
        forall|t: int| lo <= t < n1.len() ==> n2[t].children == #[trigger] n1[t].children,
        r is Internal ==> lo <= r->Internal_0 < n1.len(),
    ensures
        subtree_leaves(n2, r) == subtree_leaves(n1, r),
    decreases (match r {
        NodeRef::Internal(i) => n1.len() - i,
        _ => 0,
    }),
{
    match r {
        NodeRef::Internal(i) => {
            let c0 = n1[i as int].children[0];
            let c1 = n1[i as int].children[1];
            assert(n2[i as int].children == n1[i as int].children);
            lemma_leaves_stable(n1, n2, c0, i + 1);
            lemma_leaves_stable(n1, n2, c1, i + 1);
        },
        _ => {},
    }
}

/// Whether the leaf children of a node all name indices of `codes` drawn
/// from positions `lo..=hi`.
pub open spec fn node_leaves_from(codes: Seq<MortonCode>, lo: int, hi: int, node: Node) -> bool {
    &&& (node.children[0] is Leaf ==> exists|k: int|
        lo <= k <= hi && #[trigger] codes[k].index == node.children[0]->Leaf_0)
    &&& (node.children[1] is Leaf ==> exists|k: int|
        lo <= k <= hi && #[trigger] codes[k].index == node.children[1]->Leaf_0)
}

/// A constructed internal node: both child slots are filled, and each
/// internal child's parent link points back at this node.
pub open spec fn node_linked(nodes: Seq<Node>, i: int) -> bool {
    &&& !(nodes[i].children[0] is Invalid)
    &&& !(nodes[i].children[1] is Invalid)
    &&& (nodes[i].children[0] is Internal ==> nodes[nodes[i].children[0]->Internal_0 as int].parent
        == Some(i as usize))
    &&& (nodes[i].children[1] is Internal ==> nodes[nodes[i].children[1]->Internal_0 as int].parent
        == Some(i as usize))
}

/// The leaf indices of a code range, in order.
pub open spec fn range_indices(codes: Seq<MortonCode>, lo: int, hi: int) -> Seq<int> {
    codes.subrange(lo, hi + 1).map_values(|c: MortonCode| c.index as int)
}

/// Builds the hierarchy for the sorted code range `[first, last]`,
/// appending the new internal nodes to `nodes` in pre-order, and returns
/// the reference that stands for the range: a leaf for a single code, else
/// the internal node that was allocated first.
#[verifier::rlimit(100)]
#[verifier::spinoff_prover]
fn build_range(codes: &[MortonCode], nodes: &mut Vec<Node>, first: usize, last: usize) -> (r:
    NodeRef)
    requires
        first <= last < codes@.len(),
        codes@.len() < usize::MAX / 2,
        shape_ok(old(nodes)@),
    ensures
        final (nodes)@.len() == old(nodes)@.len() + (last - first),
        forall|t: int| 0 <= t < old(nodes)@.len() ==> final (nodes)@[t] == old(nodes)@[t],
        shape_ok(final (nodes)@),
        first == last ==> r == NodeRef::Leaf(codes@[first as int].index),
        first < last ==> r == NodeRef::Internal(old(nodes)@.len() as usize),
        forall|i: int|
            old(nodes)@.len() <= i < final (nodes)@.len() ==> node_leaves_from(
                codes@,
                first as int,
                last as int,
                #[trigger] final (nodes)@[i],
            ),
        forall|i: int|
            old(nodes)@.len() <= i < final (nodes)@.len() ==> #[trigger] node_linked(
                final (nodes)@,
                i,
            ),
        first < last ==> final (nodes)@[old(nodes)@.len() as int].parent is None,
        subtree_leaves(final (nodes)@, r) == range_indices(codes@, first as int, last as int),
    decreases last - first,
{
    if first == last {
        let r = NodeRef::Leaf(codes[first].index);
        proof {
            assert(subtree_leaves(nodes@, r) =~= range_indices(codes@, first as int, last as int));
        }
        return r;
    }
    let k = nodes.len();
    let blank = Node {
        rect: Rect { x0: 0, y0: 0, x1: 0, y1: 0 },
        parent: None,
        children: [NodeRef::Invalid, NodeRef::Invalid],
    };
    nodes.push(blank);
    proof {
        assert(shape_ok(nodes@));
    }
    let split = find_split(codes, first, last);
    let left = build_range(codes, nodes, first, split);
    let ghost n_left = nodes@;
    let right = build_range(codes, nodes, split + 1, last);
    let ghost n_right = nodes@;
    let mut nk: Node = nodes[k];
    nk.children = [left, right];
    nodes.set(k, nk);
    match left {
        NodeRef::Internal(j) => {
            let mut nj: Node = nodes[j];
            nj.parent = Some(k);
            nodes.set(j, nj);
        },
        _ => {},
    }
    match right {
        NodeRef::Internal(j) => {
            let mut nj: Node = nodes[j];
            nj.parent = Some(k);
            nodes.set(j, nj);
        },
        _ => {},
    }
    let total = nodes.len();
    proof {
        let fin = nodes@;
        assert(fin.len() == total);
        assert(n_left.len() == k + 1 + (split - first));
        assert(fin.len() == n_left.len() + (last - split - 1));
        assert(first < split ==> left == NodeRef::Internal((k + 1) as usize) && k + 1
            < n_left.len());
        assert(first == split ==> left is Leaf);
        assert(split + 1 < last ==> right == NodeRef::Internal(n_left.len() as usize)
            && n_left.len() < fin.len());
        assert(split + 1 == last ==> right is Leaf);
        assert forall|i: int| 0 <= i < fin.len() implies shape_ok_at(fin, i, fin[i].children[0])
            && shape_ok_at(fin, i, fin[i].children[1]) by {
            if i == k {
                assert(fin[i].children[0] == left);
                assert(fin[i].children[1] == right);
                if first < split {
                    assert(left == NodeRef::Internal((k + 1) as usize));
                    assert(k < k + 1 < fin.len());
                    assert(shape_ok_at(fin, i, left));
                } else {
                    assert(first == split);
                    assert(left is Leaf);
                    assert(shape_ok_at(fin, i, left));
                }
                if split + 1 < last {
                    assert(right == NodeRef::Internal(n_left.len() as usize));
                    assert(k < n_left.len() < fin.len());
                    assert(shape_ok_at(fin, i, right));
                } else {
                    assert(right is Leaf);
                    assert(shape_ok_at(fin, i, right));
                }
            } else if i < n_left.len() {
                assert(fin[i].children == n_left[i].children);
                assert(shape_ok_at(n_left, i, n_left[i].children[0]));
                assert(shape_ok_at(n_left, i, n_left[i].children[1]));
                assert(n_left.len() <= fin.len());
            } else {
                assert(fin[i].children == n_right[i].children);
                assert(shape_ok_at(n_right, i, n_right[i].children[0]));
                assert(shape_ok_at(n_right, i, n_right[i].children[1]));
                assert(n_right.len() <= fin.len());
            }
        }
        assert(shape_ok(fin));
        assert forall|i: int| k + 1 <= i < fin.len() implies node_linked(fin, i) by {
            if i < n_left.len() {
                assert(node_linked(n_left, i));
                assert(fin[i].children == n_left[i].children);
                match n_left[i].children[0] {
                    NodeRef::Internal(j) => {
                        assert(i < j < n_left.len());
                        assert(fin[j as int].parent == n_left[j as int].parent);
                    },
                    _ => {},
                }
                match n_left[i].children[1] {
                    NodeRef::Internal(j) => {
                        assert(i < j < n_left.len());
                        assert(fin[j as int].parent == n_left[j as int].parent);
                    },
                    _ => {},
                }
            } else {
                assert(node_linked(n_right, i));
                assert(fin[i].children == n_right[i].children);
                match n_right[i].children[0] {
                    NodeRef::Internal(j) => {
                        assert(i < j < n_right.len());
                        assert(fin[j as int].parent == n_right[j as int].parent);
                    },
                    _ => {},
                }
                match n_right[i].children[1] {
                    NodeRef::Internal(j) => {
                        assert(i < j < n_right.len());
                        assert(fin[j as int].parent == n_right[j as int].parent);
                    },
                    _ => {},
                }
            }
        }
        assert(node_linked(fin, k as int)) by {
            assert(fin[k as int].children[0] == left);
            assert(fin[k as int].children[1] == right);
            if first < split {
                assert(left == NodeRef::Internal((k + 1) as usize));
                assert(fin[(k + 1) as int].parent == Some(k as usize));
            }
            if split + 1 < last {
                assert(right == NodeRef::Internal(n_left.len() as usize));
                assert(fin[n_left.len() as int].parent == Some(k as usize));
            }
        }
        assert(fin[k as int].parent is None);
        assert forall|t: int| k + 1 <= t < n_left.len() implies fin[t].children == n_left[t].children by {}
        lemma_leaves_stable(n_left, fin, left, k + 1);
        assert forall|t: int| n_left.len() <= t < n_right.len() implies fin[t].children
            == n_right[t].children by {}
        lemma_leaves_stable(n_right, fin, right, n_left.len() as int);
        assert(subtree_leaves(n_right, left) == subtree_leaves(n_left, left)) by {
            lemma_leaves_stable(n_left, n_right, left, k + 1);
        }
        assert(subtree_leaves(fin, NodeRef::Internal(k as usize)) == subtree_leaves(fin, left)
            + subtree_leaves(fin, right));
        assert(range_indices(codes@, first as int, last as int) =~= range_indices(
            codes@,
            first as int,
            split as int,
        ) + range_indices(codes@, split as int + 1, last as int));
        assert forall|i: int| old(nodes)@.len() <= i < fin.len() implies node_leaves_from(
            codes@,
            first as int,
            last as int,
            #[trigger] fin[i],
        ) by {
            if i == k {
                if left is Leaf {
                    assert(codes@[first as int].index == left->Leaf_0);
                }
                if right is Leaf {
                    assert(codes@[(split + 1) as int].index == right->Leaf_0);
                }
            } else if i < n_left.len() {
                assert(node_leaves_from(codes@, first as int, split as int, n_left[i]));
                assert(fin[i].children == n_left[i].children);
            } else {
                assert(node_leaves_from(codes@, split as int + 1, last as int, n_right[i]));
                assert(fin[i].children == n_right[i].children);
            }
        }
    }
    NodeRef::Internal(k)
}

/// Top-down hierarchy construction over sorted Morton codes: a binary tree
/// whose in-order leaves are the codes' indices in code order, with `N - 1`
/// internal nodes for `N` codes, allocated in pre-order so that children
/// always have higher indices than their parents.
pub fn generate_hierarchy(codes: &[MortonCode]) -> (r: Vec<Node>)
    requires
        codes@.len() < usize::MAX / 2,
    ensures
        codes@.len() <= 1 ==> r@.len() == 0,
        codes@.len() >= 2 ==> {
            &&& r@.len() == codes@.len() - 1
            &&& shape_ok(r@)
            &&& subtree_leaves(r@, NodeRef::Internal(0)) == codes@.map_values(
                |c: MortonCode| c.index as int,
            )
            &&& forall|i: int|
                0 <= i < r@.len() ==> node_leaves_from(
                    codes@,
                    0,
                    codes@.len() - 1,
                    #[trigger] r@[i],
                )
            &&& forall|i: int| 0 <= i < r@.len() ==> #[trigger] node_linked(r@, i)
            &&& r@[0].parent is None
        },
{
    let len = codes.len();
    let mut internal_nodes: Vec<Node> = Vec::new();
    if len <= 1 {
        return internal_nodes;
    }
    let root = build_range(codes, &mut internal_nodes, 0, len - 1);
    proof {
        assert(range_indices(codes@, 0, codes@.len() - 1) =~= codes@.map_values(
            |c: MortonCode| c.index as int,
        ));
    }
    internal_nodes
}


/// The rectangle a child reference stands for: a leaf's stored rectangle,
/// an internal node's bounding box, or the zero rectangle.
pub open spec fn child_rect(nodes: Seq<Node>, rects: Seq<Rect>, r: NodeRef) -> Rect {
    match r {
        NodeRef::Leaf(l) => rects[l as int],
        NodeRef::Internal(j) => nodes[j as int].rect,
        NodeRef::Invalid => Rect { x0: 0, y0: 0, x1: 0, y1: 0 },
    }
}

/// Leaf children name one of the `n` stored rectangles.
pub open spec fn leaf_refs_ok(nodes: Seq<Node>, n: int) -> bool {
    forall|i: int| #![trigger nodes[i]]
        0 <= i < nodes.len() ==> (nodes[i].children[0] is Leaf ==> 0 <= nodes[i].children[0]->Leaf_0
            < n) && (nodes[i].children[1] is Leaf ==> 0 <= nodes[i].children[1]->Leaf_0 < n)
}

/// A node's bounding box is exactly the union of its two children's.
pub open spec fn refitted_at(nodes: Seq<Node>, rects: Seq<Rect>, i: int) -> bool {
    nodes[i].rect == spec_union(
        child_rect(nodes, rects, nodes[i].children[0]),
        child_rect(nodes, rects, nodes[i].children[1]),
    )
}

/// After a refit, every node's bounding box encloses every leaf rectangle
/// in its subtree.
pub proof fn lemma_refit_containment(nodes: Seq<Node>, rects: Seq<Rect>, r: NodeRef)
    requires
        shape_ok(nodes),
        leaf_refs_ok(nodes, rects.len() as int),
        forall|i: int| 0 <= i < nodes.len() ==> #[trigger] refitted_at(nodes, rects, i),
        r is Internal ==> 0 <= r->Internal_0 < nodes.len(),
        r is Leaf ==> 0 <= r->Leaf_0 < rects.len(),
    ensures
        forall|t: int|
            0 <= t < subtree_leaves(nodes, r).len() ==> 0 <= #[trigger] subtree_leaves(nodes, r)[t]
                < rects.len() && spec_encloses(
                child_rect(nodes, rects, r),
                rects[subtree_leaves(nodes, r)[t]],
            ),
    decreases (match r {
        NodeRef::Internal(i) => nodes.len() - i,
        _ => 0,
    }),
{
    match r {
        NodeRef::Internal(i) => {
            let ii = i as int;
            let c0 = nodes[ii].children[0];
            let c1 = nodes[ii].children[1];
            lemma_refit_containment(nodes, rects, c0);
            lemma_refit_containment(nodes, rects, c1);
            assert(refitted_at(nodes, rects, ii));
            let left = subtree_leaves(nodes, c0);
            let right = subtree_leaves(nodes, c1);
            assert(subtree_leaves(nodes, r) == left + right);
            crate::geom::lemma_union_encloses(
                child_rect(nodes, rects, c0),
                child_rect(nodes, rects, c1),
            );
            assert forall|t: int| 0 <= t < subtree_leaves(nodes, r).len() implies 0
                <= #[trigger] subtree_leaves(nodes, r)[t] < rects.len() && spec_encloses(
                child_rect(nodes, rects, r),
                rects[subtree_leaves(nodes, r)[t]],
            ) by {
                if t < left.len() {
                    assert(subtree_leaves(nodes, r)[t] == left[t]);
                    crate::geom::lemma_encloses_transitive(
                        nodes[ii].rect,
                        child_rect(nodes, rects, c0),
                        rects[left[t]],
                    );
                } else {
                    assert(subtree_leaves(nodes, r)[t] == right[t - left.len()]);
                    crate::geom::lemma_encloses_transitive(
                        nodes[ii].rect,
                        child_rect(nodes, rects, c1),
                        rects[right[t - left.len()]],
                    );
                }
            }
        },
        _ => {},
    }
}

/// A target for the built-in hit tests.
pub enum HitTest {
    ContainsPoint(Point),
    OverlapsRect(Rect),
}

/// **Spatree** state: the inserted rectangles, their accumulated bound, and
/// the internal nodes of the last build.
pub struct Spatree {
    global_bound: Rect,
    rects: Vec<Rect>,
    nodes: Vec<Node>,
}

impl Spatree {
    /// The inserted rectangles, in insertion order.
    pub closed spec fn spec_rects(self) -> Seq<Rect> {
        self.rects@
    }

    /// The internal nodes of the hierarchy.
    pub closed spec fn spec_nodes(self) -> Seq<Node> {
        self.nodes@
    }

    /// The accumulated global bound.
    pub closed spec fn spec_bound(self) -> Rect {
        self.global_bound
    }

    /// Basic consistency: every inserted rectangle is well-formed, the
    /// global bound is their running union, and the node array points only
    /// forward and at stored rectangles.
    pub open spec fn wf(self) -> bool {
        &&& self.spec_bound() == bound_of(self.spec_rects())
        &&& forall|i: int| 0 <= i < self.spec_rects().len() ==> rect_wf(#[trigger] self.spec_rects()[i])
        &&& shape_ok(self.spec_nodes())
        &&& leaf_refs_ok(self.spec_nodes(), self.spec_rects().len() as int)
        &&& (self.spec_nodes().len() > 0 ==> subtree_leaves(
            self.spec_nodes(),
            NodeRef::Internal(0),
        ).no_duplicates())
    }

    /// The hierarchy matches the rectangles: well-shaped, one internal node
    /// fewer than there are leaves, the root's leaves are exactly the
    /// rectangle indices, and every node's box encloses its subtree.
    pub open spec fn tree_ok(self) -> bool {
        let nodes = self.spec_nodes();
        let rects = self.spec_rects();
        &&& shape_ok(nodes)
        &&& leaf_refs_ok(nodes, rects.len() as int)
        &&& nodes.len() + 1 == rects.len()
        &&& subtree_leaves(nodes, NodeRef::Internal(0)).no_duplicates()
        &&& subtree_leaves(nodes, NodeRef::Internal(0)).to_set() =~= Set::new(
            |l: int| 0 <= l < rects.len(),
        )
        &&& forall|i: int| 0 <= i < nodes.len() ==> #[trigger] refitted_at(nodes, rects, i)
    }

    /// Queries answer when the hierarchy matches the rectangles, or when
    /// there is no hierarchy at all: then only a single stored rectangle is
    /// tested directly, and nothing is emitted otherwise.
    pub open spec fn query_ready(self) -> bool {
        self.spec_nodes().len() == 0 || self.tree_ok()
    }

    /// What a query answers when no hierarchy is built: the one stored
    /// rectangle if it alone exists and passes the test, else nothing.
    pub open spec fn degenerate_hits(self, hit: bool) -> Seq<RectId> {
        if self.spec_rects().len() == 1 && hit {
            seq![RectId(0usize)]
        } else {
            Seq::<RectId>::empty()
        }
    }

    /// Creates a new empty tree.
    pub fn new() -> (r: Self)
        ensures
            r.wf(),
            r.spec_rects() =~= Seq::<Rect>::empty(),
            r.spec_nodes() =~= Seq::<Node>::empty(),
            r.query_ready(),
    {
        Spatree {
            global_bound: Rect { x0: 0, y0: 0, x1: 0, y1: 0 },
            rects: Vec::new(),
            nodes: Vec::new(),
        }
    }

    /// Pushes a rectangle, fits the global bound around it (the bound is
    /// the tight union of everything pushed so far), and returns the new id
    /// (the insertion index). A build is required before queries see the
    /// new rectangle through the hierarchy.
    pub fn push_rect(&mut self, rect: Rect) -> (id: RectId)
        requires
            old(self).wf(),
            rect_wf(rect),
        ensures
            final (self).wf(),
            id == RectId(old(self).spec_rects().len() as usize),
            final (self).spec_rects() == old(self).spec_rects().push(rect),
            final (self).spec_bound() == (if old(self).spec_rects().len() == 0 {
                rect
            } else {
                spec_union(old(self).spec_bound(), rect)
            }),
            final (self).spec_nodes() == old(self).spec_nodes(),
    {
        let index = self.rects.len();
        if index == 0 {
            self.global_bound = rect;
        } else {
            self.global_bound = self.global_bound.union(rect);
        }
        self.rects.push(rect);
        proof {
            assert(self.rects@.drop_last() =~= old(self).rects@);
        }
        RectId(index)
    }

    /// The rectangle for an id, if the id was ever issued.
    pub fn get_rect(&self, id: RectId) -> (r: Option<&Rect>)
        ensures
            match r {
                Some(rect) => id.0 < self.spec_rects().len() && *rect == self.spec_rects()[id.0 as int],
                None => id.0 >= self.spec_rects().len(),
            },
    {
        self.rects.get(id.0)
    }

    /// The number of internal nodes of the hierarchy.
    pub fn node_count(&self) -> (r: usize)
        ensures
            r == self.spec_nodes().len(),
    {
        self.nodes.len()
    }

    /// The root node's bounding box, if a hierarchy was built.
    pub fn root_rect(&self) -> (r: Option<Rect>)
        ensures
            match r {
                Some(rect) => self.spec_nodes().len() > 0 && rect == self.spec_nodes()[0].rect,
                None => self.spec_nodes().len() == 0,
            },
    {
        if self.nodes.len() > 0 {
            Some(self.nodes[0].rect)
        } else {
            None
        }
    }

    /// The global bounding box accumulated by `push_rect`.
    pub fn global_bound(&self) -> (r: &Rect)
        ensures
            *r == self.spec_bound(),
    {
        &self.global_bound
    }
}


impl Spatree {
    /// The rectangle a child reference stands for, read from the tree.
    fn child_rect_exec(&self, r: NodeRef) -> (out: Rect)
        requires
            r is Internal ==> 0 <= r->Internal_0 < self.spec_nodes().len(),
            r is Leaf ==> 0 <= r->Leaf_0 < self.spec_rects().len(),
        ensures
            out == child_rect(self.spec_nodes(), self.spec_rects(), r),
    {
        match r {
            NodeRef::Leaf(l) => self.rects[l],
            NodeRef::Internal(j) => self.nodes[j].rect,
            NodeRef::Invalid => Rect { x0: 0, y0: 0, x1: 0, y1: 0 },
        }
    }

    /// Recomputes every internal node's bounding box as the union of its
    /// two children's boxes. Children always have higher indices than their
    /// parents, so one backward sweep refits the whole tree bottom-up.
    fn calculate_internal_bounds(&mut self)
        requires
            shape_ok(old(self).spec_nodes()),
            leaf_refs_ok(old(self).spec_nodes(), old(self).spec_rects().len() as int),
        ensures
            final (self).spec_rects() == old(self).spec_rects(),
            final (self).spec_bound() == old(self).spec_bound(),
            final (self).spec_nodes().len() == old(self).spec_nodes().len(),
            forall|t: int|
                0 <= t < old(self).spec_nodes().len() ==> #[trigger] final (self).spec_nodes()[t].children
                    == old(self).spec_nodes()[t].children && final (self).spec_nodes()[t].parent
                    == old(self).spec_nodes()[t].parent,
            forall|t: int|
                0 <= t < old(self).spec_nodes().len() ==> #[trigger] refitted_at(
                    final (self).spec_nodes(),
                    final (self).spec_rects(),
                    t,
                ),
            shape_ok(final (self).spec_nodes()),
            leaf_refs_ok(final (self).spec_nodes(), final (self).spec_rects().len() as int),
    {
        let len = self.nodes.len();
        let mut i: usize = len;
        while i > 0
            invariant
                len == self.spec_nodes().len(),
                0 <= i <= len,
                self.spec_rects() == old(self).spec_rects(),
                self.spec_bound() == old(self).spec_bound(),
                forall|t: int|
                    0 <= t < len ==> #[trigger] self.spec_nodes()[t].children == old(
                        self,
                    ).spec_nodes()[t].children && self.spec_nodes()[t].parent == old(
                        self,
                    ).spec_nodes()[t].parent,
                forall|t: int|
                    i <= t < len ==> #[trigger] refitted_at(
                        self.spec_nodes(),
                        self.spec_rects(),
                        t,
                    ),
                shape_ok(self.spec_nodes()),
                leaf_refs_ok(self.spec_nodes(), self.spec_rects().len() as int),
            decreases i,
        {
            i = i - 1;
            let ghost pre = self.spec_nodes();
            let node: Node = self.nodes[i];
            let r0 = self.child_rect_exec(node.children[0]);
            let r1 = self.child_rect_exec(node.children[1]);
            let mut nk = node;
            nk.rect = r0.union(r1);
            self.nodes.set(i, nk);
            proof {
                let cur = self.spec_nodes();
                assert forall|t: int| i <= t < len implies #[trigger] refitted_at(
                    cur,
                    self.spec_rects(),
                    t,
                ) by {
                    if t == i {
                        assert(cur[t].children == pre[t as int].children);
                        assert(shape_ok_at(pre, t, pre[t].children[0]));
                        assert(shape_ok_at(pre, t, pre[t].children[1]));
                        assert(child_rect(cur, self.spec_rects(), cur[t].children[0]) == child_rect(
                            pre,
                            self.spec_rects(),
                            pre[t].children[0],
                        ));
                        assert(child_rect(cur, self.spec_rects(), cur[t].children[1]) == child_rect(
                            pre,
                            self.spec_rects(),
                            pre[t].children[1],
                        ));
                    } else {
                        assert(refitted_at(pre, self.spec_rects(), t));
                        assert(cur[t] == pre[t]);
                        assert(shape_ok_at(pre, t, pre[t].children[0]));
                        assert(shape_ok_at(pre, t, pre[t].children[1]));
                        assert(child_rect(cur, self.spec_rects(), cur[t].children[0]) == child_rect(
                            pre,
                            self.spec_rects(),
                            pre[t].children[0],
                        ));
                        assert(child_rect(cur, self.spec_rects(), cur[t].children[1]) == child_rect(
                            pre,
                            self.spec_rects(),
                            pre[t].children[1],
                        ));
                    }
                }
            }
        }
    }
}

/// Scales a coordinate in `[0, extent]` to the 16-bit Morton grid: values
/// outside the range are clamped, values inside are mapped by
/// `v * 65535 / extent`, truncated.
pub open spec fn spec_scale(v: int, extent: int) -> u16 {
    if v <= 0 {
        0u16
    } else if v >= extent {
        65535u16
    } else {
        ((v * 65535) / extent) as u16
    }
}

fn scale_coord(v: i64, extent: i64) -> (r: u16)
    requires
        extent > 0,
    ensures
        r == spec_scale(v as int, extent as int),
{
    if v <= 0 {
        0
    } else if v >= extent {
        65535
    } else {
        let wide: u128 = (v as u128) * 65535 / (extent as u128);
        proof {
            let vi = v as int;
            let ei = extent as int;
            assert(vi * 65535 < ei * 65535) by (nonlinear_arith)
                requires
                    0 < vi < ei,
            ;
            assert(vi * 65535 / ei < 65535) by (nonlinear_arith)
                requires
                    0 < ei,
                    vi * 65535 < ei * 65535,
                    vi * 65535 >= 0,
            ;
            assert(vi * 65535 >= 0) by (nonlinear_arith)
                requires
                    vi > 0,
            ;
        }
        wide as u16
    }
}


impl Spatree {
    /// Constructs the spatial hierarchy (LBVH) from the current set of
    /// rectangles.
    ///
    /// `point_from_rect` picks the representative point of each rectangle
    /// (for example its center) used for Morton encoding. When the global
    /// bound has zero area, or at most one rectangle was inserted, the node
    /// array is left empty and queries test the rectangles directly.
    pub fn build<F: Fn(&Rect) -> Point>(&mut self, point_from_rect: F)
        requires
            old(self).wf(),
            old(self).spec_rects().len() < usize::MAX / 2,
            old(self).spec_bound().x1 - old(self).spec_bound().x0 <= i64::MAX,
            old(self).spec_bound().y1 - old(self).spec_bound().y0 <= i64::MAX,
            forall|r: &Rect| #[trigger] call_requires(point_from_rect, (r,)),
        ensures
            final (self).wf(),
            final (self).spec_rects() == old(self).spec_rects(),
            final (self).spec_bound() == old(self).spec_bound(),
            final (self).query_ready(),
            (old(self).spec_bound().x1 == old(self).spec_bound().x0 || old(self).spec_bound().y1
                == old(self).spec_bound().y0 || old(self).spec_rects().len() <= 1) ==> final (
            self).spec_nodes().len() == 0,
            (old(self).spec_bound().x1 != old(self).spec_bound().x0 && old(self).spec_bound().y1
                != old(self).spec_bound().y0 && old(self).spec_rects().len() >= 2) ==> final (
            self).spec_nodes().len() == old(self).spec_rects().len() - 1 && final (self).tree_ok(),
    {
        proof {
            lemma_bound_encloses(self.spec_rects());
        }
        let width = self.global_bound.x1 - self.global_bound.x0;
        let height = self.global_bound.y1 - self.global_bound.y0;
        // A zero-area bound gives no meaningful spatial ordering: leave the
        // tree empty.
        if width == 0 || height == 0 {
            self.nodes = Vec::new();
            return;
        }
        let n = self.rects.len();
        let ghost pick = |c: MortonCode| c.index as int;
        let ghost ident = Seq::new(n as nat, |k: int| k);
        let mut codes: Vec<MortonCode> = Vec::new();
        let mut idx: usize = 0;
        while idx < n
            invariant
                n == self.spec_rects().len(),
                codes@.len() == idx,
                idx <= n,
                width > 0,
                height > 0,
                forall|k: int| 0 <= k < idx ==> #[trigger] codes@[k].index == k,
                forall|r: &Rect| #[trigger] call_requires(point_from_rect, (r,)),
            decreases n - idx,
        {
            let rect: Rect = self.rects[idx];
            let point = point_from_rect(&rect);
            let x = scale_coord(point.x, width);
            let y = scale_coord(point.y, height);
            let code = crate::morton::morton_2d(x, y);
            codes.push(MortonCode { code, index: idx });
            idx = idx + 1;
        }
        proof {
            assert(codes@.map_values(pick) =~= ident);
        }
        sort_codes(&mut codes);
        let hierarchy = generate_hierarchy(codes.as_slice());
        self.nodes = hierarchy;
        if self.nodes.len() == 0 {
            return;
        }
        proof {
            let nodes = self.spec_nodes();
            let sorted_ix = codes@.map_values(pick);
            ident.lemma_multiset_has_no_duplicates();
            assert(sorted_ix.to_multiset() == ident.to_multiset());
            sorted_ix.to_multiset_ensures();
            ident.to_multiset_ensures();
            assert forall|x: int| sorted_ix.to_multiset().contains(x) implies sorted_ix.to_multiset().count(x) == 1 by {
                assert(ident.to_multiset().count(x) >= 1);
                assert(ident.contains(x));
            }
            sorted_ix.lemma_multiset_has_no_duplicates_conv();
            assert(subtree_leaves(nodes, NodeRef::Internal(0)) == sorted_ix);
            assert(sorted_ix.to_set() =~= Set::new(|l: int| 0 <= l < n as int)) by {
                assert forall|l: int| sorted_ix.to_set().contains(l) implies 0 <= l < n as int by {
                    assert(sorted_ix.contains(l));
                    assert(sorted_ix.to_multiset().count(l) >= 1);
                    assert(ident.contains(l));
                }
                assert forall|l: int| 0 <= l < n as int implies sorted_ix.to_set().contains(l) by {
                    assert(ident[l] == l);
                    assert(ident.contains(l));
                    assert(ident.to_multiset().count(l) >= 1);
                    assert(sorted_ix.to_multiset().count(l) >= 1);
                    assert(sorted_ix.contains(l));
                }
            }
            assert forall|i: int| #![trigger nodes[i]] 0 <= i < nodes.len() implies (
            nodes[i].children[0] is Leaf ==> 0 <= nodes[i].children[0]->Leaf_0 < n)
                && (nodes[i].children[1] is Leaf ==> 0 <= nodes[i].children[1]->Leaf_0 < n) by {
                assert(node_leaves_from(codes@, 0, codes@.len() - 1, nodes[i]));
                if nodes[i].children[0] is Leaf {
                    let k = choose|k: int|
                        0 <= k <= codes@.len() - 1 && #[trigger] codes@[k].index
                            == nodes[i].children[0]->Leaf_0;
                    assert(sorted_ix[k] == codes@[k].index as int);
                    assert(sorted_ix.contains(codes@[k].index as int));
                    assert(sorted_ix.to_multiset().count(codes@[k].index as int) >= 1);
                    assert(ident.contains(codes@[k].index as int));
                }
                if nodes[i].children[1] is Leaf {
                    let k = choose|k: int|
                        0 <= k <= codes@.len() - 1 && #[trigger] codes@[k].index
                            == nodes[i].children[1]->Leaf_0;
                    assert(sorted_ix[k] == codes@[k].index as int);
                    assert(sorted_ix.contains(codes@[k].index as int));
                    assert(sorted_ix.to_multiset().count(codes@[k].index as int) >= 1);
                    assert(ident.contains(codes@[k].index as int));
                }
            }
            assert(leaf_refs_ok(nodes, n as int));
        }
        let ghost pre_refit = self.spec_nodes();
        self.calculate_internal_bounds();
        proof {
            assert forall|t: int| 0 <= t < pre_refit.len() implies self.spec_nodes()[t].children
                == #[trigger] pre_refit[t].children by {}
            lemma_leaves_stable(pre_refit, self.spec_nodes(), NodeRef::Internal(0), 0);
            assert(subtree_leaves(self.spec_nodes(), NodeRef::Internal(0)) == codes@.map_values(
                pick,
            ));
        }
    }
}


/// The insertion indices behind a sequence of rectangle ids.
pub open spec fn ids_of(s: Seq<RectId>) -> Seq<int> {
    s.map_values(|r: RectId| r.0 as int)
}

/// What a built-in hit test means for a rectangle.
pub open spec fn spec_ht(ht: HitTest, r: Rect) -> bool {
    match ht {
        HitTest::ContainsPoint(p) => crate::geom::spec_contains(r, p),
        HitTest::OverlapsRect(t) => crate::geom::spec_overlaps(r, t),
    }
}

fn eval_ht(ht: &HitTest, r: &Rect) -> (out: bool)
    ensures
        out == spec_ht(*ht, *r),
{
    match ht {
        HitTest::ContainsPoint(p) => r.contains(*p),
        HitTest::OverlapsRect(t) => r.overlaps(*t),
    }
}

/// The number of references in a subtree, counting internal nodes and
/// leaves.
pub open spec fn subtree_size(nodes: Seq<Node>, r: NodeRef) -> int
    decreases (match r {
        NodeRef::Internal(i) => nodes.len() - i,
        _ => 0,
    }),
    when shape_ok(nodes) && (r is Internal ==> 0 <= r->Internal_0 < nodes.len())
{
    match r {
        NodeRef::Leaf(l) => 1,
        NodeRef::Invalid => 0,
        NodeRef::Internal(i) => 1 + subtree_size(nodes, nodes[i as int].children[0])
            + subtree_size(nodes, nodes[i as int].children[1]),
    }
}

/// Subtree sizes are nonnegative.
pub proof fn lemma_subtree_size_nonneg(nodes: Seq<Node>, r: NodeRef)
    requires
        shape_ok(nodes),
        r is Internal ==> 0 <= r->Internal_0 < nodes.len(),
    ensures
        subtree_size(nodes, r) >= 0,
    decreases (match r {
        NodeRef::Internal(i) => nodes.len() - i,
        _ => 0,
    }),
{
    match r {
        NodeRef::Internal(i) => {
            lemma_subtree_size_nonneg(nodes, nodes[i as int].children[0]);
            lemma_subtree_size_nonneg(nodes, nodes[i as int].children[1]);
        },
        _ => {},
    }
}

/// The total size of the subtrees on an index stack.
pub open spec fn stack_sizes(nodes: Seq<Node>, st: Seq<usize>) -> int
    decreases st.len(),
{
    if st.len() == 0 {
        0
    } else {
        subtree_size(nodes, NodeRef::Internal(st.last())) + stack_sizes(nodes, st.drop_last())
    }
}

/// The leaves of the subtrees on an index stack, as a multiset.
pub open spec fn stack_ms(nodes: Seq<Node>, st: Seq<usize>) -> Multiset<int>
    decreases st.len(),
{
    if st.len() == 0 {
        Multiset::empty()
    } else {
        subtree_leaves(nodes, NodeRef::Internal(st.last())).to_multiset().add(
            stack_ms(nodes, st.drop_last()),
        )
    }
}

impl Spatree {
    /// The shared traversal behind the exact queries: a pruning DFS from
    /// the root, or a direct test of the single rectangle when there is no
    /// hierarchy.
    fn run_query(&self, ht: &HitTest) -> (res: Vec<RectId>)
        requires
            self.wf(),
            self.query_ready(),
        ensures
            ids_of(res@).no_duplicates(),
            forall|t: int|
                0 <= t < res@.len() ==> 0 <= #[trigger] res@[t].0 < self.spec_rects().len()
                    && spec_ht(*ht, self.spec_rects()[res@[t].0 as int]),
            self.spec_nodes().len() > 0 ==> forall|l: int|
                0 <= l < self.spec_rects().len() && spec_ht(*ht, self.spec_rects()[l])
                    ==> ids_of(res@).contains(l),
            self.spec_nodes().len() == 0 ==> res@ == self.degenerate_hits(
                self.spec_rects().len() == 1 && spec_ht(*ht, self.spec_rects()[0]),
            ),
    {
        broadcast use vstd::seq_lib::lemma_multiset_commutative;
        broadcast use vstd::seq_lib::group_to_multiset_ensures;
        broadcast use vstd::multiset::group_multiset_axioms;

        let mut hits: Vec<RectId> = Vec::new();
        if self.nodes.len() == 0 {
            // No hierarchy: a single stored rectangle is tested directly,
            // anything else answers nothing.
            if self.rects.len() == 1 {
                if eval_ht(ht, &self.rects[0]) {
                    hits.push(RectId(0));
                }
            }
            proof {
                assert(ids_of(hits@).no_duplicates());
                assert(hits@ =~= self.degenerate_hits(
                    self.spec_rects().len() == 1 && spec_ht(*ht, self.spec_rects()[0]),
                ));
            }
            return hits;
        }
        let ghost nodes = self.spec_nodes();
        let ghost rects = self.spec_rects();
        let ghost n = rects.len() as int;
        let ghost root_leaves = subtree_leaves(nodes, NodeRef::Internal(0));
        proof {
            root_leaves.lemma_multiset_has_no_duplicates();
        }
        let mut stack: Vec<usize> = Vec::new();
        stack.push(0);
        proof {
            root_leaves.to_multiset_ensures();
            assert(stack@.len() == 1);
            assert(stack@.last() == 0usize);
            assert(stack@.drop_last() =~= Seq::<usize>::empty());
            assert(stack_ms(nodes, stack@.drop_last()) == Multiset::<int>::empty());
            assert(stack_ms(nodes, stack@) =~= root_leaves.to_multiset());
            lemma_subtree_size_nonneg(nodes, NodeRef::Internal(0));
            assert(stack_sizes(nodes, stack@.drop_last()) == 0);
            assert(stack_sizes(nodes, stack@) == subtree_size(nodes, NodeRef::Internal(0)));
            assert forall|l: int|
                root_leaves.contains(l) && spec_ht(*ht, rects[l]) implies stack_ms(
                nodes,
                stack@,
            ).count(l) > 0 by {
                assert(root_leaves.to_multiset().count(l) > 0);
            }
        }
        while stack.len() > 0
            invariant
                self.wf(),
                self.tree_ok(),
                nodes == self.spec_nodes(),
                rects == self.spec_rects(),
                n == rects.len() as int,
                root_leaves == subtree_leaves(nodes, NodeRef::Internal(0)),
                forall|x: int| root_leaves.to_multiset().count(x) <= 1,
                forall|t: int| 0 <= t < stack@.len() ==> #[trigger] stack@[t] < nodes.len(),
                forall|x: int|
                    #[trigger] ids_of(hits@).to_multiset().count(x) + stack_ms(
                        nodes,
                        stack@,
                    ).count(x) <= root_leaves.to_multiset().count(x),
                forall|t: int|
                    0 <= t < hits@.len() ==> 0 <= #[trigger] hits@[t].0 < n && spec_ht(
                        *ht,
                        rects[hits@[t].0 as int],
                    ),
                forall|l: int|
                    root_leaves.contains(l) && spec_ht(*ht, rects[l]) ==> ids_of(
                        hits@,
                    ).contains(l) || stack_ms(nodes, stack@).count(l) > 0,
                stack_sizes(nodes, stack@) >= 0,
            decreases stack_sizes(nodes, stack@),
        {
            let ghost pre_stack = stack@;
            let s = stack.pop().unwrap();
            proof {
                assert(pre_stack.last() == s);
                assert(stack@ =~= pre_stack.drop_last());
                lemma_stack_sizes_nonneg(nodes, stack@);
            }
            let node: Node = self.nodes[s];
            let ghost sref = NodeRef::Internal(s);
            let ghost sleaves = subtree_leaves(nodes, sref);
            if !eval_ht(ht, &node.rect) {
                // The node's box misses: nothing under it can hit.
                proof {
                    assert(nodes[s as int] == node);
                    lemma_refit_containment(nodes, rects, sref);
                    assert(child_rect(nodes, rects, sref) == node.rect);
                    assert(stack_ms(nodes, pre_stack) == sleaves.to_multiset().add(
                        stack_ms(nodes, stack@),
                    ));
                    assert(stack_sizes(nodes, pre_stack) == subtree_size(nodes, sref)
                        + stack_sizes(nodes, stack@));
                    assert(subtree_size(nodes, sref) >= 1) by {
                        lemma_subtree_size_nonneg(nodes, nodes[s as int].children[0]);
                        lemma_subtree_size_nonneg(nodes, nodes[s as int].children[1]);
                    }
                    sleaves.to_multiset_ensures();
                    assert forall|l: int|
                        root_leaves.contains(l) && spec_ht(*ht, rects[l]) implies ids_of(
                        hits@,
                    ).contains(l) || stack_ms(nodes, stack@).count(l) > 0 by {
                        if stack_ms(nodes, pre_stack).count(l) > 0 {
                            if sleaves.to_multiset().count(l) > 0 {
                                assert(sleaves.contains(l));
                                let t = choose|t: int|
                                    0 <= t < sleaves.len() && #[trigger] sleaves[t] == l;
                                assert(spec_encloses(node.rect, rects[l]));
                                match ht {
                                    HitTest::ContainsPoint(p) => {
                                        crate::geom::lemma_contains_monotone(
                                            node.rect,
                                            rects[l],
                                            *p,
                                        );
                                    },
                                    HitTest::OverlapsRect(t2) => {
                                        crate::geom::lemma_overlaps_monotone(
                                            node.rect,
                                            rects[l],
                                            *t2,
                                        );
                                    },
                                }
                            }
                        }
                    }
                    assert forall|x: int|
                        #[trigger] ids_of(hits@).to_multiset().count(x) + stack_ms(
                            nodes,
                            stack@,
                        ).count(x) <= root_leaves.to_multiset().count(x) by {
                        assert(stack_ms(nodes, pre_stack).count(x) == sleaves.to_multiset().count(
                            x,
                        ) + stack_ms(nodes, stack@).count(x));
                    }
                }
                continue ;
            }
            proof {
                assert(nodes[s as int] == node);
                assert(shape_ok_at(nodes, s as int, node.children[0]));
                assert(shape_ok_at(nodes, s as int, node.children[1]));
                assert(sleaves == subtree_leaves(nodes, nodes[s as int].children[0])
                    + subtree_leaves(nodes, nodes[s as int].children[1]));
                lemma_subtree_size_nonneg(nodes, nodes[s as int].children[0]);
                lemma_subtree_size_nonneg(nodes, nodes[s as int].children[1]);
                assert(stack_ms(nodes, pre_stack) == sleaves.to_multiset().add(
                    stack_ms(nodes, stack@),
                ));
                sleaves.to_multiset_ensures();
            }
            let ghost s0 = stack@;
            let ghost h0 = hits@;
            let c0 = node.children[0];
            self.visit_child(ht, c0, &mut stack, &mut hits);
            proof {
                lemma_child_step(nodes, rects, *ht, s0, stack@, h0, hits@, c0);
            }
            let ghost s1 = stack@;
            let ghost h1 = hits@;
            let c1 = node.children[1];
            self.visit_child(ht, c1, &mut stack, &mut hits);
            proof {
                lemma_child_step(nodes, rects, *ht, s1, stack@, h1, hits@, c1);
                let hm0 = ids_of(h0);
                let hm1 = ids_of(h1);
                let hm2 = ids_of(hits@);
                vstd::seq_lib::lemma_multiset_commutative(
                    subtree_leaves(nodes, c0),
                    subtree_leaves(nodes, c1),
                );
                assert(sleaves.to_multiset() == subtree_leaves(nodes, c0).to_multiset().add(
                    subtree_leaves(nodes, c1).to_multiset(),
                ));
                subtree_leaves(nodes, c0).to_multiset_ensures();
                subtree_leaves(nodes, c1).to_multiset_ensures();
                assert forall|x: int|
                    #[trigger] hm2.to_multiset().count(x) + stack_ms(nodes, stack@).count(x)
                        <= root_leaves.to_multiset().count(x) by {
                    assert(hm1.to_multiset().count(x) + stack_ms(nodes, s1).count(x)
                        <= hm0.to_multiset().count(x) + stack_ms(nodes, s0).count(x)
                        + subtree_leaves(nodes, c0).to_multiset().count(x));
                    assert(hm2.to_multiset().count(x) + stack_ms(nodes, stack@).count(x)
                        <= hm1.to_multiset().count(x) + stack_ms(nodes, s1).count(x)
                        + subtree_leaves(nodes, c1).to_multiset().count(x));
                    assert(stack_ms(nodes, pre_stack).count(x) == sleaves.to_multiset().count(x)
                        + stack_ms(nodes, s0).count(x));
                }
                assert forall|l: int|
                    root_leaves.contains(l) && spec_ht(*ht, rects[l]) implies hm2.contains(l)
                        || stack_ms(nodes, stack@).count(l) > 0 by {
                    if !ids_of(h0).contains(l) && stack_ms(nodes, s0).count(l) == 0 {
                        assert(stack_ms(nodes, pre_stack).count(l) > 0);
                        assert(sleaves.to_multiset().count(l) > 0);
                        if subtree_leaves(nodes, c0).to_multiset().count(l) > 0 {
                            assert(subtree_leaves(nodes, c0).contains(l));
                            assert(hm1.contains(l) || stack_ms(nodes, s1).count(l) > 0);
                        } else {
                            assert(subtree_leaves(nodes, c1).to_multiset().count(l) > 0);
                            assert(subtree_leaves(nodes, c1).contains(l));
                        }
                    }
                }
                lemma_stack_sizes_nonneg(nodes, stack@);
                assert(stack_sizes(nodes, stack@) < stack_sizes(nodes, pre_stack)) by {
                    assert(stack_sizes(nodes, pre_stack) == subtree_size(nodes, sref)
                        + stack_sizes(nodes, s0));
                    assert(subtree_size(nodes, sref) == 1 + subtree_size(nodes, c0)
                        + subtree_size(nodes, c1));
                    assert(stack_sizes(nodes, s1) == stack_sizes(nodes, s0) + (match c0 {
                        NodeRef::Internal(_) => subtree_size(nodes, c0),
                        _ => 0,
                    }));
                    assert(stack_sizes(nodes, stack@) == stack_sizes(nodes, s1) + (match c1 {
                        NodeRef::Internal(_) => subtree_size(nodes, c1),
                        _ => 0,
                    }));
                    lemma_subtree_size_nonneg(nodes, c0);
                    lemma_subtree_size_nonneg(nodes, c1);
                }
            }
        }
        proof {
            assert forall|l: int|
                0 <= l < n && spec_ht(*ht, rects[l]) implies ids_of(hits@).contains(
                l,
            ) by {
                assert(root_leaves.to_set().contains(l));
                assert(root_leaves.contains(l));
            }
            assert forall|x: int| ids_of(hits@).to_multiset().count(x) <= 1 by {}
            ids_of(hits@).lemma_multiset_has_no_duplicates_conv();
        }
        hits
    }
}

impl Spatree {
    /// Handles one child reference during traversal: internal children are
    /// pushed onto the stack, leaf rectangles are tested and emitted on a
    /// hit, absent children are skipped.
    fn visit_child(&self, ht: &HitTest, c: NodeRef, stack: &mut Vec<usize>, hits: &mut Vec<RectId>)
        requires
            c is Internal ==> c->Internal_0 < self.spec_nodes().len(),
            c is Leaf ==> c->Leaf_0 < self.spec_rects().len(),
        ensures
            match c {
                NodeRef::Internal(j) => final (stack)@ == old(stack)@.push(j) && final (hits)@
                    == old(hits)@,
                NodeRef::Leaf(l) => final (stack)@ == old(stack)@ && (spec_ht(
                    *ht,
                    self.spec_rects()[l as int],
                ) ==> final (hits)@ == old(hits)@.push(RectId(l))) && (!spec_ht(
                    *ht,
                    self.spec_rects()[l as int],
                ) ==> final (hits)@ == old(hits)@),
                NodeRef::Invalid => final (stack)@ == old(stack)@ && final (hits)@ == old(hits)@,
            },
    {
        match c {
            NodeRef::Internal(j) => {
                stack.push(j);
            },
            NodeRef::Leaf(l) => {
                if eval_ht(ht, &self.rects[l]) {
                    hits.push(RectId(l));
                }
            },
            NodeRef::Invalid => {},
        }
    }
}

/// How one `visit_child` step moves leaves between the stack and the hit
/// list: the combined multiset grows by at most the child's leaves, hit
/// leaves of the child are retained, and nothing is lost.
proof fn lemma_child_step(
    nodes: Seq<Node>,
    rects: Seq<Rect>,
    ht: HitTest,
    s0: Seq<usize>,
    s1: Seq<usize>,
    h0: Seq<RectId>,
    h1: Seq<RectId>,
    c: NodeRef,
)
    requires
        shape_ok(nodes),
        c is Internal ==> 0 <= c->Internal_0 < nodes.len(),
        match c {
            NodeRef::Internal(j) => s1 == s0.push(j) && h1 == h0,
            NodeRef::Leaf(l) => s1 == s0 && (spec_ht(ht, rects[l as int]) ==> h1 == h0.push(
                RectId(l),
            )) && (!spec_ht(ht, rects[l as int]) ==> h1 == h0),
            NodeRef::Invalid => s1 == s0 && h1 == h0,
        },
    ensures
        forall|x: int|
            #[trigger] ids_of(h1).to_multiset().count(x) + stack_ms(nodes, s1).count(x)
                <= ids_of(h0).to_multiset().count(x) + stack_ms(nodes, s0).count(x)
                + subtree_leaves(nodes, c).to_multiset().count(x),
        forall|l: int|
            subtree_leaves(nodes, c).contains(l) && spec_ht(ht, rects[l]) ==> ids_of(h1).contains(l) || stack_ms(nodes, s1).count(l) > 0,
        forall|l: int| ids_of(h0).contains(l) ==> ids_of(h1).contains(l),
        forall|x: int| stack_ms(nodes, s0).count(x) <= stack_ms(nodes, s1).count(x),
        forall|t: int|
            0 <= t < h1.len() ==> ids_of(h0).contains(#[trigger] ids_of(h1)[t])
                || (c is Leaf && ids_of(h1)[t] == c->Leaf_0 && spec_ht(
                ht,
                rects[c->Leaf_0 as int],
            )),
        stack_sizes(nodes, s1) == stack_sizes(nodes, s0) + (match c {
            NodeRef::Internal(_) => subtree_size(nodes, c),
            _ => 0,
        }),
{
    broadcast use vstd::seq_lib::group_to_multiset_ensures;
    broadcast use vstd::multiset::group_multiset_axioms;

    match c {
        NodeRef::Internal(j) => {
            assert(ids_of(h1) == ids_of(h0));
            assert(s1.last() == j);
            assert(s1.drop_last() =~= s0);
            assert(stack_ms(nodes, s1) == subtree_leaves(nodes, c).to_multiset().add(
                stack_ms(nodes, s0),
            ));
            assert(stack_sizes(nodes, s1) == subtree_size(nodes, c) + stack_sizes(nodes, s0));
            assert forall|l: int|
                subtree_leaves(nodes, c).contains(l) && spec_ht(ht, rects[l]) implies ids_of(h1).contains(l) || stack_ms(nodes, s1).count(l) > 0 by {
                assert(subtree_leaves(nodes, c).to_multiset().count(l) > 0);
            }
        },
        NodeRef::Leaf(l) => {
            assert(subtree_leaves(nodes, c) =~= seq![l as int]);
            if spec_ht(ht, rects[l as int]) {
                assert(ids_of(h1) =~= ids_of(h0).push(l as int));
                assert forall|l2: int| ids_of(h0).contains(l2) implies ids_of(h1).contains(l2) by {
                    let t = choose|t: int|
                        0 <= t < ids_of(h0).len() && #[trigger] ids_of(h0)[t]
                            == l2;
                    assert(ids_of(h1)[t] == l2);
                }
                assert forall|l2: int|
                    subtree_leaves(nodes, c).contains(l2) && spec_ht(ht, rects[l2]) implies ids_of(h1).contains(l2) || stack_ms(nodes, s1).count(l2) > 0 by {
                    assert(l2 == l as int);
                    assert(ids_of(h1)[h1.len() - 1] == l as int);
                }
            } else {
                assert(subtree_leaves(nodes, c).to_multiset().count(l as int) >= 0);
            }
        },
        NodeRef::Invalid => {
            assert(ids_of(h1) == ids_of(h0));
            assert(subtree_leaves(nodes, c) =~= Seq::<int>::empty());
        },
    }
}


/// A returned id names a stored rectangle on which the hit predicate
/// approved a call with the query's target.
pub open spec fn approved<T, F: Fn(&Rect, &T) -> bool>(
    f: F,
    rects: Seq<Rect>,
    target: T,
    id: RectId,
) -> bool {
    id.0 < rects.len() && exists|a: &Rect, b: &T|
        #[trigger] call_ensures(f, (a, b), true) && *a == rects[id.0 as int] && *b == target
}

/// A resolver that always answers with one of its two arguments.
pub open spec fn resolver_picks<C: Fn(RectId, RectId) -> RectId>(resolve: C) -> bool {
    forall|a: RectId, b: RectId, out: RectId|
        #[trigger] call_ensures(resolve, (a, b), out) ==> out == a || out == b
}

/// A resolver that always answers with the higher id of its two arguments,
/// the usual z-order rule.
pub open spec fn resolver_takes_max<C: Fn(RectId, RectId) -> RectId>(resolve: C) -> bool {
    forall|a: RectId, b: RectId, out: RectId|
        #[trigger] call_ensures(resolve, (a, b), out) ==> out == (if a.0 >= b.0 {
            a
        } else {
            b
        })
}

/// How one traversal step moves leaves between the stack and the hit list,
/// for any hit predicate: the combined multiset grows by at most the
/// child's leaves.
proof fn lemma_child_step_any(
    nodes: Seq<Node>,
    s0: Seq<usize>,
    s1: Seq<usize>,
    h0: Seq<RectId>,
    h1: Seq<RectId>,
    c: NodeRef,
)
    requires
        shape_ok(nodes),
        c is Internal ==> 0 <= c->Internal_0 < nodes.len(),
        match c {
            NodeRef::Internal(j) => s1 == s0.push(j) && h1 == h0,
            NodeRef::Leaf(l) => s1 == s0 && (h1 == h0.push(RectId(l)) || h1 == h0),
            NodeRef::Invalid => s1 == s0 && h1 == h0,
        },
    ensures
        forall|x: int|
            #[trigger] ids_of(h1).to_multiset().count(x) + stack_ms(nodes, s1).count(x) <= ids_of(
                h0,
            ).to_multiset().count(x) + stack_ms(nodes, s0).count(x) + subtree_leaves(
                nodes,
                c,
            ).to_multiset().count(x),
{
    broadcast use vstd::seq_lib::group_to_multiset_ensures;
    broadcast use vstd::multiset::group_multiset_axioms;

    match c {
        NodeRef::Internal(j) => {
            assert(ids_of(h1) == ids_of(h0));
            assert(s1.last() == j);
            assert(s1.drop_last() =~= s0);
            assert(stack_ms(nodes, s1) == subtree_leaves(nodes, c).to_multiset().add(
                stack_ms(nodes, s0),
            ));
        },
        NodeRef::Leaf(l) => {
            assert(subtree_leaves(nodes, c) =~= seq![l as int]);
            if h1 == h0.push(RectId(l)) {
                assert(ids_of(h1) =~= ids_of(h0).push(l as int));
            } else {
                assert(ids_of(h1) == ids_of(h0));
            }
        },
        NodeRef::Invalid => {
            assert(ids_of(h1) == ids_of(h0));
            assert(subtree_leaves(nodes, c) =~= Seq::<int>::empty());
        },
    }
}

/// Stack totals are nonnegative once every entry is a valid node.
proof fn lemma_stack_sizes_nonneg(nodes: Seq<Node>, st: Seq<usize>)
    requires
        shape_ok(nodes),
        forall|t: int| 0 <= t < st.len() ==> #[trigger] st[t] < nodes.len(),
    ensures
        stack_sizes(nodes, st) >= 0,
    decreases st.len(),
{
    if st.len() > 0 {
        lemma_subtree_size_nonneg(nodes, NodeRef::Internal(st.last()));
        lemma_stack_sizes_nonneg(nodes, st.drop_last());
    }
}


impl Spatree {
    /// All rectangles that contain the given point (half-open edges):
    /// exactly the ids whose rectangle contains it, each once, in traversal
    /// order.
    pub fn query_point(&self, point: Point) -> (res: Vec<RectId>)
        requires
            self.wf(),
            self.query_ready(),
        ensures
            ids_of(res@).no_duplicates(),
            forall|t: int|
                0 <= t < res@.len() ==> 0 <= #[trigger] res@[t].0 < self.spec_rects().len()
                    && crate::geom::spec_contains(self.spec_rects()[res@[t].0 as int], point),
            self.spec_nodes().len() > 0 ==> forall|l: int|
                0 <= l < self.spec_rects().len() && crate::geom::spec_contains(
                    self.spec_rects()[l],
                    point,
                ) ==> ids_of(res@).contains(l),
            self.spec_nodes().len() == 0 ==> res@ == self.degenerate_hits(
                self.spec_rects().len() == 1 && crate::geom::spec_contains(
                    self.spec_rects()[0],
                    point,
                ),
            ),
    {
        self.run_query(&HitTest::ContainsPoint(point))
    }

    /// All rectangles that overlap the given rectangle (closed edges:
    /// touching counts): exactly the ids whose rectangle overlaps it, each
    /// once.
    pub fn query_rect(&self, rect: Rect) -> (res: Vec<RectId>)
        requires
            self.wf(),
            self.query_ready(),
        ensures
            ids_of(res@).no_duplicates(),
            forall|t: int|
                0 <= t < res@.len() ==> 0 <= #[trigger] res@[t].0 < self.spec_rects().len()
                    && crate::geom::spec_overlaps(self.spec_rects()[res@[t].0 as int], rect),
            self.spec_nodes().len() > 0 ==> forall|l: int|
                0 <= l < self.spec_rects().len() && crate::geom::spec_overlaps(
                    self.spec_rects()[l],
                    rect,
                ) ==> ids_of(res@).contains(l),
            self.spec_nodes().len() == 0 ==> res@ == self.degenerate_hits(
                self.spec_rects().len() == 1 && crate::geom::spec_overlaps(
                    self.spec_rects()[0],
                    rect,
                ),
            ),
    {
        self.run_query(&HitTest::OverlapsRect(rect))
    }

    /// All hits for an arbitrary target under a caller-supplied hit test.
    ///
    /// Every returned id names a stored rectangle on which the predicate
    /// approved a call, each id appears at most once over a freshly built
    /// hierarchy, and without a hierarchy only a single stored rectangle is
    /// consulted. What "hit" means rests with the predicate; the built-in
    /// `query_point` and `query_rect` carry exact hit-set contracts.
    pub fn query<T, F: Fn(&Rect, &T) -> bool>(&self, target: T, hit_condition: F) -> (res: Vec<
        RectId,
    >)
        requires
            self.wf(),
            forall|r: &Rect, t: &T| #[trigger] call_requires(hit_condition, (r, t)),
        ensures
            forall|t: int|
                0 <= t < res@.len() ==> #[trigger] approved(
                    hit_condition,
                    self.spec_rects(),
                    target,
                    res@[t],
                ),
            ids_of(res@).no_duplicates(),
            self.spec_nodes().len() == 0 ==> res@.len() <= 1 && (forall|t: int|
                0 <= t < res@.len() ==> #[trigger] res@[t].0 == 0) && (self.spec_rects().len()
                != 1 ==> res@.len() == 0),
    {
        broadcast use vstd::seq_lib::lemma_multiset_commutative;
        broadcast use vstd::seq_lib::group_to_multiset_ensures;
        broadcast use vstd::multiset::group_multiset_axioms;

        let ghost nodes = self.spec_nodes();
        let mut hits: Vec<RectId> = Vec::new();
        if self.nodes.len() == 0 {
            // No hierarchy: a single stored rectangle is tested directly,
            // anything else answers nothing.
            if self.rects.len() == 1 {
                if hit_condition(&self.rects[0], &target) {
                    hits.push(RectId(0));
                    proof {
                        assert(approved(hit_condition, self.spec_rects(), target, RectId(0usize)));
                    }
                }
            }
            proof {
                assert(ids_of(hits@).no_duplicates());
            }
            return hits;
        }
        let ghost root_leaves = subtree_leaves(nodes, NodeRef::Internal(0));
        let mut stack: Vec<usize> = Vec::new();
        stack.push(0);
        proof {
            lemma_subtree_size_nonneg(nodes, NodeRef::Internal(0));
            assert(stack@.drop_last() =~= Seq::<usize>::empty());
            assert(stack_sizes(nodes, stack@.drop_last()) == 0);
            assert(stack_ms(nodes, stack@.drop_last()) == Multiset::<int>::empty());
            assert(stack_ms(nodes, stack@) =~= root_leaves.to_multiset());
        }
        while stack.len() > 0
            invariant
                self.wf(),
                nodes == self.spec_nodes(),
                root_leaves == subtree_leaves(nodes, NodeRef::Internal(0)),
                forall|t: int| 0 <= t < stack@.len() ==> #[trigger] stack@[t] < nodes.len(),
                forall|t: int|
                    0 <= t < hits@.len() ==> #[trigger] approved(
                        hit_condition,
                        self.spec_rects(),
                        target,
                        hits@[t],
                    ),
                forall|x: int|
                    #[trigger] ids_of(hits@).to_multiset().count(x) + stack_ms(
                        nodes,
                        stack@,
                    ).count(x) <= root_leaves.to_multiset().count(x),
                forall|r: &Rect, t: &T| #[trigger] call_requires(hit_condition, (r, t)),
                stack_sizes(nodes, stack@) >= 0,
            decreases stack_sizes(nodes, stack@),
        {
            let ghost pre_stack = stack@;
            let s = stack.pop().unwrap();
            let ghost sref = NodeRef::Internal(s);
            proof {
                assert(pre_stack.last() == s);
                assert(stack@ =~= pre_stack.drop_last());
                lemma_stack_sizes_nonneg(nodes, stack@);
                assert(stack_sizes(nodes, pre_stack) == subtree_size(nodes, sref) + stack_sizes(
                    nodes,
                    stack@,
                ));
                assert(nodes[s as int] == nodes[s as int]);
                lemma_subtree_size_nonneg(nodes, nodes[s as int].children[0]);
                lemma_subtree_size_nonneg(nodes, nodes[s as int].children[1]);
            }
            let ghost sleaves = subtree_leaves(nodes, sref);
            proof {
                assert(stack_ms(nodes, pre_stack) == sleaves.to_multiset().add(
                    stack_ms(nodes, stack@),
                ));
                sleaves.to_multiset_ensures();
            }
            let node: Node = self.nodes[s];
            if !hit_condition(&node.rect, &target) {
                // Skip the whole subtree.
                proof {
                    assert forall|x: int|
                        #[trigger] ids_of(hits@).to_multiset().count(x) + stack_ms(
                            nodes,
                            stack@,
                        ).count(x) <= root_leaves.to_multiset().count(x) by {
                        assert(stack_ms(nodes, pre_stack).count(x) == sleaves.to_multiset().count(
                            x,
                        ) + stack_ms(nodes, stack@).count(x));
                    }
                }
                continue ;
            }
            let ghost s0 = stack@;
            let ghost h0 = hits@;
            let c0 = node.children[0];
            match c0 {
                NodeRef::Internal(j) => {
                    stack.push(j);
                    proof {
                        assert(stack@.drop_last() =~= s0);
                    }
                },
                NodeRef::Leaf(l) => {
                    if hit_condition(&self.rects[l], &target) {
                        hits.push(RectId(l));
                        proof {
                            assert(approved(
                                hit_condition,
                                self.spec_rects(),
                                target,
                                RectId(l),
                            ));
                        }
                    }
                },
                NodeRef::Invalid => {},
            }
            proof {
                lemma_child_step_any(nodes, s0, stack@, h0, hits@, c0);
            }
            let ghost s1 = stack@;
            let ghost h1 = hits@;
            let c1 = node.children[1];
            match c1 {
                NodeRef::Internal(j) => {
                    stack.push(j);
                    proof {
                        assert(stack@.drop_last() =~= s1);
                    }
                },
                NodeRef::Leaf(l) => {
                    if hit_condition(&self.rects[l], &target) {
                        hits.push(RectId(l));
                        proof {
                            assert(approved(
                                hit_condition,
                                self.spec_rects(),
                                target,
                                RectId(l),
                            ));
                        }
                    }
                },
                NodeRef::Invalid => {},
            }
            proof {
                lemma_child_step_any(nodes, s1, stack@, h1, hits@, c1);
                vstd::seq_lib::lemma_multiset_commutative(
                    subtree_leaves(nodes, c0),
                    subtree_leaves(nodes, c1),
                );
                assert(sleaves.to_multiset() == subtree_leaves(nodes, c0).to_multiset().add(
                    subtree_leaves(nodes, c1).to_multiset(),
                ));
                assert forall|x: int|
                    #[trigger] ids_of(hits@).to_multiset().count(x) + stack_ms(
                        nodes,
                        stack@,
                    ).count(x) <= root_leaves.to_multiset().count(x) by {
                    assert(ids_of(h1).to_multiset().count(x) + stack_ms(nodes, s1).count(x)
                        <= ids_of(h0).to_multiset().count(x) + stack_ms(nodes, s0).count(x)
                        + subtree_leaves(nodes, c0).to_multiset().count(x));
                    assert(ids_of(hits@).to_multiset().count(x) + stack_ms(nodes, stack@).count(x)
                        <= ids_of(h1).to_multiset().count(x) + stack_ms(nodes, s1).count(x)
                        + subtree_leaves(nodes, c1).to_multiset().count(x));
                    assert(stack_ms(nodes, pre_stack).count(x) == sleaves.to_multiset().count(x)
                        + stack_ms(nodes, s0).count(x));
                }
                assert(stack_sizes(nodes, s1) == stack_sizes(nodes, s0) + (match nodes[s as int].children[0] {
                    NodeRef::Internal(_) => subtree_size(nodes, nodes[s as int].children[0]),
                    _ => 0,
                }));
                assert(stack_sizes(nodes, stack@) == stack_sizes(nodes, s1) + (match nodes[s as int].children[1] {
                    NodeRef::Internal(_) => subtree_size(nodes, nodes[s as int].children[1]),
                    _ => 0,
                }));
            }
        }
        proof {
            root_leaves.lemma_multiset_has_no_duplicates();
            assert forall|x: int| ids_of(hits@).to_multiset().count(x) <= 1 by {}
            ids_of(hits@).lemma_multiset_has_no_duplicates_conv();
        }
        hits
    }

    /// A single hit for an arbitrary target: the hits of `query`, folded
    /// pairwise through the caller's conflict resolver (for example
    /// "highest id wins" for z-order).
    pub fn query_single<T, H: Fn(&Rect, &T) -> bool, C: Fn(RectId, RectId) -> RectId>(
        &self,
        target: T,
        hit_condition: H,
        conflict_resolution: C,
    ) -> (r: Option<RectId>)
        requires
            self.wf(),
            forall|a: &Rect, t: &T| #[trigger] call_requires(hit_condition, (a, t)),
            forall|a: RectId, b: RectId| #[trigger] call_requires(conflict_resolution, (a, b)),
        ensures
            r is Some ==> self.spec_rects().len() > 0,
            r is Some ==> exists|id: RectId|
                #[trigger] approved(hit_condition, self.spec_rects(), target, id),
            // A resolver that picks one of its arguments (such as "highest
            // id wins") hands back a genuine hit.
            resolver_picks(conflict_resolution) ==> (r is Some ==> approved(
                hit_condition,
                self.spec_rects(),
                target,
                r->Some_0,
            )),
    {
        let hits = self.query(target, hit_condition);
        let ghost ghits = hits@;
        let folded = fold_hits(hits, conflict_resolution);
        proof {
            if ghits.len() > 0 {
                assert(approved(hit_condition, self.spec_rects(), target, ghits[0]));
                if resolver_picks(conflict_resolution) {
                    let t = choose|t: int| 0 <= t < ghits.len() && ghits[t] == folded->Some_0;
                    assert(approved(hit_condition, self.spec_rects(), target, ghits[t]));
                }
            }
        }
        folded
    }

    /// A single hit among the rectangles containing a point, folded through
    /// the caller's conflict resolver. Returns `None` exactly when no
    /// rectangle contains the point.
    pub fn query_point_single<C: Fn(RectId, RectId) -> RectId>(
        &self,
        point: Point,
        conflict_resolution: C,
    ) -> (r: Option<RectId>)
        requires
            self.wf(),
            self.query_ready(),
            forall|a: RectId, b: RectId| #[trigger] call_requires(conflict_resolution, (a, b)),
        ensures
            self.spec_nodes().len() > 0 ==> ((r is None) <==> (forall|l: int|
                0 <= l < self.spec_rects().len() ==> !crate::geom::spec_contains(
                    #[trigger] self.spec_rects()[l],
                    point,
                ))),
            self.spec_nodes().len() == 0 ==> ((r is None) <==> !(self.spec_rects().len() == 1
                && crate::geom::spec_contains(self.spec_rects()[0], point))),
            // A resolver that picks one of its arguments (such as "highest
            // id wins") hands back a genuine hit.
            resolver_picks(conflict_resolution) ==> (r is Some ==> r->Some_0.0
                < self.spec_rects().len() && crate::geom::spec_contains(
                self.spec_rects()[r->Some_0.0 as int],
                point,
            )),
            // The highest-id resolver wins with the highest containing id.
            resolver_takes_max(conflict_resolution) && self.spec_nodes().len() > 0 ==> (r is Some
                ==> forall|l: int|
                0 <= l < self.spec_rects().len() && crate::geom::spec_contains(
                    #[trigger] self.spec_rects()[l],
                    point,
                ) ==> l <= r->Some_0.0),
    {
        let hits = self.query_point(point);
        let ghost ghits = hits@;
        let folded = fold_hits(hits, conflict_resolution);
        proof {
            if resolver_picks(conflict_resolution) && folded is Some {
                let t = choose|t: int| 0 <= t < ghits.len() && ghits[t] == folded->Some_0;
                assert(ghits[t].0 < self.spec_rects().len() && crate::geom::spec_contains(
                    self.spec_rects()[ghits[t].0 as int],
                    point,
                ));
            }
            if resolver_takes_max(conflict_resolution) && self.spec_nodes().len() > 0
                && folded is Some {
                assert forall|l: int|
                    0 <= l < self.spec_rects().len() && crate::geom::spec_contains(
                        #[trigger] self.spec_rects()[l],
                        point,
                    ) implies l <= folded->Some_0.0 by {
                    assert(ids_of(ghits).contains(l));
                    let t = choose|t: int| 0 <= t < ids_of(ghits).len() && ids_of(ghits)[t] == l;
                    assert(ghits[t].0 == l);
                    assert(ghits[t].0 <= folded->Some_0.0);
                }
            }
            if self.spec_nodes().len() > 0 {
                if ghits.len() > 0 {
                    assert(crate::geom::spec_contains(
                        self.spec_rects()[ghits[0].0 as int],
                        point,
                    ));
                } else {
                    assert forall|l: int|
                        0 <= l < self.spec_rects().len() implies !crate::geom::spec_contains(
                        #[trigger] self.spec_rects()[l],
                        point,
                    ) by {
                        if crate::geom::spec_contains(self.spec_rects()[l], point) {
                            assert(ids_of(ghits).contains(l));
                        }
                    }
                }
            }
        }
        folded
    }

    /// A single hit among the rectangles overlapping a rectangle, folded
    /// through the caller's conflict resolver. Returns `None` exactly when
    /// no rectangle overlaps the target.
    pub fn query_rect_single<C: Fn(RectId, RectId) -> RectId>(
        &self,
        rect: Rect,
        conflict_resolution: C,
    ) -> (r: Option<RectId>)
        requires
            self.wf(),
            self.query_ready(),
            forall|a: RectId, b: RectId| #[trigger] call_requires(conflict_resolution, (a, b)),
        ensures
            self.spec_nodes().len() > 0 ==> ((r is None) <==> (forall|l: int|
                0 <= l < self.spec_rects().len() ==> !crate::geom::spec_overlaps(
                    #[trigger] self.spec_rects()[l],
                    rect,
                ))),
            self.spec_nodes().len() == 0 ==> ((r is None) <==> !(self.spec_rects().len() == 1
                && crate::geom::spec_overlaps(self.spec_rects()[0], rect))),
            // A resolver that picks one of its arguments (such as "highest
            // id wins") hands back a genuine hit.
            resolver_picks(conflict_resolution) ==> (r is Some ==> r->Some_0.0
                < self.spec_rects().len() && crate::geom::spec_overlaps(
                self.spec_rects()[r->Some_0.0 as int],
                rect,
            )),
            // The highest-id resolver wins with the highest overlapping id.
            resolver_takes_max(conflict_resolution) && self.spec_nodes().len() > 0 ==> (r is Some
                ==> forall|l: int|
                0 <= l < self.spec_rects().len() && crate::geom::spec_overlaps(
                    #[trigger] self.spec_rects()[l],
                    rect,
                ) ==> l <= r->Some_0.0),
    {
        let hits = self.query_rect(rect);
        let ghost ghits = hits@;
        let folded = fold_hits(hits, conflict_resolution);
        proof {
            if resolver_picks(conflict_resolution) && folded is Some {
                let t = choose|t: int| 0 <= t < ghits.len() && ghits[t] == folded->Some_0;
                assert(ghits[t].0 < self.spec_rects().len() && crate::geom::spec_overlaps(
                    self.spec_rects()[ghits[t].0 as int],
                    rect,
                ));
            }
            if resolver_takes_max(conflict_resolution) && self.spec_nodes().len() > 0
                && folded is Some {
                assert forall|l: int|
                    0 <= l < self.spec_rects().len() && crate::geom::spec_overlaps(
                        #[trigger] self.spec_rects()[l],
                        rect,
                    ) implies l <= folded->Some_0.0 by {
                    assert(ids_of(ghits).contains(l));
                    let t = choose|t: int| 0 <= t < ids_of(ghits).len() && ids_of(ghits)[t] == l;
                    assert(ghits[t].0 == l);
                    assert(ghits[t].0 <= folded->Some_0.0);
                }
            }
            if self.spec_nodes().len() > 0 {
                if ghits.len() > 0 {
                    assert(crate::geom::spec_overlaps(self.spec_rects()[ghits[0].0 as int], rect));
                } else {
                    assert forall|l: int|
                        0 <= l < self.spec_rects().len() implies !crate::geom::spec_overlaps(
                        #[trigger] self.spec_rects()[l],
                        rect,
                    ) by {
                        if crate::geom::spec_overlaps(self.spec_rects()[l], rect) {
                            assert(ids_of(ghits).contains(l));
                        }
                    }
                }
            }
        }
        folded
    }
}

/// Folds a hit list pairwise through a conflict resolver; `None` for an
/// empty list, and the resolver decides between any two hits otherwise.
fn fold_hits<C: Fn(RectId, RectId) -> RectId>(hits: Vec<RectId>, conflict_resolution: C) -> (r:
    Option<RectId>)
    requires
        forall|a: RectId, b: RectId| #[trigger] call_requires(conflict_resolution, (a, b)),
    ensures
        (r is None) <==> hits@.len() == 0,
        resolver_picks(conflict_resolution) ==> (r is Some ==> exists|t: int|
            0 <= t < hits@.len() && hits@[t] == r->Some_0),
        resolver_takes_max(conflict_resolution) ==> (r is Some ==> (exists|t: int|
            0 <= t < hits@.len() && hits@[t] == r->Some_0) && (forall|t: int|
            0 <= t < hits@.len() ==> (#[trigger] hits@[t]).0 <= r->Some_0.0)),
{
    if hits.len() == 0 {
        return None;
    }
    let mut acc = hits[0];
    let mut i: usize = 1;
    while i < hits.len()
        invariant
            1 <= i <= hits@.len(),
            forall|a: RectId, b: RectId| #[trigger] call_requires(conflict_resolution, (a, b)),
            resolver_picks(conflict_resolution) ==> exists|t: int|
                0 <= t < hits@.len() && hits@[t] == acc,
            resolver_takes_max(conflict_resolution) ==> (exists|t: int|
                0 <= t < hits@.len() && hits@[t] == acc) && (forall|t: int|
                0 <= t < i ==> (#[trigger] hits@[t]).0 <= acc.0),
        decreases hits@.len() - i,
    {
        let ghost prev = acc;
        acc = conflict_resolution(acc, hits[i]);
        proof {
            if resolver_picks(conflict_resolution) {
                assert(acc == prev || acc == hits@[i as int]);
                if acc == hits@[i as int] {
                    assert(0 <= i < hits@.len() && hits@[i as int] == acc);
                }
            }
            if resolver_takes_max(conflict_resolution) {
                assert(acc == (if prev.0 >= hits@[i as int].0 {
                    prev
                } else {
                    hits@[i as int]
                }));
                if acc == hits@[i as int] {
                    assert(0 <= i < hits@.len() && hits@[i as int] == acc);
                }
            }
        }
        i = i + 1;
    }
    Some(acc)
}

} // verus!
