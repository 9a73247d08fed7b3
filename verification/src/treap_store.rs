//! The segments in a treap: every operation takes logarithmic time on average.

use crate::patches;
use crate::patches::Replacement;
use crate::range::DTRange;
use crate::segments;
use crate::segments::{Seg, SegStore, Segment, HUGE};
use crate::smart_string::SmartString;
use crate::splice;
use vstd::prelude::*;

verus! {

/// Stands for "no node".
const NIL: usize = usize::MAX;

struct TreapNode {
    seg: Segment,
    prio: u64,
    left: usize,
    right: usize,
    parent: usize,
    /// Total size of the left subtree.
    left_size: usize,
}

/// Where the nodes of a treap stand.
///
/// A subtree holds the segments of an interval of the sequence; `lo` and `hi`
/// give it for each node.
#[verifier::ext_equal]
struct Shape {
    /// The nodes in sequence order.
    order: Seq<usize>,
    /// For each node its place in the sequence; -1 for a node that was removed.
    pos: Seq<int>,
    /// For each node where the interval of its subtree starts.
    lo: Seq<int>,
    /// For each node where the interval of its subtree ends.
    hi: Seq<int>,
}

pub struct TreapStore {
    nodes: Vec<TreapNode>,
    root: usize,
    rng: u64,
    shape: Ghost<Shape>,
}

/// Whether `n` is a node that stands in the sequence.
spec fn live(sh: Shape, n: usize) -> bool {
    n < sh.pos.len() && sh.pos[n as int] >= 0
}

/// The segments in the order that the shape gives.
spec fn segs_in(nodes: Seq<TreapNode>, order: Seq<usize>) -> Seq<Seg> {
    Seq::new(order.len(), |k: int| nodes[order[k] as int].seg@)
}

/// Whether places and nodes correspond.
spec fn placed(nodes: Seq<TreapNode>, sh: Shape) -> bool {
    &&& nodes.len() <= NIL
    &&& sh.pos.len() == nodes.len()
    &&& sh.lo.len() == nodes.len()
    &&& sh.hi.len() == nodes.len()
    &&& forall|k: int|
        0 <= k < sh.order.len() ==> {
            &&& live(sh, #[trigger] sh.order[k])
            &&& sh.pos[sh.order[k] as int] == k
        }
    &&& forall|n: usize|
        #[trigger] live(sh, n) ==> {
            &&& sh.pos[n as int] < sh.order.len()
            &&& sh.order[sh.pos[n as int]] == n
        }
}

/// Whether node `n` and its neighbours point at each other, and its interval is
/// made of those of its children and its own place.
spec fn linked(nodes: Seq<TreapNode>, sh: Shape, root: usize, n: usize) -> bool {
    let node = nodes[n as int];
    let k = sh.pos[n as int];
    &&& 0 <= sh.lo[n as int] <= k < sh.hi[n as int] <= sh.order.len()
    &&& if node.left == NIL {
        sh.lo[n as int] == k
    } else {
        &&& live(sh, node.left)
        &&& sh.lo[node.left as int] == sh.lo[n as int]
        &&& sh.hi[node.left as int] == k
        &&& nodes[node.left as int].parent == n
    }
    &&& if node.right == NIL {
        sh.hi[n as int] == k + 1
    } else {
        &&& live(sh, node.right)
        &&& sh.lo[node.right as int] == k + 1
        &&& sh.hi[node.right as int] == sh.hi[n as int]
        &&& nodes[node.right as int].parent == n
    }
    &&& if node.parent == NIL {
        n == root
    } else {
        &&& live(sh, node.parent)
        &&& nodes[node.parent as int].left == n || nodes[node.parent as int].right == n
    }
}

/// Whether the links form a tree with the given shape.
spec fn tree(nodes: Seq<TreapNode>, sh: Shape, root: usize) -> bool {
    &&& placed(nodes, sh)
    &&& live(sh, root)
    &&& nodes[root as int].parent == NIL
    &&& sh.lo[root as int] == 0
    &&& sh.hi[root as int] == sh.order.len()
    &&& forall|n: usize| live(sh, n) ==> #[trigger] linked(nodes, sh, root, n)
}

/// What the segments of the left subtree of `n` have for a total size.
spec fn left_sum(nodes: Seq<TreapNode>, sh: Shape, n: usize) -> int {
    let segs = segs_in(nodes, sh.order);
    splice::cum(segs, sh.pos[n as int]) - splice::cum(segs, sh.lo[n as int])
}

/// Whether every node knows the size of its left subtree.
spec fn summed(nodes: Seq<TreapNode>, sh: Shape) -> bool {
    forall|n: usize|
        live(sh, n) ==> nodes[n as int].left_size == #[trigger] left_sum(nodes, sh, n)
}

/// Whether `m` stands above `n`.
spec fn above(sh: Shape, m: usize, n: usize) -> bool {
    m != n && sh.lo[m as int] <= sh.pos[n as int] < sh.hi[m as int]
}

/// Whether `n` has no parent, or none of lower priority.
spec fn ranked(nodes: Seq<TreapNode>, n: usize) -> bool {
    let p = nodes[n as int].parent;
    p == NIL || nodes[n as int].prio <= nodes[p as int].prio
}

/// Whether no node has a higher priority than its parent.
spec fn heaped(nodes: Seq<TreapNode>, sh: Shape) -> bool {
    forall|m: usize| live(sh, m) ==> #[trigger] ranked(nodes, m)
}

/// Whether no node would have a higher priority than its parent if `n` were left out,
/// and its children hung below its parent.
spec fn heaped_around(nodes: Seq<TreapNode>, sh: Shape, n: usize) -> bool {
    let q = nodes[n as int].parent;
    forall|m: usize|
        live(sh, m) && m != n ==> if nodes[m as int].parent == n {
            q == NIL || (#[trigger] nodes[m as int]).prio <= nodes[q as int].prio
        } else {
            ranked(nodes, m)
        }
}

/// Whether no node but `n` has a higher priority than its parent, and the children of
/// `n` have none higher than the parent of `n`.
spec fn heaped_but(nodes: Seq<TreapNode>, sh: Shape, n: usize) -> bool {
    &&& heaped_around(nodes, sh, n)
    &&& forall|m: usize| live(sh, m) && m != n ==> #[trigger] ranked(nodes, m)
}

/// Whether all nodes hold what they held, with the same priorities.
spec fn same_items(nodes: Seq<TreapNode>, now: Seq<TreapNode>) -> bool {
    &&& now.len() == nodes.len()
    &&& forall|m: int|
        0 <= m < nodes.len() ==> (#[trigger] now[m]).seg == nodes[m].seg && now[m].prio
            == nodes[m].prio
}

/// A node whose place lies in the interval of `q` has its whole subtree there.
proof fn lemma_nested(nodes: Seq<TreapNode>, sh: Shape, root: usize, q: usize, m: usize)
    requires
        tree(nodes, sh, root),
        live(sh, q),
        live(sh, m),
        sh.lo[q as int] <= sh.pos[m as int] < sh.hi[q as int],
    ensures
        sh.lo[q as int] <= sh.lo[m as int],
        sh.hi[m as int] <= sh.hi[q as int],
    decreases sh.hi[q as int] - sh.lo[q as int],
{
    let node = nodes[q as int];
    assert(linked(nodes, sh, root, q));
    assert(linked(nodes, sh, root, m));
    if sh.pos[m as int] < sh.pos[q as int] {
        assert(linked(nodes, sh, root, node.left));
        lemma_nested(nodes, sh, root, node.left, m);
    } else if sh.pos[m as int] > sh.pos[q as int] {
        assert(linked(nodes, sh, root, node.right));
        lemma_nested(nodes, sh, root, node.right, m);
    }
}

/// The parent of a node below `q` is `q` or below it.
proof fn lemma_parent(nodes: Seq<TreapNode>, sh: Shape, root: usize, q: usize, m: usize)
    requires
        tree(nodes, sh, root),
        live(sh, q),
        live(sh, m),
        m != q,
        sh.lo[q as int] <= sh.pos[m as int] < sh.hi[q as int],
    ensures
        live(sh, nodes[m as int].parent),
        sh.lo[q as int] <= sh.pos[nodes[m as int].parent as int] < sh.hi[q as int],
    decreases sh.hi[q as int] - sh.lo[q as int],
{
    let node = nodes[q as int];
    assert(linked(nodes, sh, root, q));
    assert(linked(nodes, sh, root, m));
    if sh.pos[m as int] < sh.pos[q as int] {
        assert(linked(nodes, sh, root, node.left));
        if node.left != m {
            lemma_parent(nodes, sh, root, node.left, m);
        }
    } else {
        assert(sh.pos[m as int] != sh.pos[q as int]);
        assert(linked(nodes, sh, root, node.right));
        if node.right != m {
            lemma_parent(nodes, sh, root, node.right, m);
        }
    }
}

proof fn lemma_sizes(segs: Seq<Seg>, i: int, j: int)
    requires
        0 <= i <= j <= segs.len(),
        forall|k: int| 0 <= k < segs.len() ==> (#[trigger] segs[k]).size >= 0,
    ensures
        0 <= splice::cum(segs, i) <= splice::cum(segs, j) <= segments::cur_len(segs),
        j < segs.len() ==> splice::cum(segs, j + 1) == splice::cum(segs, j) + segs[j].size
            && splice::cum(segs, j + 1) <= segments::cur_len(segs),
    decreases segs.len() - i,
{
    if i < segs.len() {
        splice::lemma_cum_step(segs, i);
        if i < j {
            lemma_sizes(segs, i + 1, j);
        } else {
            lemma_sizes(segs, i + 1, i + 1);
        }
    } else {
        assert(segs.take(i) =~= segs);
    }
    lemma_prefix(segs, i);
}

proof fn lemma_prefix(segs: Seq<Seg>, i: int)
    requires
        0 <= i <= segs.len(),
        forall|k: int| 0 <= k < segs.len() ==> (#[trigger] segs[k]).size >= 0,
    ensures
        0 <= splice::cum(segs, i),
    decreases i,
{
    if i > 0 {
        splice::lemma_cum_step(segs, i - 1);
        lemma_prefix(segs, i - 1);
    } else {
        assert(segs.take(0) =~= Seq::<Seg>::empty());
    }
}

/// The shape after `n` was rotated above its parent.
spec fn turned(nodes: Seq<TreapNode>, sh: Shape, n: usize) -> Shape {
    let p = nodes[n as int].parent as int;
    if nodes[p].left == n {
        Shape {
            lo: sh.lo.update(n as int, sh.lo[p]).update(p, sh.pos[n as int] + 1),
            hi: sh.hi.update(n as int, sh.hi[p]),
            ..sh
        }
    } else {
        Shape {
            lo: sh.lo.update(n as int, sh.lo[p]),
            hi: sh.hi.update(n as int, sh.hi[p]).update(p, sh.pos[n as int]),
            ..sh
        }
    }
}

/// The child of `n` that goes over to its parent when `n` is rotated above it.
spec fn moved_by(nodes: Seq<TreapNode>, n: usize) -> usize {
    let p = nodes[n as int].parent as int;
    if nodes[p].left == n {
        nodes[n as int].right
    } else {
        nodes[n as int].left
    }
}

/// The nodes after `n` was rotated above its parent.
spec fn rotated(nodes: Seq<TreapNode>, now: Seq<TreapNode>, n: usize) -> bool {
    let p = nodes[n as int].parent;
    let g = nodes[p as int].parent;
    let moved = moved_by(nodes, n);
    let left = nodes[p as int].left == n;
    let was_n = nodes[n as int];
    let was_p = nodes[p as int];
    &&& now.len() == nodes.len()
    &&& forall|m: int|
        0 <= m < nodes.len() && m != n && m != p && m != g && m != moved ==> now[m]
            == #[trigger] nodes[m]
    &&& moved != NIL ==> now[moved as int] == (TreapNode { parent: p, ..nodes[moved as int] })
    &&& if g == NIL {
        true
    } else if nodes[g as int].left == p {
        now[g as int] == (TreapNode { left: n, ..nodes[g as int] })
    } else {
        now[g as int] == (TreapNode { right: n, ..nodes[g as int] })
    }
    &&& if left {
        &&& now[n as int] == (TreapNode { right: p, parent: g, ..was_n })
        &&& now[p as int].left == moved
        &&& now[p as int].right == was_p.right
        &&& now[p as int].left_size == was_p.left_size - (was_n.left_size + was_n.seg.size)
    } else {
        &&& now[n as int].left == p
        &&& now[n as int].right == was_n.right
        &&& now[n as int].parent == g
        &&& now[n as int].seg == was_n.seg
        &&& now[n as int].prio == was_n.prio
        &&& now[n as int].left_size == was_n.left_size + (was_p.left_size + was_p.seg.size)
        &&& now[p as int].left == was_p.left
        &&& now[p as int].right == moved
        &&& now[p as int].left_size == was_p.left_size
    }
    &&& now[p as int].parent == n
    &&& now[p as int].seg == was_p.seg
    &&& now[p as int].prio == was_p.prio
}

/// The nodes that a rotation changes are distinct.
proof fn lemma_apart(nodes: Seq<TreapNode>, sh: Shape, root: usize, n: usize)
    requires
        tree(nodes, sh, root),
        live(sh, n),
        nodes[n as int].parent != NIL,
    ensures
        ({
            let p = nodes[n as int].parent;
            let g = nodes[p as int].parent;
            let moved = moved_by(nodes, n);
            &&& n < nodes.len() && p < nodes.len() && n != p
            &&& live(sh, p)
            &&& g != NIL ==> live(sh, g) && g < nodes.len() && g != n && g != p && g != moved
            &&& moved != NIL ==> live(sh, moved) && moved < nodes.len() && moved != n && moved != p
            &&& nodes[p as int].left == n || nodes[p as int].right == n
            &&& nodes[p as int].left == n ==> nodes[p as int].right != n
            &&& g != NIL && nodes[g as int].left == p ==> nodes[g as int].right != p
            &&& g != NIL && nodes[g as int].left == p ==> nodes[g as int].right != p
        }),
{
    let p = nodes[n as int].parent;
    let g = nodes[p as int].parent;
    let moved = moved_by(nodes, n);
    assert(linked(nodes, sh, root, n));
    assert(linked(nodes, sh, root, p));
    if g != NIL {
        assert(linked(nodes, sh, root, g));
    }
    if moved != NIL {
        assert(linked(nodes, sh, root, moved));
    }
}

/// The sums that a rotation forms stay in bounds.
proof fn lemma_room(nodes: Seq<TreapNode>, sh: Shape, root: usize, n: usize)
    requires
        tree(nodes, sh, root),
        summed(nodes, sh),
        live(sh, n),
        nodes[n as int].parent != NIL,
        segments::cur_len(segs_in(nodes, sh.order)) <= usize::MAX,
    ensures
        ({
            let node = nodes[n as int];
            let parent = nodes[node.parent as int];
            if parent.left == n {
                node.left_size + node.seg.size <= parent.left_size
            } else {
                node.left_size + parent.left_size + parent.seg.size <= usize::MAX
            }
        }),
{
    let p = nodes[n as int].parent;
    let segs = segs_in(nodes, sh.order);
    assert(linked(nodes, sh, root, n));
    assert(linked(nodes, sh, root, p));
    assert(nodes[n as int].left_size == left_sum(nodes, sh, n));
    assert(nodes[p as int].left_size == left_sum(nodes, sh, p));
    assert(segs[sh.pos[n as int]] == nodes[n as int].seg@);
    assert(segs[sh.pos[p as int]] == nodes[p as int].seg@);
    lemma_sizes(segs, sh.lo[n as int], sh.pos[n as int]);
    lemma_sizes(segs, sh.lo[p as int], sh.pos[p as int]);
    if nodes[p as int].left == n {
        lemma_sizes(segs, sh.pos[n as int] + 1, sh.pos[p as int]);
    } else {
        lemma_sizes(segs, sh.pos[p as int] + 1, sh.pos[n as int]);
    }
}

proof fn lemma_rotated(
    nodes: Seq<TreapNode>,
    now: Seq<TreapNode>,
    sh: Shape,
    root: usize,
    new_root: usize,
    n: usize,
)
    requires
        tree(nodes, sh, root),
        summed(nodes, sh),
        live(sh, n),
        nodes[n as int].parent != NIL,
        rotated(nodes, now, n),
        new_root == (if nodes[nodes[n as int].parent as int].parent == NIL {
            n
        } else {
            root
        }),
    ensures
        tree(now, turned(nodes, sh, n), new_root),
        summed(now, turned(nodes, sh, n)),
        segs_in(now, sh.order) == segs_in(nodes, sh.order),
        ({
            let p = nodes[n as int].parent as int;
            let new = turned(nodes, sh, n);
            &&& new.lo[n as int] == sh.lo[p]
            &&& new.hi[n as int] == sh.hi[p]
            &&& new.hi[p] - new.lo[p] < sh.hi[p] - sh.lo[p]
            &&& new.hi[n as int] - new.lo[n as int] > sh.hi[n as int] - sh.lo[n as int]
        }),
{
    let p = nodes[n as int].parent;
    let g = nodes[p as int].parent;
    let moved = moved_by(nodes, n);
    let new = turned(nodes, sh, n);
    let segs = segs_in(nodes, sh.order);
    lemma_apart(nodes, sh, root, n);
    assert(linked(nodes, sh, root, n));
    assert(linked(nodes, sh, root, p));
    if g != NIL {
        assert(linked(nodes, sh, root, g));
    }
    if moved != NIL {
        assert(linked(nodes, sh, root, moved));
    }
    assert forall|m: int| 0 <= m < nodes.len() implies now[m].seg == (#[trigger] nodes[m]).seg by {}
    assert(segs_in(now, sh.order) =~= segs);
    assert forall|m: usize| live(new, m) == live(sh, m) by {}
    assert(placed(now, new));
    assert forall|m: usize| live(new, m) implies #[trigger] linked(now, new, new_root, m) by {
        assert(live(sh, m));
        assert(linked(nodes, sh, root, m));
        if m == n {
        } else if m == p {
        } else if m == g {
        } else if m == moved {
        } else {
            assert(now[m as int] == nodes[m as int]);
            let l = nodes[m as int].left;
            let r = nodes[m as int].right;
            let q = nodes[m as int].parent;
            if l != NIL {
                assert(l != n && l != p && l != moved);
            }
            if r != NIL {
                assert(r != n && r != p && r != moved);
            }
        }
    }
    assert(segs[sh.pos[n as int]] == nodes[n as int].seg@);
    assert(segs[sh.pos[p as int]] == nodes[p as int].seg@);
    assert(nodes[n as int].left_size == left_sum(nodes, sh, n));
    assert(nodes[p as int].left_size == left_sum(nodes, sh, p));
    splice::lemma_cum_step(segs, sh.pos[n as int]);
    splice::lemma_cum_step(segs, sh.pos[p as int]);
    assert forall|m: usize| live(new, m) implies now[m as int].left_size == #[trigger] left_sum(
        now,
        new,
        m,
    ) by {
        assert(live(sh, m));
        assert(nodes[m as int].left_size == left_sum(nodes, sh, m));
    }
}

/// Rotating the only node that stands too low above its parent leaves no other one
/// too low.
proof fn lemma_raised(
    nodes: Seq<TreapNode>,
    now: Seq<TreapNode>,
    sh: Shape,
    root: usize,
    n: usize,
)
    requires
        tree(nodes, sh, root),
        live(sh, n),
        nodes[n as int].parent != NIL,
        nodes[n as int].prio > nodes[nodes[n as int].parent as int].prio,
        rotated(nodes, now, n),
        heaped_but(nodes, sh, n),
    ensures
        heaped_but(now, turned(nodes, sh, n), n),
{
    let p = nodes[n as int].parent;
    let g = nodes[p as int].parent;
    let moved = moved_by(nodes, n);
    let new = turned(nodes, sh, n);
    lemma_apart(nodes, sh, root, n);
    assert(same_items(nodes, now));
    assert(ranked(nodes, p));
    assert forall|m: usize| live(new, m) && m != n implies #[trigger] ranked(now, m) && (now[m as int].parent
        == n ==> g == NIL || now[m as int].prio <= now[g as int].prio) by {
        assert(live(sh, m));
        assert(ranked(nodes, m));
        assert(linked(nodes, sh, root, m));
        assert(nodes[m as int].parent == n ==> nodes[m as int].prio <= nodes[p as int].prio);
        assert(now[m as int].prio == nodes[m as int].prio);
        assert(now[n as int].prio == nodes[n as int].prio);
        assert(now[p as int].prio == nodes[p as int].prio);
        if g != NIL {
            assert(now[g as int].prio == nodes[g as int].prio);
        }
        if m == p {
            assert(now[m as int].parent == n);
        } else if m == moved {
            assert(nodes[m as int].parent == n) by {
                assert(linked(nodes, sh, root, n));
            }
            assert(now[m as int].parent == p);
        } else {
            let q = nodes[m as int].parent;
            assert(now[m as int].parent == q);
            if q != NIL {
                assert(now[q as int].prio == nodes[q as int].prio);
            }
        }
    }
}

/// Rotating the child of higher priority above a node leaves no other one too low.
proof fn lemma_lowered(
    nodes: Seq<TreapNode>,
    now: Seq<TreapNode>,
    sh: Shape,
    root: usize,
    id: usize,
    child: usize,
)
    requires
        tree(nodes, sh, root),
        live(sh, id),
        live(sh, child),
        nodes[child as int].parent == id,
        forall|m: usize|
            live(sh, m) && nodes[m as int].parent == id ==> (#[trigger] nodes[m as int]).prio
                <= nodes[child as int].prio,
        rotated(nodes, now, child),
        heaped_around(nodes, sh, id),
    ensures
        heaped_around(now, turned(nodes, sh, child), id),
{
    let g = nodes[id as int].parent;
    let new = turned(nodes, sh, child);
    lemma_apart(nodes, sh, root, child);
    assert(same_items(nodes, now));
    assert forall|m: usize| live(new, m) && m != id implies if now[m as int].parent == id {
        (#[trigger] now[m as int]).prio <= now[child as int].prio
    } else {
        ranked(now, m)
    } by {
        assert(live(sh, m));
        assert(linked(nodes, sh, root, m));
        assert(now[m as int].prio == nodes[m as int].prio);
        assert(now[child as int].prio == nodes[child as int].prio);
        assert(nodes[m as int].parent != id ==> ranked(nodes, m));
        if g != NIL {
            assert(now[g as int].prio == nodes[g as int].prio);
        }
        if m == child {
            assert(now[m as int].parent == g);
        } else if m == moved_by(nodes, child) {
            assert(nodes[m as int].parent == child) by {
                assert(linked(nodes, sh, root, child));
            }
            assert(now[m as int].parent == id);
        } else {
            let q = nodes[m as int].parent;
            assert(now[m as int].parent == q);
            if q != NIL {
                assert(now[q as int].prio == nodes[q as int].prio);
            }
        }
    }
}

/// A new leaf is the only node that may stand too low.
proof fn lemma_hung(
    nodes: Seq<TreapNode>,
    now: Seq<TreapNode>,
    sh: Shape,
    new: Shape,
    root: usize,
    new_id: usize,
)
    requires
        tree(now, new, root),
        heaped(nodes, sh),
        now.len() == nodes.len(),
        new_id < now.len(),
        now[new_id as int].left == NIL,
        now[new_id as int].right == NIL,
        forall|m: int|
            0 <= m < nodes.len() ==> (#[trigger] now[m]).prio == nodes[m].prio && (m != new_id
                ==> now[m].parent == nodes[m].parent),
        forall|m: usize| #[trigger] live(new, m) && m != new_id ==> live(sh, m),
    ensures
        heaped_but(now, new, new_id),
{
    assert forall|m: usize| live(new, m) && m != new_id implies #[trigger] ranked(now, m)
        && now[m as int].parent != new_id by {
        assert(linked(now, new, root, m));
        assert(ranked(nodes, m));
        assert(now[m as int].parent == nodes[m as int].parent);
        let q = now[m as int].parent;
        if q != NIL {
            assert(now[q as int].prio == nodes[q as int].prio);
        }
    }
}

/// The heap order is a matter of parents and priorities.
proof fn lemma_still_heaped(nodes: Seq<TreapNode>, now: Seq<TreapNode>, sh: Shape, root: usize)
    requires
        tree(nodes, sh, root),
        heaped(nodes, sh),
        now.len() == nodes.len(),
        forall|m: int|
            0 <= m < nodes.len() ==> (#[trigger] now[m]).prio == nodes[m].prio && now[m].parent
                == nodes[m].parent,
    ensures
        heaped(now, sh),
{
    assert forall|m: usize| live(sh, m) implies #[trigger] ranked(now, m) by {
        assert(linked(nodes, sh, root, m));
        assert(ranked(nodes, m));
        assert(now[m as int].parent == nodes[m as int].parent);
        let q = now[m as int].parent;
        if q != NIL {
            assert(now[q as int].prio == nodes[q as int].prio);
        }
    }
}

/// In a heap no node needs to be left out.
proof fn lemma_around(nodes: Seq<TreapNode>, sh: Shape, root: usize, n: usize)
    requires
        tree(nodes, sh, root),
        heaped(nodes, sh),
        live(sh, n),
    ensures
        heaped_around(nodes, sh, n),
{
    assert(ranked(nodes, n));
    assert forall|m: usize| live(sh, m) && m != n implies if nodes[m as int].parent == n {
        nodes[n as int].parent == NIL || (#[trigger] nodes[m as int]).prio
            <= nodes[nodes[n as int].parent as int].prio
    } else {
        ranked(nodes, m)
    } by {
        assert(ranked(nodes, m));
    }
}

/// Where the node that is left out is a leaf and is cut off, the rest is a heap.
proof fn lemma_cut_off(
    nodes: Seq<TreapNode>,
    now: Seq<TreapNode>,
    sh: Shape,
    root: usize,
    id: usize,
)
    requires
        tree(nodes, sh, root),
        live(sh, id),
        nodes[id as int].left == NIL,
        nodes[id as int].right == NIL,
        heaped_around(nodes, sh, id),
        now.len() == nodes.len(),
        forall|m: int|
            0 <= m < nodes.len() ==> (#[trigger] now[m]).prio == nodes[m].prio && (m != id
                ==> now[m].parent == nodes[m].parent),
    ensures
        heaped(now, without(sh, id)),
{
    assert forall|m: usize| live(without(sh, id), m) implies #[trigger] ranked(now, m) by {
        assert(m != id && live(sh, m));
        assert(linked(nodes, sh, root, m));
        assert(nodes[m as int].parent != id);
        assert(ranked(nodes, m));
        assert(now[m as int].parent == nodes[m as int].parent);
        let q = now[m as int].parent;
        if q != NIL {
            assert(now[q as int].prio == nodes[q as int].prio);
        }
    }
}

/// Whether `n` is a node of size 0 that is not part of the tree.
spec fn loose(nodes: Seq<TreapNode>, sh: Shape, n: usize) -> bool {
    &&& n < nodes.len()
    &&& sh.pos[n as int] < 0
    &&& nodes[n as int].left == NIL
    &&& nodes[n as int].right == NIL
    &&& nodes[n as int].left_size == 0
    &&& nodes[n as int].seg.size == 0
}

/// The shape after `new_id` became the left child of `host`.
spec fn with_left(sh: Shape, host: usize, new_id: usize) -> Shape {
    let k = sh.pos[host as int];
    Shape {
        order: sh.order.insert(k, new_id),
        pos: Seq::new(
            sh.pos.len(),
            |m: int|
                if m == new_id {
                    k
                } else if sh.pos[m] < k {
                    sh.pos[m]
                } else {
                    sh.pos[m] + 1
                },
        ),
        lo: Seq::new(
            sh.lo.len(),
            |m: int|
                if m == new_id {
                    k
                } else if sh.lo[m] <= k {
                    sh.lo[m]
                } else {
                    sh.lo[m] + 1
                },
        ),
        hi: Seq::new(
            sh.hi.len(),
            |m: int|
                if m == new_id {
                    k + 1
                } else if sh.hi[m] <= k {
                    sh.hi[m]
                } else {
                    sh.hi[m] + 1
                },
        ),
    }
}

/// The shape after `new_id` became the right child of `host`.
spec fn with_right(sh: Shape, host: usize, new_id: usize) -> Shape {
    let k = sh.pos[host as int] + 1;
    Shape {
        order: sh.order.insert(k, new_id),
        pos: Seq::new(
            sh.pos.len(),
            |m: int|
                if m == new_id {
                    k
                } else if sh.pos[m] < k {
                    sh.pos[m]
                } else {
                    sh.pos[m] + 1
                },
        ),
        lo: Seq::new(
            sh.lo.len(),
            |m: int|
                if m == new_id {
                    k
                } else if sh.lo[m] < k {
                    sh.lo[m]
                } else {
                    sh.lo[m] + 1
                },
        ),
        hi: Seq::new(
            sh.hi.len(),
            |m: int|
                if m == new_id {
                    k + 1
                } else if sh.hi[m] < k {
                    sh.hi[m]
                } else {
                    sh.hi[m] + 1
                },
        ),
    }
}

/// Inserting a segment of size 0 leaves the sums as they are.
proof fn lemma_cum_insert(segs: Seq<Seg>, k: int, x: Seg, i: int)
    requires
        0 <= k <= segs.len(),
        0 <= i <= segs.len() + 1,
        x.size == 0,
    ensures
        splice::cum(segs.insert(k, x), i) == splice::cum(
            segs,
            if i <= k {
                i
            } else {
                i - 1
            },
        ),
    decreases i,
{
    let new = segs.insert(k, x);
    if i <= k {
        assert(new.take(i) =~= segs.take(i));
    } else {
        splice::lemma_cum_step(new, i - 1);
        lemma_cum_insert(segs, k, x, i - 1);
        if i - 1 > k {
            splice::lemma_cum_step(segs, i - 2);
        }
    }
}

/// Where a new place is made, places and nodes still correspond.
proof fn lemma_placed(
    nodes: Seq<TreapNode>,
    now: Seq<TreapNode>,
    sh: Shape,
    new: Shape,
    k: int,
    new_id: usize,
)
    requires
        placed(nodes, sh),
        0 <= k <= sh.order.len(),
        new_id < nodes.len(),
        sh.pos[new_id as int] < 0,
        now.len() == nodes.len(),
        new.order == sh.order.insert(k, new_id),
        new.pos.len() == nodes.len() && new.lo.len() == nodes.len() && new.hi.len() == nodes.len(),
        forall|m: int|
            0 <= m < nodes.len() ==> #[trigger] new.pos[m] == (if m == new_id {
                k
            } else if sh.pos[m] < k {
                sh.pos[m]
            } else {
                sh.pos[m] + 1
            }),
        forall|m: int| 0 <= m < nodes.len() ==> now[m].seg == (#[trigger] nodes[m]).seg,
    ensures
        placed(now, new),
        segs_in(now, new.order) == segs_in(nodes, sh.order).insert(k, nodes[new_id as int].seg@),
{
    assert forall|j: int| 0 <= j < new.order.len() implies {
        &&& live(new, #[trigger] new.order[j])
        &&& new.pos[new.order[j] as int] == j
    } by {
        if j < k {
            assert(new.order[j] == sh.order[j]);
            assert(live(sh, sh.order[j]));
        } else if j > k {
            assert(new.order[j] == sh.order[j - 1]);
            assert(live(sh, sh.order[j - 1]));
        }
    }
    assert forall|m: usize| #[trigger] live(new, m) implies {
        &&& new.pos[m as int] < new.order.len()
        &&& new.order[new.pos[m as int]] == m
    } by {
        if m != new_id {
            assert(live(sh, m));
        }
    }
    let segs = segs_in(nodes, sh.order);
    let after = segs.insert(k, nodes[new_id as int].seg@);
    assert forall|j: int| 0 <= j < after.len() implies segs_in(now, new.order)[j] == after[j] by {
        if j < k {
            assert(live(sh, sh.order[j]));
            assert(now[sh.order[j] as int].seg == nodes[sh.order[j] as int].seg);
        } else if j > k {
            assert(live(sh, sh.order[j - 1]));
            assert(now[sh.order[j - 1] as int].seg == nodes[sh.order[j - 1] as int].seg);
        } else {
            assert(now[new_id as int].seg == nodes[new_id as int].seg);
        }
    }
    assert(segs_in(now, new.order) =~= after);
}

proof fn lemma_with_left(
    nodes: Seq<TreapNode>,
    now: Seq<TreapNode>,
    sh: Shape,
    root: usize,
    host: usize,
    new_id: usize,
)
    requires
        tree(nodes, sh, root),
        summed(nodes, sh),
        live(sh, host),
        nodes[host as int].left == NIL,
        loose(nodes, sh, new_id),
        now == nodes.update(host as int, TreapNode { left: new_id, ..nodes[host as int] }).update(
            new_id as int,
            TreapNode { parent: host, ..nodes[new_id as int] },
        ),
    ensures
        tree(now, with_left(sh, host, new_id), root),
        summed(now, with_left(sh, host, new_id)),
        segs_in(now, with_left(sh, host, new_id).order) == segs_in(nodes, sh.order).insert(
            sh.pos[host as int],
            nodes[new_id as int].seg@,
        ),
{
    let k = sh.pos[host as int];
    let new = with_left(sh, host, new_id);
    let segs = segs_in(nodes, sh.order);
    let x = nodes[new_id as int].seg@;
    assert(linked(nodes, sh, root, host));
    assert(linked(nodes, sh, root, root));
    lemma_placed(nodes, now, sh, new, k, new_id);
    assert forall|m: usize| live(new, m) implies #[trigger] linked(now, new, root, m) by {
        if m != new_id {
            assert(live(sh, m));
            assert(linked(nodes, sh, root, m));
        }
    }
    assert forall|m: usize| live(new, m) implies now[m as int].left_size == #[trigger] left_sum(
        now,
        new,
        m,
    ) by {
        if m != new_id {
            assert(live(sh, m));
            assert(linked(nodes, sh, root, m));
            assert(nodes[m as int].left_size == left_sum(nodes, sh, m));
        }
        lemma_cum_insert(segs, k, x, new.pos[m as int]);
        lemma_cum_insert(segs, k, x, new.lo[m as int]);
    }
}

proof fn lemma_with_right(
    nodes: Seq<TreapNode>,
    now: Seq<TreapNode>,
    sh: Shape,
    root: usize,
    host: usize,
    new_id: usize,
)
    requires
        tree(nodes, sh, root),
        summed(nodes, sh),
        live(sh, host),
        nodes[host as int].right == NIL,
        loose(nodes, sh, new_id),
        now == nodes.update(host as int, TreapNode { right: new_id, ..nodes[host as int] }).update(
            new_id as int,
            TreapNode { parent: host, ..nodes[new_id as int] },
        ),
    ensures
        tree(now, with_right(sh, host, new_id), root),
        summed(now, with_right(sh, host, new_id)),
        segs_in(now, with_right(sh, host, new_id).order) == segs_in(nodes, sh.order).insert(
            sh.pos[host as int] + 1,
            nodes[new_id as int].seg@,
        ),
{
    let k = sh.pos[host as int] + 1;
    let new = with_right(sh, host, new_id);
    let segs = segs_in(nodes, sh.order);
    let x = nodes[new_id as int].seg@;
    assert(linked(nodes, sh, root, host));
    assert(linked(nodes, sh, root, root));
    lemma_placed(nodes, now, sh, new, k, new_id);
    assert forall|m: usize| live(new, m) implies #[trigger] linked(now, new, root, m) by {
        if m != new_id {
            assert(live(sh, m));
            assert(linked(nodes, sh, root, m));
        }
    }
    assert forall|m: usize| live(new, m) implies now[m as int].left_size == #[trigger] left_sum(
        now,
        new,
        m,
    ) by {
        if m != new_id {
            assert(live(sh, m));
            assert(linked(nodes, sh, root, m));
            assert(nodes[m as int].left_size == left_sum(nodes, sh, m));
        }
        lemma_cum_insert(segs, k, x, new.pos[m as int]);
        lemma_cum_insert(segs, k, x, new.lo[m as int]);
    }
}

/// A node that is not part of the tree changes nothing of it.
proof fn lemma_allocated(
    nodes: Seq<TreapNode>,
    now: Seq<TreapNode>,
    sh: Shape,
    new: Shape,
    root: usize,
)
    requires
        tree(nodes, sh, root),
        summed(nodes, sh),
        now.len() == nodes.len() + 1,
        now.len() <= NIL,
        now.drop_last() == nodes,
        new == (Shape {
            order: sh.order,
            pos: sh.pos.push(-1),
            lo: sh.lo.push(0),
            hi: sh.hi.push(0),
        }),
    ensures
        tree(now, new, root),
        summed(now, new),
        segs_in(now, new.order) == segs_in(nodes, sh.order),
{
    assert forall|m: int| 0 <= m < nodes.len() implies now[m] == #[trigger] nodes[m] by {
        assert(now.drop_last()[m] == now[m]);
    }
    assert forall|m: usize| live(new, m) == live(sh, m) by {}
    assert forall|j: int| 0 <= j < new.order.len() implies {
        &&& live(new, #[trigger] new.order[j])
        &&& new.pos[new.order[j] as int] == j
    } by {
        assert(live(sh, sh.order[j]));
    }
    assert(placed(now, new));
    assert forall|j: int| 0 <= j < sh.order.len() implies segs_in(now, new.order)[j]
        == #[trigger] segs_in(nodes, sh.order)[j] by {
        assert(live(sh, sh.order[j]));
    }
    assert(segs_in(now, new.order) =~= segs_in(nodes, sh.order));
    assert forall|m: usize| live(new, m) implies #[trigger] linked(now, new, root, m) by {
        assert(live(sh, m));
        assert(linked(nodes, sh, root, m));
    }
    assert forall|m: usize| live(new, m) implies now[m as int].left_size == #[trigger] left_sum(
        now,
        new,
        m,
    ) by {
        assert(live(sh, m));
        assert(nodes[m as int].left_size == left_sum(nodes, sh, m));
    }
}

/// Changes to what the nodes hold do not concern the links.
proof fn lemma_relinked(nodes: Seq<TreapNode>, now: Seq<TreapNode>, sh: Shape, root: usize)
    requires
        tree(nodes, sh, root),
        now.len() == nodes.len(),
        forall|m: int|
            0 <= m < nodes.len() ==> {
                &&& (#[trigger] now[m]).left == nodes[m].left
                &&& now[m].right == nodes[m].right
                &&& now[m].parent == nodes[m].parent
            },
    ensures
        tree(now, sh, root),
{
    assert forall|m: usize| live(sh, m) implies #[trigger] linked(now, sh, root, m) by {
        assert(linked(nodes, sh, root, m));
    }
}

proof fn lemma_cum_update(segs: Seq<Seg>, k: int, x: Seg, i: int)
    requires
        0 <= k < segs.len(),
        0 <= i <= segs.len(),
    ensures
        splice::cum(segs.update(k, x), i) == splice::cum(segs, i) + (if i > k {
            x.size - segs[k].size
        } else {
            0
        }),
    decreases i,
{
    let new = segs.update(k, x);
    if i <= k {
        assert(new.take(i) =~= segs.take(i));
    } else {
        splice::lemma_cum_step(new, i - 1);
        splice::lemma_cum_step(segs, i - 1);
        lemma_cum_update(segs, k, x, i - 1);
    }
}

/// What node `m` knows of its left subtree while a change of the segment at
/// place `k` has reached no further up than node `n`.
spec fn stale_sum(segs: Seq<Seg>, now: Seq<Seg>, sh: Shape, k: int, n: usize, m: usize) -> int {
    let above = m != n && sh.lo[m as int] <= sh.pos[n as int] < sh.hi[m as int];
    let of = if above {
        segs
    } else {
        now
    };
    splice::cum(of, sh.pos[m as int]) - splice::cum(of, sh.lo[m as int])
}

proof fn lemma_at_id(st: TreapStore, id: usize)
    requires
        st.well_formed(),
        st.shape@.order.contains(id),
    ensures
        live(st.shape@, id),
        st.shape@.pos[id as int] == st.shape@.order.index_of(id),
        st.content()[st.shape@.pos[id as int]] == st.nodes@[id as int].seg@,
        0 <= st.shape@.pos[id as int] < st.shape@.order.len(),
{
    let k = st.shape@.order.index_of(id);
    assert(st.shape@.order[k] == id);
    assert(live(st.shape@, st.shape@.order[k]));
}

/// The next node to be made is not in the sequence.
proof fn lemma_fresh(st: TreapStore)
    requires
        st.well_formed(),
    ensures
        forall|id: usize| id >= st.nodes@.len() ==> !#[trigger] st.shape@.order.contains(id),
{
    assert forall|id: usize| id >= st.nodes@.len() implies !#[trigger] st.shape@.order.contains(
        id,
    ) by {
        if st.shape@.order.contains(id) {
            lemma_at_id(st, id);
        }
    }
}

/// Every position of the text has a segment that an edit there belongs to.
proof fn lemma_some_lands(segs: Seq<Seg>, start: int, k: int) -> (j: int)
    requires
        segments::settled(segs),
        0 <= k <= segs.len(),
        splice::cum(segs, k) <= start < segments::cur_len(segs),
        k == 0 || splice::cum(segs, k) < start || segs[k - 1].kept(),
    ensures
        segments::lands(segs, start, j),
    decreases segs.len() - k,
{
    assert(segs.take(segs.len() as int) =~= segs);
    assert(segs.take(0) =~= Seq::<Seg>::empty());
    assert(k < segs.len());
    splice::lemma_cum_step(segs, k);
    assert(segs[k].settled());
    reveal(segments::alternates);
    if segments::lands(segs, start, k) {
        k
    } else {
        if k > 0 {
            assert(segs[k - 1].kept() != segs[k].kept());
        }
        lemma_some_lands(segs, start, k + 1)
    }
}

/// The shape after the leaf `id` was cut off.
spec fn without(sh: Shape, id: usize) -> Shape {
    let k = sh.pos[id as int];
    Shape {
        order: sh.order.remove(k),
        pos: Seq::new(
            sh.pos.len(),
            |m: int|
                if m == id {
                    -1
                } else if sh.pos[m] < k {
                    sh.pos[m]
                } else {
                    sh.pos[m] - 1
                },
        ),
        lo: Seq::new(
            sh.lo.len(),
            |m: int|
                if sh.lo[m] <= k {
                    sh.lo[m]
                } else {
                    sh.lo[m] - 1
                },
        ),
        hi: Seq::new(
            sh.hi.len(),
            |m: int|
                if sh.hi[m] <= k {
                    sh.hi[m]
                } else {
                    sh.hi[m] - 1
                },
        ),
    }
}

/// Removing a segment of size 0 leaves the sums as they are.
proof fn lemma_cum_remove(segs: Seq<Seg>, k: int, i: int)
    requires
        0 <= k < segs.len(),
        0 <= i < segs.len(),
        segs[k].size == 0,
    ensures
        splice::cum(segs.remove(k), i) == splice::cum(
            segs,
            if i <= k {
                i
            } else {
                i + 1
            },
        ),
        splice::cum(segs, k + 1) == splice::cum(segs, k),
    decreases i,
{
    let new = segs.remove(k);
    splice::lemma_cum_step(segs, k);
    if i <= k {
        assert(new.take(i) =~= segs.take(i));
    } else {
        splice::lemma_cum_step(new, i - 1);
        splice::lemma_cum_step(segs, i);
        lemma_cum_remove(segs, k, i - 1);
    }
}

#[verifier::rlimit(50)]
proof fn lemma_without(
    nodes: Seq<TreapNode>,
    now: Seq<TreapNode>,
    sh: Shape,
    root: usize,
    id: usize,
)
    requires
        tree(nodes, sh, root),
        summed(nodes, sh),
        live(sh, id),
        nodes[id as int].left == NIL,
        nodes[id as int].right == NIL,
        nodes[id as int].seg.size == 0,
        nodes[id as int].parent != NIL,
        ({
            let p = nodes[id as int].parent as int;
            let cut = if nodes[p].left == id {
                TreapNode { left: NIL, ..nodes[p] }
            } else {
                TreapNode { right: NIL, ..nodes[p] }
            };
            now == nodes.update(p, cut).update(
                id as int,
                TreapNode { parent: NIL, ..nodes[id as int] },
            )
        }),
    ensures
        tree(now, without(sh, id), root),
        summed(now, without(sh, id)),
        segs_in(now, without(sh, id).order) == segs_in(nodes, sh.order).remove(sh.pos[id as int]),
{
    let k = sh.pos[id as int];
    let p = nodes[id as int].parent;
    let new = without(sh, id);
    let segs = segs_in(nodes, sh.order);
    assert(linked(nodes, sh, root, id));
    assert(linked(nodes, sh, root, p));
    assert(linked(nodes, sh, root, root));
    assert(segs[k] == nodes[id as int].seg@);
    assert forall|m: usize| live(new, m) == (live(sh, m) && m != id) by {
        if live(sh, m) && m != id {
            assert(sh.pos[m as int] != k);
        }
    }
    assert forall|j: int| 0 <= j < new.order.len() implies {
        &&& live(new, #[trigger] new.order[j])
        &&& new.pos[new.order[j] as int] == j
    } by {
        let i = if j < k {
            j
        } else {
            j + 1
        };
        assert(new.order[j] == sh.order[i]);
        assert(live(sh, sh.order[i]));
    }
    assert forall|m: usize| #[trigger] live(new, m) implies {
        &&& new.pos[m as int] < new.order.len()
        &&& new.order[new.pos[m as int]] == m
    } by {
        assert(live(sh, m));
        assert(sh.pos[m as int] != k);
    }
    let after = segs.remove(k);
    assert forall|j: int| 0 <= j < after.len() implies segs_in(now, new.order)[j] == after[j] by {
        let i = if j < k {
            j
        } else {
            j + 1
        };
        assert(new.order[j] == sh.order[i]);
        assert(live(sh, sh.order[i]));
    }
    assert(segs_in(now, new.order) =~= after);
    assert forall|m: usize| live(new, m) implies #[trigger] linked(now, new, root, m) by {
        assert(live(sh, m));
        assert(sh.pos[m as int] != k);
        assert(linked(nodes, sh, root, m));
    }
    assert forall|m: usize| live(new, m) implies now[m as int].left_size == #[trigger] left_sum(
        now,
        new,
        m,
    ) by {
        assert(live(sh, m));
        assert(sh.pos[m as int] != k);
        assert(linked(nodes, sh, root, m));
        assert(nodes[m as int].left_size == left_sum(nodes, sh, m));
        lemma_cum_remove(segs, k, new.pos[m as int]);
        lemma_cum_remove(segs, k, new.lo[m as int]);
    }
}

/// Where the subtree of the node at height `a` of a stack of left turns ends.
spec fn end_of(sh: Shape, stack: Seq<usize>, a: int) -> int {
    if a == 0 {
        sh.order.len() as int
    } else {
        sh.pos[stack[a - 1] as int]
    }
}

/// Whether each node of the stack is the last of what is left of the one
/// below it.
spec fn stacked(sh: Shape, stack: Seq<usize>) -> bool {
    forall|a: int|
        0 <= a < stack.len() ==> live(sh, #[trigger] stack[a]) && sh.hi[stack[a] as int] == end_of(
            sh,
            stack,
            a,
        )
}

/// Whether place `k` comes next: the subtree of `n` is to be walked, then what
/// the stack holds.
spec fn due(sh: Shape, stack: Seq<usize>, n: usize, k: int) -> bool {
    let end = end_of(sh, stack, stack.len() as int);
    if n == NIL {
        k == end
    } else {
        live(sh, n) && sh.lo[n as int] == k && sh.hi[n as int] == end
    }
}

/// Apart from the parent of `n` itself, a node is above the one if and only if
/// it is above the other.
proof fn lemma_same_above(nodes: Seq<TreapNode>, sh: Shape, root: usize, n: usize, m: usize)
    requires
        tree(nodes, sh, root),
        live(sh, n),
        live(sh, m),
        nodes[n as int].parent != NIL,
        m != nodes[n as int].parent,
    ensures
        ({
            let p = nodes[n as int].parent;
            (m != n && sh.lo[m as int] <= sh.pos[n as int] < sh.hi[m as int]) == (sh.lo[m as int]
                <= sh.pos[p as int] < sh.hi[m as int])
        }),
{
    let p = nodes[n as int].parent;
    assert(linked(nodes, sh, root, n));
    assert(linked(nodes, sh, root, p));
    if m != n && sh.lo[m as int] <= sh.pos[n as int] < sh.hi[m as int] {
        lemma_parent(nodes, sh, root, m, n);
    }
    if sh.lo[m as int] <= sh.pos[p as int] < sh.hi[m as int] {
        lemma_nested(nodes, sh, root, m, p);
    }
}

/// A change that has reached the root has reached every node.
proof fn lemma_risen(
    nodes: Seq<TreapNode>,
    segs: Seq<Seg>,
    now: Seq<Seg>,
    sh: Shape,
    root: usize,
    k: int,
)
    requires
        tree(nodes, sh, root),
        now == segs_in(nodes, sh.order),
        forall|m: usize|
            live(sh, m) ==> #[trigger] nodes[m as int].left_size == stale_sum(
                segs,
                now,
                sh,
                k,
                root,
                m,
            ),
    ensures
        summed(nodes, sh),
{
    assert forall|m: usize| live(sh, m) implies nodes[m as int].left_size == #[trigger] left_sum(
        nodes,
        sh,
        m,
    ) by {
        assert(nodes[m as int].left_size == stale_sum(segs, now, sh, k, root, m));
        if m != root && sh.lo[m as int] <= sh.pos[root as int] < sh.hi[m as int] {
            lemma_parent(nodes, sh, root, m, root);
        }
    }
}

impl TreapStore {
    spec fn content(&self) -> Seq<Seg> {
        segs_in(self.nodes@, self.shape@.order)
    }

    spec fn well_formed(&self) -> bool {
        &&& tree(self.nodes@, self.shape@, self.root)
        &&& summed(self.nodes@, self.shape@)
    }

    /// Rotates `n` above its parent, keeping `left_size` right. That takes no more
    /// than the two nodes' own fields.
    fn rotate_up(&mut self, n: usize)
        requires
            old(self).well_formed(),
            live(old(self).shape@, n),
            old(self).nodes@[n as int].parent != NIL,
            segments::cur_len(old(self).content()) <= usize::MAX,
        ensures
            final(self).well_formed(),
            final(self).content() == old(self).content(),
            rotated(old(self).nodes@, final(self).nodes@, n),
            final(self).shape@ == turned(old(self).nodes@, old(self).shape@, n),
            same_items(old(self).nodes@, final(self).nodes@),
            ({
                let sh = old(self).shape@;
                let p = old(self).nodes@[n as int].parent as int;
                let left = old(self).nodes@[p].left == n;
                let now = final(self).shape@;
                &&& now.lo[n as int] == sh.lo[p]
                &&& now.hi[n as int] == sh.hi[p]
                &&& now.hi[p] - now.lo[p] < sh.hi[p] - sh.lo[p]
                &&& now.hi[n as int] - now.lo[n as int] > sh.hi[n as int] - sh.lo[n as int]
            }),
            final(self).nodes@.len() == old(self).nodes@.len(),
    {
        let p = self.nodes[n].parent;
        assert(linked(self.nodes@, self.shape@, self.root, n));
        let g = self.nodes[p].parent;
        let ghost sh = self.shape@;
        let ghost was = self.nodes@;
        let ghost root = self.root;
        proof {
            lemma_apart(was, sh, root, n);
            lemma_room(was, sh, root, n);
        }
        if self.nodes[p].left == n {
            let moved = self.nodes[n].right;
            self.nodes[p].left = moved;
            if moved != NIL {
                self.nodes[moved].parent = p;
            }
            self.nodes[n].right = p;
            let below = self.nodes[n].left_size + self.nodes[n].seg.size;
            self.nodes[p].left_size = self.nodes[p].left_size - below;
        } else {
            let moved = self.nodes[n].left;
            self.nodes[p].right = moved;
            if moved != NIL {
                self.nodes[moved].parent = p;
            }
            self.nodes[n].left = p;
            let below = self.nodes[p].left_size + self.nodes[p].seg.size;
            self.nodes[n].left_size = self.nodes[n].left_size + below;
        }
        self.nodes[p].parent = n;
        self.nodes[n].parent = g;
        if g == NIL {
            self.root = n;
        } else if self.nodes[g].left == p {
            self.nodes[g].left = n;
        } else {
            self.nodes[g].right = n;
        }
        proof {
            self.shape@ = turned(was, sh, n);
            lemma_rotated(was, self.nodes@, sh, root, self.root, n);
        }
    }

    /// Rotates `n` above all nodes that it stands below and whose priorities are lower,
    /// up to the first one of which that is not so.
    #[verifier::rlimit(40)]
    fn bubble_prio(&mut self, n: usize)
        requires
            old(self).well_formed(),
            live(old(self).shape@, n),
            segments::cur_len(old(self).content()) <= usize::MAX,
        ensures
            final(self).well_formed(),
            final(self).content() == old(self).content(),
            final(self).shape@.order == old(self).shape@.order,
            final(self).shape@.pos == old(self).shape@.pos,
            same_items(old(self).nodes@, final(self).nodes@),
            ranked(final(self).nodes@, n),
            forall|m: usize|
                live(old(self).shape@, m) && #[trigger] above(final(self).shape@, m, n) ==> above(
                    old(self).shape@,
                    m,
                    n,
                ),
            forall|m: usize|
                live(old(self).shape@, m) && #[trigger] above(old(self).shape@, m, n) && !above(
                    final(self).shape@,
                    m,
                    n,
                ) ==> old(self).nodes@[m as int].prio < old(self).nodes@[n as int].prio,
            heaped_but(old(self).nodes@, old(self).shape@, n) ==> heaped(
                final(self).nodes@,
                final(self).shape@,
            ),
    {
        assert(linked(self.nodes@, self.shape@, self.root, n));
        while self.nodes[n].parent != NIL && self.nodes[n].prio > self.nodes[self.nodes[n].parent].prio
            invariant
                self.well_formed(),
                live(self.shape@, n),
                linked(self.nodes@, self.shape@, self.root, n),
                segments::cur_len(self.content()) <= usize::MAX,
                self.content() == old(self).content(),
                self.shape@.order == old(self).shape@.order,
                self.shape@.pos == old(self).shape@.pos,
                same_items(old(self).nodes@, self.nodes@),
                forall|m: usize|
                    live(old(self).shape@, m) && #[trigger] above(self.shape@, m, n) ==> above(
                        old(self).shape@,
                        m,
                        n,
                    ),
                forall|m: usize|
                    live(old(self).shape@, m) && #[trigger] above(old(self).shape@, m, n)
                        && !above(self.shape@, m, n) ==> old(self).nodes@[m as int].prio < old(
                        self,
                    ).nodes@[n as int].prio,
                heaped_but(old(self).nodes@, old(self).shape@, n) ==> heaped_but(
                    self.nodes@,
                    self.shape@,
                    n,
                ),
            decreases
                self.shape@.order.len() - (self.shape@.hi[n as int] - self.shape@.lo[n as int]),
        {
            let ghost was = *self;
            self.rotate_up(n);
            proof {
                lemma_apart(was.nodes@, was.shape@, was.root, n);
                assert(linked(self.nodes@, self.shape@, self.root, n));
                if heaped_but(was.nodes@, was.shape@, n) {
                    lemma_raised(was.nodes@, self.nodes@, was.shape@, was.root, n);
                }
                assert forall|m: usize|
                    live(old(self).shape@, m) && #[trigger] above(self.shape@, m, n) implies above(
                    old(self).shape@,
                    m,
                    n,
                ) by {
                    assert(above(was.shape@, m, n));
                }
                assert forall|m: usize|
                    live(old(self).shape@, m) && #[trigger] above(old(self).shape@, m, n)
                        && !above(self.shape@, m, n) implies old(self).nodes@[m as int].prio < old(
                    self,
                ).nodes@[n as int].prio by {
                    assert(above(was.shape@, m, n) ==> m == was.nodes@[n as int].parent);
                    assert(was.nodes@[m as int].prio == old(self).nodes@[m as int].prio);
                }
            }
        }
    }

    /// Makes `new_id`, of size 0, the left child of `host`, which has none.
    fn link_left(&mut self, host: usize, new_id: usize)
        requires
            old(self).well_formed(),
            live(old(self).shape@, host),
            old(self).nodes@[host as int].left == NIL,
            loose(old(self).nodes@, old(self).shape@, new_id),
        ensures
            final(self).well_formed(),
            live(final(self).shape@, new_id),
            final(self).shape@.order == old(self).shape@.order.insert(
                old(self).shape@.pos[host as int],
                new_id,
            ),
            final(self).content() == old(self).content().insert(
                old(self).shape@.pos[host as int],
                old(self).nodes@[new_id as int].seg@,
            ),
            heaped(old(self).nodes@, old(self).shape@) ==> heaped_but(
                final(self).nodes@,
                final(self).shape@,
                new_id,
            ),
    {
        let ghost sh = self.shape@;
        let ghost was = self.nodes@;
        self.nodes[host].left = new_id;
        self.nodes[new_id].parent = host;
        proof {
            self.shape@ = with_left(sh, host, new_id);
            lemma_with_left(was, self.nodes@, sh, self.root, host, new_id);
            if heaped(was, sh) {
                lemma_hung(was, self.nodes@, sh, self.shape@, self.root, new_id);
            }
        }
    }

    /// Makes `new_id`, of size 0, the right child of `host`, which has none.
    fn link_right(&mut self, host: usize, new_id: usize)
        requires
            old(self).well_formed(),
            live(old(self).shape@, host),
            old(self).nodes@[host as int].right == NIL,
            loose(old(self).nodes@, old(self).shape@, new_id),
        ensures
            final(self).well_formed(),
            live(final(self).shape@, new_id),
            final(self).shape@.order == old(self).shape@.order.insert(
                old(self).shape@.pos[host as int] + 1,
                new_id,
            ),
            final(self).content() == old(self).content().insert(
                old(self).shape@.pos[host as int] + 1,
                old(self).nodes@[new_id as int].seg@,
            ),
            heaped(old(self).nodes@, old(self).shape@) ==> heaped_but(
                final(self).nodes@,
                final(self).shape@,
                new_id,
            ),
    {
        let ghost sh = self.shape@;
        let ghost was = self.nodes@;
        self.nodes[host].right = new_id;
        self.nodes[new_id].parent = host;
        proof {
            self.shape@ = with_right(sh, host, new_id);
            lemma_with_right(was, self.nodes@, sh, self.root, host, new_id);
            if heaped(was, sh) {
                lemma_hung(was, self.nodes@, sh, self.shape@, self.root, new_id);
            }
        }
    }

    /// Whether every node knows the size of its left subtree, which is so of
    /// every store.
    pub fn dbg_check(&self) -> (out: bool)
        requires
            self.inv(),
            segments::cur_len(self.segs()) <= usize::MAX,
        ensures
            out,
    {
        assert(linked(self.nodes@, self.shape@, self.root, self.root));
        self.total(self.root, Ghost((0int, self.shape@.order.len() as int))).is_some()
    }

    /// The total size of a subtree, which holds the segments of the given
    /// interval; none if a node below knows a wrong size.
    fn total(&self, n: usize, Ghost(of): Ghost<(int, int)>) -> (out: Option<usize>)
        requires
            self.well_formed(),
            segments::cur_len(self.content()) <= usize::MAX,
            0 <= of.0 <= of.1 <= self.shape@.order.len(),
            if n == NIL {
                of.0 == of.1
            } else {
                live(self.shape@, n) && self.shape@.lo[n as int] == of.0 && self.shape@.hi[n as int]
                    == of.1
            },
        ensures
            out == Some(
                (splice::cum(self.content(), of.1) - splice::cum(self.content(), of.0)) as usize,
            ),
            splice::cum(self.content(), of.1) - splice::cum(self.content(), of.0) <= usize::MAX,
            splice::cum(self.content(), of.1) - splice::cum(self.content(), of.0) >= 0,
        decreases of.1 - of.0,
    {
        let ghost segs = self.content();
        proof {
            lemma_sizes(segs, of.0, of.1);
        }
        if n == NIL {
            return Some(0);
        }
        let ghost k = self.shape@.pos[n as int];
        proof {
            assert(linked(self.nodes@, self.shape@, self.root, n));
            assert(self.nodes@[n as int].left_size == left_sum(self.nodes@, self.shape@, n));
            assert(segs[k] == self.nodes@[n as int].seg@);
            splice::lemma_cum_step(segs, k);
            lemma_sizes(segs, of.0, k);
            lemma_sizes(segs, k + 1, of.1);
        }
        match (
            self.total(self.nodes[n].left, Ghost((of.0, k))),
            self.total(self.nodes[n].right, Ghost((k + 1, of.1))),
        ) {
            (Some(left), Some(right)) => {
                if left == self.nodes[n].left_size {
                    Some(left + self.nodes[n].seg.size + right)
                } else {
                    None
                }
            },
            _ => None,
        }
    }

    /// A store that holds all of the original text as one kept segment.
    pub fn new() -> (out: TreapStore)
        ensures
            out.inv(),
            out.segs() == seq![segments::kept_seg(HUGE as int)],
    {
        let mut st = TreapStore {
            nodes: Vec::new(),
            root: 0,
            rng: 0x2545F4914F6CDD1D,
            shape: Ghost(
                Shape {
                    order: Seq::empty(),
                    pos: Seq::empty(),
                    lo: Seq::empty(),
                    hi: Seq::empty(),
                },
            ),
        };
        st.allocate(Segment::kept(HUGE));
        proof {
            st.shape@ = Shape { order: seq![0usize], pos: seq![0int], lo: seq![0int], hi: seq![1int] };
            assert(st.segs() =~= seq![segments::kept_seg(HUGE as int)]);
            assert(placed(st.nodes@, st.shape@));
            assert(left_sum(st.nodes@, st.shape@, 0) == 0);
        }
        st
    }

    /// Adds a node that is not part of the tree yet. Priorities come from a
    /// fixed sequence of mixed bits.
    fn allocate(&mut self, seg: Segment) -> (out: usize)
        ensures
            out == old(self).nodes@.len(),
            final(self).nodes@.len() == out + 1,
            final(self).nodes@.len() <= NIL,
            final(self).nodes@.drop_last() == old(self).nodes@,
            final(self).nodes@[out as int].seg == seg,
            final(self).nodes@[out as int].left == NIL,
            final(self).nodes@[out as int].right == NIL,
            final(self).nodes@[out as int].parent == NIL,
            final(self).nodes@[out as int].left_size == 0,
            final(self).root == old(self).root,
            final(self).shape@ == (Shape {
                order: old(self).shape@.order,
                pos: old(self).shape@.pos.push(-1),
                lo: old(self).shape@.lo.push(0),
                hi: old(self).shape@.hi.push(0),
            }),
    {
        self.rng = self.rng.wrapping_mul(0x9E3779B97F4A7C15).wrapping_add(0xBF58476D1CE4E5B9);
        let mut z: u64 = self.rng;
        z = (z ^ (z >> 30)).wrapping_mul(0xBF58476D1CE4E5B9);
        z = (z ^ (z >> 27)).wrapping_mul(0x94D049BB133111EB);
        self.nodes.push(
            TreapNode { seg, prio: z ^ (z >> 31), left: NIL, right: NIL, parent: NIL, left_size: 0 },
        );
        proof {
            self.shape@ = Shape {
                order: self.shape@.order,
                pos: self.shape@.pos.push(-1),
                lo: self.shape@.lo.push(0),
                hi: self.shape@.hi.push(0),
            };
            assert(self.nodes@.drop_last() =~= old(self).nodes@);
            assert(self.nodes.len() <= NIL);
        }
        self.nodes.len() - 1
    }

    /// Attaches `new_id`, of size 0, immediately before or after `id`. With that
    /// size no sum changes.
    #[verifier::rlimit(50)]
    fn attach(&mut self, id: usize, new_id: usize, before: bool)
        requires
            old(self).well_formed(),
            live(old(self).shape@, id),
            loose(old(self).nodes@, old(self).shape@, new_id),
            segments::cur_len(old(self).content()) <= usize::MAX,
            heaped(old(self).nodes@, old(self).shape@),
        ensures
            final(self).well_formed(),
            heaped(final(self).nodes@, final(self).shape@),
            ({
                let k = old(self).shape@.pos[id as int] + if before {
                    0int
                } else {
                    1
                };
                &&& final(self).shape@.order == old(self).shape@.order.insert(k, new_id)
                &&& final(self).content() == old(self).content().insert(
                    k,
                    old(self).nodes@[new_id as int].seg@,
                )
            }),
    {
        let ghost sh = self.shape@;
        let ghost segs = self.content();
        let ghost x = self.nodes@[new_id as int].seg@;
        assert(linked(self.nodes@, sh, self.root, id));
        if before {
            if self.nodes[id].left == NIL {
                self.link_left(id, new_id);
            } else {
                let mut n: usize = self.nodes[id].left;
                assert(linked(self.nodes@, sh, self.root, n));
                while self.nodes[n].right != NIL
                    invariant
                        *self == *old(self),
                        self.well_formed(),
                        self.shape@ == sh,
                        live(sh, n),
                        linked(self.nodes@, sh, self.root, n),
                        sh.hi[n as int] == sh.pos[id as int],
                    decreases sh.hi[n as int] - sh.lo[n as int],
                {
                    n = self.nodes[n].right;
                    assert(linked(self.nodes@, sh, self.root, n));
                }
                self.link_right(n, new_id);
            }
        } else {
            if self.nodes[id].right == NIL {
                self.link_right(id, new_id);
            } else {
                let mut n: usize = self.nodes[id].right;
                assert(linked(self.nodes@, sh, self.root, n));
                while self.nodes[n].left != NIL
                    invariant
                        *self == *old(self),
                        self.well_formed(),
                        self.shape@ == sh,
                        live(sh, n),
                        linked(self.nodes@, sh, self.root, n),
                        sh.lo[n as int] == sh.pos[id as int] + 1,
                    decreases sh.hi[n as int] - sh.lo[n as int],
                {
                    n = self.nodes[n].left;
                    assert(linked(self.nodes@, sh, self.root, n));
                }
                self.link_left(n, new_id);
            }
        }
        proof {
            let k = sh.pos[id as int] + if before {
                0int
            } else {
                1
            };
            splice::lemma_insert(segs, k, x);
        }
        self.bubble_prio(new_id);
    }

    /// Adds a segment immediately before or after `id`.
    fn insert(&mut self, id: usize, seg: Segment, before: bool) -> (out: usize)
        requires
            old(self).well_formed(),
            live(old(self).shape@, id),
            segments::cur_len(old(self).content()) + seg@.size <= usize::MAX,
            heaped(old(self).nodes@, old(self).shape@),
        ensures
            final(self).well_formed(),
            heaped(final(self).nodes@, final(self).shape@),
            out == old(self).nodes@.len(),
            ({
                let k = old(self).shape@.pos[id as int] + if before {
                    0int
                } else {
                    1
                };
                &&& final(self).shape@.order == old(self).shape@.order.insert(k, out)
                &&& final(self).content() == old(self).content().insert(k, seg@)
            }),
    {
        let size = seg.size;
        let mut seg = seg;
        seg.size = 0;
        let ghost k = self.shape@.pos[id as int] + if before {
            0int
        } else {
            1
        };
        let ghost segs = self.content();
        let ghost x = seg@;
        assert(linked(self.nodes@, self.shape@, self.root, id));
        let new_id = self.allocate(seg);
        proof {
            lemma_allocated(old(self).nodes@, self.nodes@, old(self).shape@, self.shape@, self.root);
            assert forall|m: usize| live(self.shape@, m) implies #[trigger] ranked(self.nodes@, m) by {
                let was = old(self).nodes@;
                assert(live(old(self).shape@, m));
                assert(linked(was, old(self).shape@, self.root, m));
                assert(ranked(was, m));
                assert(self.nodes@[m as int] == self.nodes@.drop_last()[m as int]);
                let q = was[m as int].parent;
                if q != NIL {
                    assert(self.nodes@[q as int] == self.nodes@.drop_last()[q as int]);
                }
            }
            splice::lemma_insert(segs, k, x);
        }
        self.attach(id, new_id, before);
        proof {
            assert(self.shape@.order[k] == new_id);
            assert(live(self.shape@, self.shape@.order[k]));
            assert(self.content()[k] == self.nodes@[new_id as int].seg@);
            assert(self.content()[k] == x);
        }
        if size > 0 {
            self.resize_node(new_id, size);
        }
        proof {
            assert(self.content() =~= segs.insert(k, Seg { size: size as int, ..x }));
        }
        new_id
    }

    #[verifier::rlimit(50)]
    fn resize_node(&mut self, id: usize, new_size: usize)
        requires
            old(self).well_formed(),
            live(old(self).shape@, id),
            segments::cur_len(old(self).content()) <= usize::MAX,
            segments::cur_len(old(self).content()) - old(self).nodes@[id as int].seg.size + new_size
                <= usize::MAX,
        ensures
            final(self).well_formed(),
            final(self).shape@ == old(self).shape@,
            final(self).content() == old(self).content().update(
                old(self).shape@.pos[id as int],
                Seg { size: new_size as int, ..old(self).nodes@[id as int].seg@ },
            ),
            final(self).nodes@.len() == old(self).nodes@.len(),
            heaped(old(self).nodes@, old(self).shape@) ==> heaped(
                final(self).nodes@,
                final(self).shape@,
            ),
    {
        let ghost sh = self.shape@;
        let ghost k = sh.pos[id as int];
        let ghost segs = self.content();
        let size = self.nodes[id].seg.size;
        if size == new_size {
            assert(segs[k] == self.nodes@[id as int].seg@);
            assert(segs.update(k, Seg { size: new_size as int, ..segs[k] }) =~= segs);
            return ;
        }
        self.nodes[id].seg.size = new_size;
        let ghost now = self.content();
        proof {
            assert(segs[k] == old(self).nodes@[id as int].seg@);
            assert(now =~= segs.update(k, Seg { size: new_size as int, ..segs[k] }));
            splice::lemma_update(segs, k, now[k]);
            assert(linked(old(self).nodes@, sh, self.root, id));
            lemma_relinked(old(self).nodes@, self.nodes@, sh, self.root);
            assert forall|m: usize| live(sh, m) implies #[trigger] self.nodes@[m as int].left_size
                == stale_sum(segs, now, sh, k, id, m) by {
                assert(linked(old(self).nodes@, sh, self.root, m));
                assert(old(self).nodes@[m as int].left_size == left_sum(old(self).nodes@, sh, m));
                lemma_cum_update(segs, k, now[k], sh.pos[m as int]);
                lemma_cum_update(segs, k, now[k], sh.lo[m as int]);
            }
        }
        let mut n: usize = id;
        loop
            invariant
                tree(self.nodes@, sh, self.root),
                self.shape@ == sh,
                self.nodes@.len() == old(self).nodes@.len(),
                forall|m: int|
                    0 <= m < self.nodes@.len() ==> (#[trigger] self.nodes@[m]).prio == old(
                        self,
                    ).nodes@[m].prio && self.nodes@[m].parent == old(self).nodes@[m].parent,
                live(sh, n),
                live(sh, id),
                k == sh.pos[id as int],
                sh.lo[n as int] <= k < sh.hi[n as int],
                self.content() == now,
                now == segs.update(k, Seg { size: new_size as int, ..segs[k] }),
                segs.len() == sh.order.len(),
                segs[k].size == size,
                segments::cur_len(segs) <= usize::MAX,
                segments::cur_len(now) <= usize::MAX,
                forall|i: int| 0 <= i < segs.len() ==> (#[trigger] segs[i]).size >= 0,
                forall|m: usize|
                    live(sh, m) ==> #[trigger] self.nodes@[m as int].left_size == stale_sum(
                        segs,
                        now,
                        sh,
                        k,
                        n,
                        m,
                    ),
            ensures
                self.well_formed(),
                self.shape@ == sh,
                self.nodes@.len() == old(self).nodes@.len(),
                forall|m: int|
                    0 <= m < self.nodes@.len() ==> (#[trigger] self.nodes@[m]).prio == old(
                        self,
                    ).nodes@[m].prio && self.nodes@[m].parent == old(self).nodes@[m].parent,
                self.content() == now,
            decreases sh.order.len() - (sh.hi[n as int] - sh.lo[n as int]),
        {
            let p = self.nodes[n].parent;
            assert(linked(self.nodes@, sh, self.root, n));
            if p == NIL {
                proof {
                    lemma_risen(self.nodes@, segs, now, sh, self.root, k);
                }
                break;
            }
            let ghost before = self.nodes@;
            proof {
                assert(linked(before, sh, self.root, p));
                assert(before[p as int].left_size == stale_sum(segs, now, sh, k, n, p));
                lemma_cum_update(segs, k, now[k], sh.pos[p as int]);
                lemma_cum_update(segs, k, now[k], sh.lo[p as int]);
                lemma_sizes(now, sh.lo[p as int], sh.pos[p as int]);
                if before[p as int].left == n {
                    lemma_sizes(segs, sh.lo[p as int], k);
                    lemma_sizes(segs, k + 1, sh.pos[p as int]);
                }
            }
            if self.nodes[p].left == n {
                let rest = self.nodes[p].left_size - size;
                self.nodes[p].left_size = rest + new_size;
            }
            proof {
                assert(self.content() =~= now);
                lemma_relinked(before, self.nodes@, sh, self.root);
                assert forall|m: usize| live(sh, m) implies #[trigger] self.nodes@[m as int].left_size
                    == stale_sum(segs, now, sh, k, p, m) by {
                    assert(before[m as int].left_size == stale_sum(segs, now, sh, k, n, m));
                    if m != p {
                        lemma_same_above(before, sh, self.root, n, m);
                    }
                }
            }
            n = p;
        }
        proof {
            if heaped(old(self).nodes@, sh) {
                lemma_still_heaped(old(self).nodes@, self.nodes@, sh, old(self).root);
            }
        }
    }
}

impl SegStore for TreapStore {
    closed spec fn inv(&self) -> bool {
        self.well_formed() && heaped(self.nodes@, self.shape@)
    }

    closed spec fn ids(&self) -> Seq<usize> {
        self.shape@.order
    }

    closed spec fn segs(&self) -> Seq<Seg> {
        self.content()
    }

    proof fn lemma_ids(&self) {
        assert forall|i: int, j: int|
            0 <= i < j < self.ids().len() implies self.ids()[i] != self.ids()[j] by {
            assert(live(self.shape@, self.shape@.order[i]));
            assert(live(self.shape@, self.shape@.order[j]));
        }
    }

    #[verifier::rlimit(40)]
    fn locate(&self, start: usize) -> (out: (usize, usize)) {
        let ghost sh = self.shape@;
        let ghost segs = self.content();
        let mut rest: usize = start;
        let mut n: usize = self.root;
        let ghost j = lemma_some_lands(segs, start as int, 0);
        proof {
            assert(linked(self.nodes@, sh, self.root, n));
        }
        loop
            invariant
                self.well_formed(),
                sh == self.shape@,
                segs == self.content(),
                segments::settled(segs),
                segments::cur_len(segs) <= usize::MAX,
                live(sh, n),
                segments::lands(segs, start as int, j),
                sh.lo[n as int] <= j < sh.hi[n as int],
                rest == start - splice::cum(segs, sh.lo[n as int]),
            decreases sh.hi[n as int] - sh.lo[n as int],
        {
            let node = &self.nodes[n];
            let ls = node.left_size;
            let ghost q = sh.pos[n as int];
            proof {
                assert(linked(self.nodes@, sh, self.root, n));
                assert(node.left_size == left_sum(self.nodes@, sh, n));
                assert(segs[q] == node.seg@);
                assert(segs[q].settled());
                splice::lemma_cum_mono(segs, sh.lo[n as int], q);
                splice::lemma_cum_step(segs, q);
                splice::lemma_cum_step(segs, j);
                splice::lemma_cum_mono(segs, q + 1, segs.len() as int);
                if j < q {
                    splice::lemma_cum_mono(segs, j + 1, q);
                } else if j > q {
                    splice::lemma_cum_mono(segs, q + 1, j);
                }
            }
            proof {
                if node.left != NIL {
                    assert(linked(self.nodes@, sh, self.root, node.left));
                }
                if node.right != NIL {
                    assert(linked(self.nodes@, sh, self.root, node.right));
                }
            }
            if rest < ls || (node.left != NIL && node.seg.is_kept() && rest == ls) {
                n = node.left;
            } else if rest > ls + node.seg.size || (node.seg.is_kept() && rest == ls
                + node.seg.size) {
                rest -= ls + node.seg.size;
                n = node.right;
            } else {
                proof {
                    assert(self.ids()[q] == n);
                    assert(segments::lands(segs, start as int, q));
                }
                return (n, rest - ls);
            }
        }
    }

    fn next_of(&self, id: usize) -> (out: usize) {
        let ghost sh = self.shape@;
        let ghost k = sh.pos[id as int];
        proof {
            lemma_at_id(*self, id);
            assert(linked(self.nodes@, sh, self.root, id));
        }
        if self.nodes[id].right != NIL {
            let mut n: usize = self.nodes[id].right;
            assert(linked(self.nodes@, sh, self.root, n));
            while self.nodes[n].left != NIL
                invariant
                    self.well_formed(),
                    self.shape@ == sh,
                    live(sh, n),
                    linked(self.nodes@, sh, self.root, n),
                    sh.lo[n as int] == k + 1,
                decreases sh.hi[n as int] - sh.lo[n as int],
            {
                n = self.nodes[n].left;
                assert(linked(self.nodes@, sh, self.root, n));
            }
            n
        } else {
            let mut n: usize = id;
            loop
                invariant
                    self.well_formed(),
                    self.shape@ == sh,
                    live(sh, n),
                    linked(self.nodes@, sh, self.root, n),
                    sh.hi[n as int] == k + 1,
                    k + 1 < sh.order.len(),
                    k == self.ids().index_of(id),
                decreases sh.order.len() - (sh.hi[n as int] - sh.lo[n as int]),
            {
                let p = self.nodes[n].parent;
                assert(linked(self.nodes@, sh, self.root, p));
                if self.nodes[p].left == n {
                    return p;
                }
                n = p;
            }
        }
    }

    fn seg(&self, id: usize) -> (out: &Segment) {
        proof {
            lemma_at_id(*self, id);
        }
        &self.nodes[id].seg
    }

    fn set_content(&mut self, id: usize, content: Option<SmartString>, del: usize) {
        let ghost told = content;
        let ghost segs = self.content();
        let ghost sh = self.shape@;
        proof {
            lemma_at_id(*self, id);
        }
        self.nodes[id].seg.content = content;
        self.nodes[id].seg.del = del;
        proof {
            let k = sh.pos[id as int];
            let new = Seg {
                size: segs[k].size,
                del: del as int,
                content: match told {
                    Some(c) => Some(c@),
                    None => None,
                },
            };
            assert(self.content() =~= segs.update(k, new));
            lemma_relinked(old(self).nodes@, self.nodes@, sh, self.root);
            lemma_still_heaped(old(self).nodes@, self.nodes@, sh, self.root);
            assert forall|m: usize| live(sh, m) implies self.nodes@[m as int].left_size
                == #[trigger] left_sum(self.nodes@, sh, m) by {
                assert(linked(self.nodes@, sh, self.root, m));
                assert(old(self).nodes@[m as int].left_size == left_sum(old(self).nodes@, sh, m));
                lemma_cum_update(segs, k, new, sh.pos[m as int]);
                lemma_cum_update(segs, k, new, sh.lo[m as int]);
            }
        }
    }

    fn resize(&mut self, id: usize, new_size: usize) {
        proof {
            lemma_at_id(*self, id);
        }
        self.resize_node(id, new_size);
    }

    fn insert_before(&mut self, id: usize, seg: Segment) -> (out: usize) {
        proof {
            lemma_at_id(*self, id);
            lemma_fresh(*self);
        }
        self.insert(id, seg, true)
    }

    fn insert_after(&mut self, id: usize, seg: Segment) -> (out: usize) {
        proof {
            lemma_at_id(*self, id);
            lemma_fresh(*self);
        }
        self.insert(id, seg, false)
    }

    #[verifier::rlimit(40)]
    fn remove(&mut self, id: usize) {
        let ghost sh = self.shape@;
        let ghost k = sh.pos[id as int];
        let ghost segs = self.content();
        let ghost zero = Seg { size: 0, ..segs[k] };
        proof {
            lemma_at_id(*self, id);
            lemma_sizes(segs, k, k);
        }
        // With size 0 no sum depends on the node.
        self.resize_node(id, 0);
        proof {
            splice::lemma_update(segs, k, zero);
            assert(linked(self.nodes@, self.shape@, self.root, id));
            lemma_around(self.nodes@, self.shape@, self.root, id);
        }
        while self.nodes[id].left != NIL || self.nodes[id].right != NIL
            invariant
                self.well_formed(),
                live(self.shape@, id),
                linked(self.nodes@, self.shape@, self.root, id),
                self.shape@.order == sh.order,
                self.shape@.pos == sh.pos,
                k == sh.pos[id as int],
                self.content() == segs.update(k, zero),
                segments::cur_len(self.content()) <= usize::MAX,
                heaped_around(self.nodes@, self.shape@, id),
            decreases self.shape@.hi[id as int] - self.shape@.lo[id as int],
        {
            let left = self.nodes[id].left;
            let right = self.nodes[id].right;
            let child = if left != NIL && (right == NIL || self.nodes[left].prio
                >= self.nodes[right].prio) {
                left
            } else {
                right
            };
            let ghost was = *self;
            self.rotate_up(child);
            proof {
                assert(linked(self.nodes@, self.shape@, self.root, id));
                assert forall|m: usize|
                    live(was.shape@, m) && was.nodes@[m as int].parent == id implies (
                #[trigger] was.nodes@[m as int]).prio <= was.nodes@[child as int].prio by {
                    assert(linked(was.nodes@, was.shape@, was.root, m));
                }
                lemma_lowered(was.nodes@, self.nodes@, was.shape@, was.root, id, child);
            }
        }
        let p = self.nodes[id].parent;
        let ghost was = self.nodes@;
        let ghost at = self.shape@;
        proof {
            assert(self.content()[k] == was[id as int].seg@);
            assert(self.content()[k] == zero);
        }
        if self.nodes[p].left == id {
            self.nodes[p].left = NIL;
        } else {
            self.nodes[p].right = NIL;
        }
        self.nodes[id].parent = NIL;
        proof {
            self.shape@ = without(at, id);
            lemma_without(was, self.nodes@, at, self.root, id);
            lemma_cut_off(was, self.nodes@, at, self.root, id);
            assert(segs.update(k, zero).remove(k) =~= segs.remove(k));
        }
    }

    #[verifier::rlimit(40)]
    fn emit(&self) -> (out: Vec<Replacement>) {
        let ghost sh = self.shape@;
        let ghost segs = self.content();
        let mut out: Vec<Replacement> = Vec::new();
        let mut offset: usize = 0;
        let mut stack: Vec<usize> = Vec::new();
        let mut n: usize = self.root;
        let ghost mut k: int = 0;
        proof {
            assert(segs.take(0) =~= Seq::<Seg>::empty());
            assert(patches::patches_of(out@) =~= segments::patches_in(segs.take(0), 0));
            assert(linked(self.nodes@, sh, self.root, n));
        }
        while n != NIL || stack.len() > 0
            invariant
                self.well_formed(),
                sh == self.shape@,
                segs == self.content(),
                segments::orig_len(segs) <= usize::MAX,
                0 <= k <= segs.len(),
                offset == segments::orig_len(segs.take(k)),
                patches::patches_of(out@) == segments::patches_in(segs.take(k), 0),
                stacked(sh, stack@),
                due(sh, stack@, n, k),
            decreases segs.len() - k,
        {
            while n != NIL
                invariant
                    self.well_formed(),
                    sh == self.shape@,
                    n != NIL || stack@.len() > 0,
                    stacked(sh, stack@),
                    due(sh, stack@, n, k),
                decreases
                    if n == NIL {
                        0
                    } else {
                        sh.hi[n as int] - sh.lo[n as int]
                    },
            {
                assert(linked(self.nodes@, sh, self.root, n));
                let ghost before = stack@;
                stack.push(n);
                proof {
                    assert forall|a: int| 0 <= a < stack@.len() implies live(sh, #[trigger] stack@[a])
                        && sh.hi[stack@[a] as int] == end_of(sh, stack@, a) by {
                        if a < before.len() {
                            assert(stack@[a] == before[a]);
                            assert(end_of(sh, stack@, a) == end_of(sh, before, a));
                        } else {
                            assert(end_of(sh, stack@, a) == end_of(sh, before, a));
                        }
                    }
                }
                n = self.nodes[n].left;
                proof {
                    if n != NIL {
                        assert(linked(self.nodes@, sh, self.root, n));
                    }
                }
            }
            let ghost before = stack@;
            match stack.pop() {
                Some(top) => {
                    n = top;
                },
                None => {},
            }
            proof {
                assert(live(sh, before[before.len() - 1]));
                assert(linked(self.nodes@, sh, self.root, n));
                assert forall|a: int| 0 <= a < stack@.len() implies live(sh, #[trigger] stack@[a])
                    && sh.hi[stack@[a] as int] == end_of(sh, stack@, a) by {
                    assert(stack@[a] == before[a]);
                    assert(end_of(sh, stack@, a) == end_of(sh, before, a));
                }
                assert(end_of(sh, stack@, stack@.len() as int) == end_of(
                    sh,
                    before,
                    before.len() - 1,
                ));
                assert(segs[k] == self.nodes@[n as int].seg@);
                assert(segs.take(k + 1).drop_last() =~= segs.take(k));
                assert(segs.take(k + 1).last() == segs[k]);
                splice::lemma_orig_prefix(segs, k + 1);
            }
            let seg = &self.nodes[n].seg;
            match &seg.content {
                None => {
                    offset += seg.size;
                },
                Some(c) => {
                    out.push(
                        Replacement {
                            range: DTRange { start: offset, end: offset + seg.del },
                            content: c.clone(),
                        },
                    );
                    offset += seg.del;
                },
            }
            n = self.nodes[n].right;
            proof {
                k = k + 1;
                assert(patches::patches_of(out@) =~= segments::patches_in(segs.take(k), 0));
                if n != NIL {
                    assert(linked(self.nodes@, sh, self.root, n));
                }
            }
        }
        proof {
            assert(segs.take(k) =~= segs);
        }
        out
    }
}

} // verus!
