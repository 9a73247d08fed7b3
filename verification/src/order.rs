//! The order of inserted characters.
//!
//! The characters form a tree. One that was typed behind another becomes a
//! right child of it; one that was typed where that already had something on
//! its right becomes a left child of what follows. A node stands behind its left
//! children and all below them, and before its right children and all below
//! them. Children that were added without knowledge of each other stand in order
//! of what they were typed before, the furthest first, then of their authors.

use crate::smart_string;
use vstd::prelude::*;

verus! {

/// A character in the tree.
pub struct Node {
    /// -1 for the root.
    pub parent: int,
    /// Whether it is a right child.
    pub rightward: bool,
    /// The character that it was typed before; -1 for the end of the document.
    pub right: int,
    /// The author's name and the author's count.
    pub id: (Seq<char>, int),
}

/// Characters in the tree, each later than its parent and than what it was typed before.
pub type Nodes = Seq<Node>;

pub open spec fn rooted(nodes: Nodes) -> bool {
    forall|x: int|
        0 <= x < nodes.len() ==> {
            &&& -1 <= (#[trigger] nodes[x]).parent < x
            &&& -1 <= nodes[x].right < x
        }
}

/// Whether no two nodes have the same author and count.
pub open spec fn distinct(nodes: Nodes) -> bool {
    forall|x: int, y: int|
        0 <= x < y < nodes.len() ==> (#[trigger] nodes[x]).id != (#[trigger] nodes[y]).id
}

/// By name, then by count.
pub open spec fn id_less(a: (Seq<char>, int), b: (Seq<char>, int)) -> bool {
    smart_string::text_less(a.0, b.0) || a.0 == b.0 && a.1 < b.1
}

/// The nodes from the root down to `x`.
pub open spec fn path(nodes: Nodes, x: int) -> Seq<int>
    decreases x + 1,
{
    if 0 <= x < nodes.len() && -1 <= nodes[x].parent < x {
        path(nodes, nodes[x].parent).push(x)
    } else {
        Seq::empty()
    }
}

/// How many elements two sequences have in common at their start.
pub open spec fn common(p: Seq<int>, q: Seq<int>) -> nat
    decreases p.len(),
{
    if p.len() > 0 && q.len() > 0 && p[0] == q[0] {
        1 + common(p.drop_first(), q.drop_first())
    } else {
        0
    }
}

/// Where a path goes on at depth `d`; -1 where it ends.
pub open spec fn turn(p: Seq<int>, d: int) -> int {
    if d < p.len() {
        p[d]
    } else {
        -1
    }
}

/// Whether node `x` stands before node `y`.
#[verifier::opaque]
pub open spec fn less(nodes: Nodes, x: int, y: int) -> bool
    decreases (if x < y {
            y
        } else {
            x
        }),
{
    let p = path(nodes, x);
    let q = path(nodes, y);
    let d = common(p, q) as int;
    let u = turn(p, d);
    let w = turn(q, d);
    let top = if x < y {
        y
    } else {
        x
    };
    if u < 0 {
        w >= 0 && nodes[w].rightward
    } else if w < 0 {
        !nodes[u].rightward
    } else if nodes[u].rightward != nodes[w].rightward {
        nodes[w].rightward
    } else if !nodes[u].rightward || nodes[u].right == nodes[w].right {
        id_less(nodes[u].id, nodes[w].id)
    } else if nodes[u].right < 0 {
        true
    } else if nodes[w].right < 0 {
        false
    } else {
        // What it was typed before stands further right.
        nodes[u].right < top && nodes[w].right < top && less(
            nodes,
            nodes[w].right,
            nodes[u].right,
        )
    }
}

/// Whether child `u` comes before its sibling `w`; -1 stands for their parent.
pub open spec fn turn_less(nodes: Nodes, u: int, w: int) -> bool {
    if u < 0 {
        w >= 0 && nodes[w].rightward
    } else if w < 0 {
        !nodes[u].rightward
    } else if nodes[u].rightward != nodes[w].rightward {
        nodes[w].rightward
    } else if !nodes[u].rightward || nodes[u].right == nodes[w].right {
        id_less(nodes[u].id, nodes[w].id)
    } else if nodes[u].right < 0 {
        true
    } else if nodes[w].right < 0 {
        false
    } else {
        less(nodes, nodes[w].right, nodes[u].right)
    }
}

// ---- sequences ----

pub proof fn lemma_common(p: Seq<int>, q: Seq<int>)
    ensures
        common(p, q) <= p.len(),
        common(p, q) <= q.len(),
        p.take(common(p, q) as int) == q.take(common(p, q) as int),
        common(p, q) < p.len() && common(p, q) < q.len() ==> p[common(p, q) as int]
            != q[common(p, q) as int],
        common(p, q) == common(q, p),
    decreases p.len(),
{
    let d = common(p, q) as int;
    if p.len() > 0 && q.len() > 0 && p[0] == q[0] {
        lemma_common(p.drop_first(), q.drop_first());
        let a = p.take(d);
        let b = q.take(d);
        assert forall|i: int| 0 <= i < d implies a[i] == b[i] by {
            if i > 0 {
                assert(p.drop_first().take(d - 1)[i - 1] == p[i]);
                assert(q.drop_first().take(d - 1)[i - 1] == q[i]);
            }
        }
        assert(a =~= b);
    } else {
        assert(p.take(0) =~= q.take(0));
    }
}

/// What is common is determined by where the sequences part.
pub proof fn lemma_common_is(p: Seq<int>, q: Seq<int>, d: int)
    requires
        0 <= d <= p.len(),
        d <= q.len(),
        forall|i: int| 0 <= i < d ==> p[i] == q[i],
        d < p.len() && d < q.len() ==> p[d] != q[d],
    ensures
        common(p, q) == d,
    decreases d,
{
    if d > 0 {
        assert(p[0] == q[0]);
        let a = p.drop_first();
        let b = q.drop_first();
        assert forall|i: int| 0 <= i < d - 1 implies a[i] == b[i] by {
            assert(a[i] == p[i + 1] && b[i] == q[i + 1]);
        }
        lemma_common_is(a, b, d - 1);
    }
}

// ---- paths ----

/// A path leads down from the root: each node is a child of the one before it.
pub proof fn lemma_path(nodes: Nodes, x: int)
    requires
        rooted(nodes),
        0 <= x < nodes.len(),
    ensures
        path(nodes, x).len() > 0,
        path(nodes, x).last() == x,
        forall|i: int|
            0 <= i < path(nodes, x).len() ==> 0 <= #[trigger] path(nodes, x)[i] <= x,
        forall|i: int|
            0 <= i < path(nodes, x).len() ==> path(nodes, #[trigger] path(nodes, x)[i]) == path(
                nodes,
                x,
            ).take(i + 1),
    decreases x,
{
    let p = path(nodes, x);
    let up = nodes[x].parent;
    if up >= 0 {
        lemma_path(nodes, up);
    }
    let q = path(nodes, up);
    assert(p == q.push(x));
    assert forall|i: int| 0 <= i < p.len() implies path(nodes, #[trigger] p[i]) == p.take(
        i + 1,
    ) by {
        if i < q.len() {
            assert(p[i] == q[i]);
            assert(q.take(i + 1) =~= p.take(i + 1));
        } else {
            assert(p.take(i + 1) =~= p);
        }
    }
    assert forall|i: int| 0 <= i < p.len() implies 0 <= #[trigger] p[i] <= x by {
        if i < q.len() {
            assert(p[i] == q[i]);
        }
    }
}

/// Where two paths part, they do so at two children of one node.
pub proof fn lemma_part(nodes: Nodes, x: int, y: int)
    requires
        rooted(nodes),
        0 <= x < nodes.len(),
        0 <= y < nodes.len(),
    ensures
        ({
            let p = path(nodes, x);
            let q = path(nodes, y);
            let d = common(p, q) as int;
            let u = turn(p, d);
            let w = turn(q, d);
            &&& -1 <= u <= x
            &&& -1 <= w <= y
            &&& (u == w) == (x == y)
            &&& x == y ==> u < 0
            &&& less(nodes, x, y) == turn_less(nodes, u, w)
        }),
{
    reveal(less);
    let p = path(nodes, x);
    let q = path(nodes, y);
    let d = common(p, q) as int;
    lemma_path(nodes, x);
    lemma_path(nodes, y);
    lemma_common(p, q);
    let u = turn(p, d);
    let w = turn(q, d);
    if d < p.len() {
        assert(0 <= p[d] <= x);
        assert(nodes[u].right < u);
    }
    if d < q.len() {
        assert(0 <= q[d] <= y);
        assert(nodes[w].right < w);
    }
    if x == y {
        lemma_common_is(p, p, p.len() as int);
    } else if u < 0 && w < 0 {
        assert(p.take(d) =~= p);
        assert(q.take(d) =~= q);
        assert(p.last() == q.last());
    }
}

// ---- a total order ----

pub proof fn lemma_id_less(a: (Seq<char>, int), b: (Seq<char>, int), c: (Seq<char>, int))
    ensures
        !id_less(a, a),
        a != b ==> id_less(a, b) != id_less(b, a),
        id_less(a, b) && id_less(b, c) ==> id_less(a, c),
{
    smart_string::lemma_text_less(a.0, b.0);
    smart_string::lemma_text_less(a.0, a.0);
    smart_string::lemma_text_less(b.0, c.0);
    smart_string::lemma_text_less(a.0, c.0);
    if smart_string::text_less(a.0, b.0) && smart_string::text_less(b.0, c.0) {
        smart_string::lemma_text_less_trans(a.0, b.0, c.0);
    }
}

/// Of two different nodes one stands before the other, and only one; none
/// stands before itself.
pub proof fn lemma_total(nodes: Nodes, x: int, y: int)
    requires
        rooted(nodes),
        distinct(nodes),
        0 <= x < nodes.len(),
        0 <= y < nodes.len(),
    ensures
        x == y ==> !less(nodes, x, y),
        x != y ==> less(nodes, x, y) != less(nodes, y, x),
    decreases (if x < y {
            y
        } else {
            x
        }), 1nat,
{
    let p = path(nodes, x);
    let q = path(nodes, y);
    let d = common(p, q) as int;
    let u = turn(p, d);
    let w = turn(q, d);
    lemma_common(p, q);
    lemma_part(nodes, x, y);
    lemma_part(nodes, y, x);
    if u >= 0 && w >= 0 {
        lemma_turn_total(nodes, u, w);
    }
}

proof fn lemma_turn_total(nodes: Nodes, u: int, w: int)
    requires
        rooted(nodes),
        distinct(nodes),
        0 <= u < nodes.len(),
        0 <= w < nodes.len(),
        u != w,
    ensures
        turn_less(nodes, u, w) != turn_less(nodes, w, u),
    decreases (if u < w {
            w
        } else {
            u
        }), 0nat,
{
    let a = nodes[u];
    let b = nodes[w];
    if u < w {
        assert(nodes[u].id != nodes[w].id);
    } else {
        assert(nodes[w].id != nodes[u].id);
    }
    lemma_id_less(a.id, b.id, a.id);
    assert(a.right < u && b.right < w);
    if a.right >= 0 && b.right >= 0 && a.right != b.right {
        lemma_total(nodes, a.right, b.right);
    }
}

/// What stands before a node stands before what that stands before.
pub proof fn lemma_trans(nodes: Nodes, x: int, y: int, z: int)
    requires
        rooted(nodes),
        distinct(nodes),
        0 <= x < nodes.len(),
        0 <= y < nodes.len(),
        0 <= z < nodes.len(),
        less(nodes, x, y),
        less(nodes, y, z),
    ensures
        less(nodes, x, z),
    decreases x + y + z, 1nat,
{
    let p = path(nodes, x);
    let q = path(nodes, y);
    let r = path(nodes, z);
    let d1 = common(p, q) as int;
    let d2 = common(q, r) as int;
    lemma_common(p, q);
    lemma_common(q, r);
    lemma_part(nodes, x, y);
    lemma_part(nodes, y, z);
    lemma_part(nodes, x, z);
    lemma_total(nodes, x, y);
    lemma_total(nodes, y, z);
    assert forall|i: int| 0 <= i < d1 implies p[i] == q[i] by {
        assert(p.take(d1)[i] == q.take(d1)[i]);
    }
    assert forall|i: int| 0 <= i < d2 implies q[i] == r[i] by {
        assert(q.take(d2)[i] == r.take(d2)[i]);
    }
    if d1 < d2 {
        assert(r[d1] == q[d1]);
        lemma_common_is(p, r, d1);
    } else if d2 < d1 {
        assert(p[d2] == q[d2]);
        lemma_common_is(p, r, d2);
    } else {
        let u = turn(p, d1);
        let v = turn(q, d1);
        let w = turn(r, d1);
        lemma_path(nodes, x);
        lemma_path(nodes, y);
        lemma_path(nodes, z);
        lemma_turn_trans(nodes, u, v, w, x, y, z);
        if u == w {
            if u >= 0 && v >= 0 {
                lemma_turn_total(nodes, u, v);
            }
            assert(false);
        }
        lemma_common_is(p, r, d1);
    }
}

proof fn lemma_turn_trans(nodes: Nodes, u: int, v: int, w: int, x: int, y: int, z: int)
    requires
        rooted(nodes),
        distinct(nodes),
        -1 <= u <= x < nodes.len(),
        -1 <= v <= y < nodes.len(),
        -1 <= w <= z < nodes.len(),
        0 <= x && 0 <= y && 0 <= z,
        u != v,
        v != w,
        turn_less(nodes, u, v),
        turn_less(nodes, v, w),
    ensures
        u != w ==> turn_less(nodes, u, w),
    decreases x + y + z, 0nat,
{
    if u >= 0 && v >= 0 && w >= 0 {
        let a = nodes[u];
        let b = nodes[v];
        let c = nodes[w];
        lemma_id_less(a.id, b.id, c.id);
        assert(a.right < u && b.right < v && c.right < w);
        if a.rightward && b.rightward && c.rightward && a.right >= 0 && b.right >= 0 && c.right >= 0 {
            if a.right != b.right && b.right != c.right {
                lemma_trans(nodes, c.right, b.right, a.right);
                if a.right == c.right {
                    lemma_total(nodes, a.right, c.right);
                }
            }
        }
    }
}

// ---- where a new node stands ----

/// Whether node `b` is below a right child of node `a`, or is one.
pub open spec fn right_of(nodes: Nodes, b: int, a: int) -> bool {
    let p = path(nodes, a);
    let q = path(nodes, b);
    &&& p.len() < q.len()
    &&& q.take(p.len() as int) == p
    &&& nodes[q[p.len() as int]].rightward
}

/// A node stands before its right children, and they stand before all that
/// follows it and is not below its right children.
pub proof fn lemma_right_child(nodes: Nodes, v: int, a: int, b: int)
    requires
        rooted(nodes),
        0 <= v < nodes.len(),
        nodes[v].parent == a,
        nodes[v].rightward,
        0 <= a,
    ensures
        less(nodes, a, v),
        0 <= b < nodes.len() && less(nodes, a, b) && !right_of(nodes, b, a) ==> less(nodes, v, b),
{
    let p = path(nodes, a);
    let q = path(nodes, v);
    assert(q == p.push(v));
    lemma_common_is(p, q, p.len() as int);
    lemma_part(nodes, a, v);
    if 0 <= b < nodes.len() && less(nodes, a, b) && !right_of(nodes, b, a) {
        let r = path(nodes, b);
        let d = common(p, r) as int;
        lemma_common(p, r);
        lemma_part(nodes, a, b);
        lemma_part(nodes, v, b);
        if d == p.len() {
            // `a` would be above `b`, on its left.
            assert(r.take(d) =~= p);
            assert(false);
        } else {
            assert forall|i: int| 0 <= i < d implies q[i] == r[i] by {
                assert(p.take(d)[i] == r.take(d)[i]);
            }
            lemma_common_is(q, r, d);
        }
    }
}

/// A left child stands before its parent, and behind a node on whose right its
/// parent is.
pub proof fn lemma_left_child(nodes: Nodes, v: int, b: int, a: int)
    requires
        rooted(nodes),
        0 <= v < nodes.len(),
        nodes[v].parent == b,
        !nodes[v].rightward,
        0 <= b,
    ensures
        less(nodes, v, b),
        0 <= a < nodes.len() && right_of(nodes, b, a) ==> less(nodes, a, v),
{
    let p = path(nodes, b);
    let q = path(nodes, v);
    assert(q == p.push(v));
    lemma_common_is(q, p, p.len() as int);
    lemma_part(nodes, v, b);
    if 0 <= a < nodes.len() && right_of(nodes, b, a) {
        let r = path(nodes, a);
        assert forall|i: int| 0 <= i < r.len() implies r[i] == q[i] by {
            assert(p.take(r.len() as int)[i] == p[i]);
        }
        lemma_common_is(r, q, r.len() as int);
        lemma_part(nodes, a, v);
    }
}

/// Later nodes change nothing for the earlier ones.
pub proof fn lemma_path_prefix(nodes: Nodes, more: Nodes, x: int)
    requires
        nodes.len() <= more.len(),
        forall|i: int| 0 <= i < nodes.len() ==> #[trigger] nodes[i] == more[i],
        x < nodes.len(),
    ensures
        path(nodes, x) == path(more, x),
    decreases x + 1,
{
    if 0 <= x && -1 <= nodes[x].parent < x {
        assert(nodes[x] == more[x]);
        lemma_path_prefix(nodes, more, nodes[x].parent);
    }
}

pub proof fn lemma_less_prefix(nodes: Nodes, more: Nodes, x: int, y: int)
    requires
        rooted(nodes),
        rooted(more),
        nodes.len() <= more.len(),
        forall|i: int| 0 <= i < nodes.len() ==> #[trigger] nodes[i] == more[i],
        0 <= x < nodes.len(),
        0 <= y < nodes.len(),
    ensures
        less(nodes, x, y) == less(more, x, y),
        right_of(nodes, x, y) == right_of(more, x, y),
    decreases (if x < y {
            y
        } else {
            x
        }),
{
    lemma_path_prefix(nodes, more, x);
    lemma_path_prefix(nodes, more, y);
    let p = path(nodes, x);
    let q = path(nodes, y);
    let d = common(p, q) as int;
    lemma_part(nodes, x, y);
    lemma_part(more, x, y);
    lemma_path(nodes, x);
    let u = turn(p, d);
    let w = turn(q, d);
    if u >= 0 {
        assert(nodes[u] == more[u]);
    }
    if w >= 0 {
        assert(nodes[w] == more[w]);
    }
    if u >= 0 && w >= 0 && nodes[u].right >= 0 && nodes[w].right >= 0 {
        lemma_less_prefix(nodes, more, nodes[w].right, nodes[u].right);
    }
    if q.len() < p.len() {
        assert(0 <= p[q.len() as int] <= x);
        assert(nodes[p[q.len() as int]] == more[p[q.len() as int]]);
    }
}

/// The first of the items from `i` on that does not stand before `v`.
pub open spec fn seat(nodes: Nodes, items: Seq<int>, v: int, i: int) -> int
    decreases items.len() - i,
{
    if 0 <= i < items.len() && less(nodes, items[i], v) {
        seat(nodes, items, v, i + 1)
    } else {
        i
    }
}

/// Whether the items stand in order.
pub open spec fn in_order(nodes: Nodes, items: Seq<int>) -> bool {
    &&& forall|i: int| 0 <= i < items.len() ==> 0 <= #[trigger] items[i] < nodes.len()
    &&& forall|i: int, j: int|
        0 <= i < j < items.len() ==> less(nodes, #[trigger] items[i], #[trigger] items[j])
}

pub proof fn lemma_seat(nodes: Nodes, items: Seq<int>, v: int, i: int)
    requires
        0 <= i <= items.len(),
    ensures
        i <= seat(nodes, items, v, i) <= items.len(),
        forall|j: int|
            i <= j < seat(nodes, items, v, i) ==> less(nodes, #[trigger] items[j], v),
        seat(nodes, items, v, i) < items.len() ==> !less(
            nodes,
            items[seat(nodes, items, v, i)],
            v,
        ),
    decreases items.len() - i,
{
    if i < items.len() && less(nodes, items[i], v) {
        lemma_seat(nodes, items, v, i + 1);
    }
}

/// The search for a node's seat may start behind a node that stands before it.
pub proof fn lemma_seat_from(nodes: Nodes, items: Seq<int>, v: int, i: int)
    requires
        rooted(nodes),
        distinct(nodes),
        in_order(nodes, items),
        0 <= v < nodes.len(),
        0 <= i <= items.len(),
        i > 0 ==> less(nodes, items[i - 1], v),
    ensures
        seat(nodes, items, v, 0) == seat(nodes, items, v, i),
    decreases i,
{
    if i > 0 {
        if i > 1 {
            assert(less(nodes, items[i - 2], items[i - 1]));
            lemma_trans(nodes, items[i - 2], items[i - 1], v);
        }
        lemma_seat_from(nodes, items, v, i - 1);
    }
}

/// A node that is put in its seat leaves the items in order.
pub proof fn lemma_seated(nodes: Nodes, items: Seq<int>, v: int)
    requires
        rooted(nodes),
        distinct(nodes),
        in_order(nodes, items),
        0 <= v < nodes.len(),
        !items.contains(v),
    ensures
        in_order(nodes, items.insert(seat(nodes, items, v, 0), v)),
{
    let at = seat(nodes, items, v, 0);
    let new = items.insert(at, v);
    lemma_seat(nodes, items, v, 0);
    assert forall|i: int| 0 <= i < new.len() implies 0 <= #[trigger] new[i] < nodes.len() by {
        if i < at {
            assert(new[i] == items[i]);
        } else if i > at {
            assert(new[i] == items[i - 1]);
        }
    }
    assert forall|i: int, j: int| 0 <= i < j < new.len() implies less(
        nodes,
        #[trigger] new[i],
        #[trigger] new[j],
    ) by {
        if j < at {
            assert(less(nodes, items[i], items[j]));
        } else if j == at {
            assert(less(nodes, items[i], v));
        } else if i < at {
            assert(less(nodes, items[i], items[j - 1]));
        } else if i == at {
            assert(!less(nodes, items[at], v));
            assert(items.contains(items[at]));
            lemma_total(nodes, items[at], v);
            if j - 1 > at {
                assert(less(nodes, items[at], items[j - 1]));
                lemma_trans(nodes, v, items[at], items[j - 1]);
            }
        } else {
            assert(less(nodes, items[i - 1], items[j - 1]));
        }
    }
}

} // verus!
