//! What a history of events makes of a document.
//!
//! Every insert makes an item. The items stand in one sequence (see
//! [`crate::order`]), in which each finds its place between the items that its
//! author saw on its left and on its right; a delete names the item that it takes
//! away. A version of the document shows the items that its events made and did
//! not take away.

use crate::graph;
use crate::graph::Parents;
use crate::operation;
use crate::operation::EvOp;
use crate::order;
use crate::order::{Node, Nodes};
use vstd::prelude::*;

verus! {

/// A history: for each event what it follows, what it does, and who wrote it.
#[verifier::ext_equal]
pub struct Hist {
    pub parents: Parents,
    pub ops: Seq<EvOp>,
    /// The author's name and the author's count.
    pub ids: Seq<(Seq<char>, int)>,
}

/// What the events of a history make.
#[verifier::ext_equal]
pub struct Track {
    /// For each event the item that it makes in the tree; of no meaning for one
    /// that deletes.
    pub nodes: Nodes,
    /// The events that made the items, in the order in which these stand.
    pub items: Seq<int>,
    /// For each event the item that it deletes; -1 for one that inserts.
    pub target: Seq<int>,
}

impl Hist {
    pub open spec fn len(self) -> nat {
        self.parents.len()
    }

    pub open spec fn valid(self) -> bool {
        &&& graph::causal(self.parents)
        &&& self.ops.len() == self.parents.len()
        &&& self.ids.len() == self.parents.len()
        &&& forall|v: int, w: int|
            0 <= v < w < self.ids.len() ==> (#[trigger] self.ids[v]) != (#[trigger] self.ids[w])
    }

    /// The events that event `v` follows.
    pub open spec fn seen_by(self, v: int) -> Set<int> {
        Set::new(|a: int| graph::in_cone(self.parents, self.parents[v], a))
    }

    /// The events of a version.
    pub open spec fn version(self, front: Seq<usize>) -> Set<int> {
        Set::new(|a: int| graph::in_cone(self.parents, front, a))
    }

    /// The character that event `v` inserts.
    pub open spec fn char_of(self, v: int) -> char {
        match self.ops[v] {
            EvOp::Ins { ch, .. } => ch,
            EvOp::Del { .. } => ' ',
        }
    }
}

// ---- what a version shows ----

/// Of the first `k` items those that are chosen.
pub open spec fn kept(items: Seq<int>, chosen: spec_fn(int) -> bool, k: int) -> Seq<int>
    decreases k,
{
    if k <= 0 {
        Seq::empty()
    } else {
        let before = kept(items, chosen, k - 1);
        if chosen(items[k - 1]) {
            before.push(items[k - 1])
        } else {
            before
        }
    }
}

/// Whether one of the events `s` deletes item `x`.
pub open spec fn gone(t: Track, s: Set<int>, x: int) -> bool {
    exists|d: int| 0 <= d < t.target.len() && s.contains(d) && #[trigger] t.target[d] == x
}

/// Whether the document that the events `s` make shows an item.
pub open spec fn shows(t: Track, s: Set<int>) -> spec_fn(int) -> bool {
    |x: int| s.contains(x) && !gone(t, s, x)
}

/// How many of the first `k` items the document shows.
pub open spec fn rank(t: Track, s: Set<int>, k: int) -> int {
    kept(t.items, shows(t, s), k).len() as int
}

/// The items that the document shows.
pub open spec fn shown(t: Track, s: Set<int>) -> Seq<int> {
    kept(t.items, shows(t, s), t.items.len() as int)
}

/// The document.
pub open spec fn text(h: Hist, t: Track, s: Set<int>) -> Seq<char> {
    shown(t, s).map_values(|x: int| h.char_of(x))
}

/// Whether item number `i` of the sequence is character `pos` of the document.
pub open spec fn is_nth(t: Track, s: Set<int>, pos: int, i: int) -> bool {
    &&& 0 <= i < t.items.len()
    &&& shows(t, s)(t.items[i])
    &&& rank(t, s, i) == pos
}

/// Which item of the sequence is character `pos` of the document.
pub open spec fn nth(t: Track, s: Set<int>, pos: int) -> int {
    choose|i: int| is_nth(t, s, pos, i)
}

/// Where an item stands in the sequence.
pub open spec fn place_of(items: Seq<int>, x: int) -> int {
    choose|i: int| 0 <= i < items.len() && #[trigger] items[i] == x
}

// ---- where an insert goes ----

/// The first item from `i` on that one of the events `s` made, or the end.
pub open spec fn next_known(items: Seq<int>, s: Set<int>, i: int) -> int
    decreases items.len() - i,
{
    if 0 <= i < items.len() && !s.contains(items[i]) {
        next_known(items, s, i + 1)
    } else {
        i
    }
}

/// Where the place for a character at `pos` begins: right behind the one before it.
pub open spec fn gap_start(t: Track, s: Set<int>, pos: int) -> int {
    if pos == 0 {
        0
    } else {
        nth(t, s, pos - 1) + 1
    }
}

/// Where the place for a character at `pos` ends: before the next item that its
/// author knew of.
pub open spec fn gap_end(t: Track, s: Set<int>, pos: int) -> int {
    next_known(t.items, s, gap_start(t, s, pos))
}

/// The item before the place for a character at `pos`; -1 at the start.
pub open spec fn left_of_gap(t: Track, s: Set<int>, pos: int) -> int {
    if pos == 0 {
        -1
    } else {
        t.items[gap_start(t, s, pos) - 1]
    }
}

/// The item behind the place for a character at `pos`; -1 at the end.
pub open spec fn right_of_gap(t: Track, s: Set<int>, pos: int) -> int {
    let end = gap_end(t, s, pos);
    if end < t.items.len() {
        t.items[end]
    } else {
        -1
    }
}

/// The node for a character typed between items `a` and `b`: a right child of `a`,
/// unless that has something on its right already.
pub open spec fn node_between(nodes: Nodes, a: int, b: int, id: (Seq<char>, int)) -> Node {
    if b >= 0 && (a < 0 || order::right_of(nodes, b, a)) {
        Node { parent: b, rightward: false, right: b, id }
    } else {
        Node { parent: a, rightward: true, right: b, id }
    }
}

/// The node that event `v` makes where it inserts at `pos`.
pub open spec fn new_node(h: Hist, t: Track, v: int, pos: int) -> Node {
    let s = h.seen_by(v);
    node_between(t.nodes, left_of_gap(t, s, pos), right_of_gap(t, s, pos), h.ids[v])
}

/// A node of no meaning, for an event that deletes.
pub open spec fn no_node(h: Hist, v: int) -> Node {
    Node { parent: -1, rightward: false, right: -1, id: h.ids[v] }
}

/// What the events up to `v` make, given what those before it make.
pub open spec fn step(h: Hist, t: Track, v: int) -> Track {
    match h.ops[v] {
        EvOp::Ins { pos, ch } => {
            let nodes = t.nodes.push(new_node(h, t, v, pos));
            Track {
                nodes,
                items: t.items.insert(order::seat(nodes, t.items, v, 0), v),
                target: t.target.push(-1),
            }
        },
        EvOp::Del { pos } => Track {
            nodes: t.nodes.push(no_node(h, v)),
            items: t.items,
            target: t.target.push(t.items[nth(t, h.seen_by(v), pos)]),
        },
    }
}

/// What the first `k` events make.
pub open spec fn track(h: Hist, k: int) -> Track
    decreases k,
{
    if k <= 0 {
        Track { nodes: Seq::empty(), items: Seq::empty(), target: Seq::empty() }
    } else {
        step(h, track(h, k - 1), k - 1)
    }
}

/// Whether event `v` finds its place in the document that its author saw.
pub open spec fn placed(h: Hist, v: int) -> bool {
    operation::fits(text(h, track(h, v), h.seen_by(v)), h.ops[v])
}

/// Whether each of the first `k` events finds its place in the document that
/// its author saw.
pub open spec fn playable_to(h: Hist, k: int) -> bool {
    forall|v: int| 0 <= v < k ==> #[trigger] placed(h, v)
}

/// Whether every event finds its place in the document that its author saw.
pub open spec fn playable(h: Hist) -> bool {
    h.valid() && playable_to(h, h.len() as int)
}

/// What all events make.
pub open spec fn whole(h: Hist) -> Track {
    track(h, h.len() as int)
}

/// The document that the events `s` make.
pub open spec fn document(h: Hist, s: Set<int>) -> Seq<char> {
    text(h, whole(h), s)
}

/// Whether event `v` inserts where others did without knowledge of each other.
pub open spec fn collides(h: Hist, v: int) -> bool {
    let t = track(h, v);
    let s = h.seen_by(v);
    h.ops[v] matches EvOp::Ins { pos, .. } && gap_start(t, s, pos) < gap_end(t, s, pos)
}

// ---- what is kept ----

pub proof fn lemma_kept_len(items: Seq<int>, chosen: spec_fn(int) -> bool, k: int)
    requires
        0 <= k <= items.len(),
    ensures
        0 <= kept(items, chosen, k).len() <= k,
    decreases k,
{
    if k > 0 {
        lemma_kept_len(items, chosen, k - 1);
    }
}

/// What the first items give comes first in what more items give.
pub proof fn lemma_kept_prefix(items: Seq<int>, chosen: spec_fn(int) -> bool, j: int, k: int)
    requires
        0 <= j <= k <= items.len(),
    ensures
        kept(items, chosen, j).len() <= kept(items, chosen, k).len(),
        kept(items, chosen, k).take(kept(items, chosen, j).len() as int) == kept(items, chosen, j),
    decreases k,
{
    let a = kept(items, chosen, j);
    if j == k {
        assert(a.take(a.len() as int) =~= a);
    } else {
        lemma_kept_prefix(items, chosen, j, k - 1);
        let b = kept(items, chosen, k - 1);
        let c = kept(items, chosen, k);
        assert(c.take(a.len() as int) =~= b.take(a.len() as int));
    }
}

/// A kept item stands where as many are kept before it.
pub proof fn lemma_kept_at(items: Seq<int>, chosen: spec_fn(int) -> bool, i: int)
    requires
        0 <= i < items.len(),
        chosen(items[i]),
    ensures
        kept(items, chosen, i).len() < kept(items, chosen, items.len() as int).len(),
        kept(items, chosen, items.len() as int)[kept(items, chosen, i).len() as int] == items[i],
{
    let n = items.len() as int;
    lemma_kept_prefix(items, chosen, i + 1, n);
    let a = kept(items, chosen, i + 1);
    assert(a == kept(items, chosen, i).push(items[i]));
    assert(kept(items, chosen, n).take(a.len() as int)[a.len() - 1] == items[i]);
}

/// Every item that is kept comes from the given ones.
pub proof fn lemma_kept_source(
    items: Seq<int>,
    chosen: spec_fn(int) -> bool,
    k: int,
    pos: int,
) -> (i: int)
    requires
        0 <= k <= items.len(),
        0 <= pos < kept(items, chosen, k).len(),
    ensures
        0 <= i < k,
        chosen(items[i]),
        kept(items, chosen, i).len() == pos,
        kept(items, chosen, k)[pos] == items[i],
    decreases k,
{
    if k > 0 && chosen(items[k - 1]) && pos == kept(items, chosen, k - 1).len() {
        k - 1
    } else {
        lemma_kept_source(items, chosen, k - 1, pos)
    }
}

/// What is kept depends on which items are chosen alone.
pub proof fn lemma_kept_same(
    items: Seq<int>,
    p: spec_fn(int) -> bool,
    q: spec_fn(int) -> bool,
    k: int,
)
    requires
        0 <= k <= items.len(),
        forall|i: int| 0 <= i < k ==> p(#[trigger] items[i]) == q(items[i]),
    ensures
        kept(items, p, k) == kept(items, q, k),
    decreases k,
{
    if k > 0 {
        lemma_kept_same(items, p, q, k - 1);
        assert(p(items[k - 1]) == q(items[k - 1]));
    }
}

/// An item that is not chosen changes nothing where it is inserted.
pub proof fn lemma_kept_insert(
    items: Seq<int>,
    chosen: spec_fn(int) -> bool,
    at: int,
    x: int,
    k: int,
)
    requires
        0 <= at <= items.len(),
        !chosen(x),
        0 <= k <= items.len() + 1,
    ensures
        kept(items.insert(at, x), chosen, k) == kept(
            items,
            chosen,
            if k <= at {
                k
            } else {
                k - 1
            },
        ),
    decreases k,
{
    if k > 0 {
        lemma_kept_insert(items, chosen, at, x, k - 1);
        let new = items.insert(at, x);
        if k - 1 < at {
            assert(new[k - 1] == items[k - 1]);
        } else if k - 1 > at {
            assert(new[k - 1] == items[k - 2]);
        }
    }
}

/// Where one more item is chosen, it is kept in its place.
pub proof fn lemma_kept_more(
    items: Seq<int>,
    p: spec_fn(int) -> bool,
    q: spec_fn(int) -> bool,
    i: int,
    k: int,
)
    requires
        0 <= i < items.len(),
        !p(items[i]),
        q(items[i]),
        forall|j: int| 0 <= j < items.len() && j != i ==> p(#[trigger] items[j]) == q(items[j]),
        0 <= k <= items.len(),
    ensures
        k <= i ==> kept(items, q, k) == kept(items, p, k),
        k > i ==> 0 <= kept(items, p, i).len() <= kept(items, p, k).len(),
        k > i ==> kept(items, q, k) == kept(items, p, k).insert(
            kept(items, p, i).len() as int,
            items[i],
        ),
    decreases k,
{
    if k > 0 {
        lemma_kept_more(items, p, q, i, k - 1);
        if k - 1 != i {
            assert(p(items[k - 1]) == q(items[k - 1]));
        }
        if k > i {
            lemma_kept_prefix(items, p, i, k);
            assert(kept(items, q, k) =~= kept(items, p, k).insert(
                kept(items, p, i).len() as int,
                items[i],
            ));
        }
    }
}

} // verus!
