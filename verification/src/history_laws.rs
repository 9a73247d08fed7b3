//! What holds of the documents that a history makes.

use crate::graph;
use crate::history;
use crate::history::{Hist, Track};
use crate::operation;
use crate::operation::EvOp;
use crate::order;
use vstd::prelude::*;

verus! {

/// What holds of what the first `k` events make.
pub open spec fn track_ok(h: Hist, t: Track, k: int) -> bool {
    &&& t.nodes.len() == k
    &&& t.target.len() == k
    &&& order::rooted(t.nodes)
    &&& forall|v: int| 0 <= v < k ==> (#[trigger] t.nodes[v]).id == h.ids[v]
    &&& order::in_order(t.nodes, t.items)
    &&& forall|i: int| 0 <= i < t.items.len() ==> h.ops[#[trigger] t.items[i]] is Ins
    &&& forall|i: int, j: int|
        0 <= i < j < t.items.len() ==> (#[trigger] t.items[i]) != (#[trigger] t.items[j])
    &&& forall|v: int| 0 <= v < k && h.ops[v] is Ins ==> #[trigger] has_item(t, v)
    &&& forall|v: int| 0 <= v < k && h.ops[v] is Ins ==> #[trigger] t.target[v] == -1
    &&& forall|d: int|
        0 <= d < k && h.ops[d] is Del ==> {
            let x = #[trigger] t.target[d];
            &&& 0 <= x < d
            &&& h.ops[x] is Ins
            &&& has_item(t, x)
            &&& h.seen_by(d).contains(x)
        }
}

pub open spec fn has_item(t: Track, x: int) -> bool {
    exists|i: int| 0 <= i < t.items.len() && #[trigger] t.items[i] == x
}

pub proof fn lemma_distinct(h: Hist, t: Track, k: int)
    requires
        h.valid(),
        0 <= k <= h.len(),
        track_ok(h, t, k),
    ensures
        order::distinct(t.nodes),
{
    assert forall|x: int, y: int| 0 <= x < y < t.nodes.len() implies (#[trigger] t.nodes[x]).id
        != (#[trigger] t.nodes[y]).id by {
        assert(h.ids[x] != h.ids[y]);
    }
}

pub proof fn lemma_place_of(h: Hist, t: Track, k: int, i: int)
    requires
        track_ok(h, t, k),
        0 <= i < t.items.len(),
    ensures
        history::place_of(t.items, t.items[i]) == i,
        has_item(t, t.items[i]),
{
    let j = history::place_of(t.items, t.items[i]);
    assert(t.items[j] == t.items[i]);
    if j < i {
        assert(t.items[j] != t.items[i]);
    } else if i < j {
        assert(t.items[i] != t.items[j]);
    }
}

/// Every character of the document has an item, and one only.
pub proof fn lemma_nth(t: Track, s: Set<int>, pos: int)
    requires
        0 <= pos < history::shown(t, s).len(),
    ensures
        history::is_nth(t, s, pos, history::nth(t, s, pos)),
        forall|i: int| history::is_nth(t, s, pos, i) ==> i == history::nth(t, s, pos),
        history::shown(t, s)[pos] == t.items[history::nth(t, s, pos)],
{
    let n = t.items.len() as int;
    let chosen = history::shows(t, s);
    let i = history::lemma_kept_source(t.items, chosen, n, pos);
    assert(history::is_nth(t, s, pos, i));
    let m = history::nth(t, s, pos);
    assert forall|j: int| history::is_nth(t, s, pos, j) implies j == m by {
        if j < m {
            history::lemma_kept_prefix(t.items, chosen, j + 1, m);
        } else if m < j {
            history::lemma_kept_prefix(t.items, chosen, m + 1, j);
        }
    }
    history::lemma_kept_at(t.items, chosen, m);
}

pub proof fn lemma_next_known(items: Seq<int>, s: Set<int>, i: int)
    requires
        0 <= i <= items.len(),
    ensures
        i <= history::next_known(items, s, i) <= items.len(),
        forall|j: int|
            i <= j < history::next_known(items, s, i) ==> !s.contains(#[trigger] items[j]),
        history::next_known(items, s, i) < items.len() ==> s.contains(
            items[history::next_known(items, s, i)],
        ),
    decreases items.len() - i,
{
    if i < items.len() && !s.contains(items[i]) {
        lemma_next_known(items, s, i + 1);
    }
}

/// The place for a character: behind the one before it, and with no item that its
/// author knew of in it.
pub proof fn lemma_gap(t: Track, s: Set<int>, pos: int)
    requires
        0 <= pos <= history::shown(t, s).len(),
    ensures
        ({
            let from = history::gap_start(t, s, pos);
            let end = history::gap_end(t, s, pos);
            &&& 0 <= from <= end <= t.items.len()
            &&& history::rank(t, s, from) == pos
            &&& forall|at: int| from <= at <= end ==> #[trigger] history::rank(t, s, at) == pos
            &&& forall|j: int| from <= j < end ==> !s.contains(#[trigger] t.items[j])
            &&& end < t.items.len() ==> s.contains(t.items[end])
            &&& pos > 0 ==> from > 0 && s.contains(t.items[from - 1]) && t.items[from - 1]
                == history::shown(t, s)[pos - 1]
        }),
{
    let from = history::gap_start(t, s, pos);
    let end = history::gap_end(t, s, pos);
    if pos > 0 {
        lemma_nth(t, s, pos - 1);
    }
    lemma_next_known(t.items, s, from);
    assert forall|at: int| from <= at <= end implies #[trigger] history::rank(t, s, at) == pos by {
        lemma_rank_gap(t, s, from, at);
    }
}

proof fn lemma_rank_gap(t: Track, s: Set<int>, from: int, to: int)
    requires
        0 <= from <= to <= t.items.len(),
        forall|j: int| from <= j < to ==> !s.contains(#[trigger] t.items[j]),
    ensures
        history::rank(t, s, to) == history::rank(t, s, from),
    decreases to,
{
    if from < to {
        lemma_rank_gap(t, s, from, to - 1);
        assert(!s.contains(t.items[to - 1]));
    }
}

/// The seat of a new item is in the place that was made for it.
#[verifier::rlimit(50)]
pub proof fn lemma_seat_in_gap(h: Hist, t: Track, v: int, pos: int)
    requires
        h.valid(),
        0 <= v < h.len(),
        track_ok(h, t, v),
        0 <= pos <= history::shown(t, h.seen_by(v)).len(),
    ensures
        ({
            let s = h.seen_by(v);
            let nodes = t.nodes.push(history::new_node(h, t, v, pos));
            let from = history::gap_start(t, s, pos);
            let end = history::gap_end(t, s, pos);
            let at = order::seat(nodes, t.items, v, 0);
            &&& order::rooted(nodes)
            &&& order::distinct(nodes)
            &&& order::in_order(nodes, t.items)
            &&& 0 <= from <= at <= end <= t.items.len()
            &&& at == order::seat(nodes, t.items, v, from)
            &&& history::rank(t, s, at) == pos
        }),
{
    let s = h.seen_by(v);
    let node = history::new_node(h, t, v, pos);
    let nodes = t.nodes.push(node);
    let from = history::gap_start(t, s, pos);
    let end = history::gap_end(t, s, pos);
    let a = history::left_of_gap(t, s, pos);
    let b = history::right_of_gap(t, s, pos);
    lemma_gap(t, s, pos);
    if pos > 0 {
        assert(0 <= t.items[from - 1] < v);
    }
    if end < t.items.len() {
        assert(0 <= t.items[end] < v);
    }
    assert(order::rooted(nodes)) by {
        assert forall|x: int| 0 <= x < nodes.len() implies {
            &&& -1 <= (#[trigger] nodes[x]).parent < x
            &&& -1 <= nodes[x].right < x
        } by {
            if x < v {
                assert(nodes[x] == t.nodes[x]);
            }
        }
    }
    assert(order::distinct(nodes)) by {
        assert forall|x: int, y: int| 0 <= x < y < nodes.len() implies (#[trigger] nodes[x]).id
            != (#[trigger] nodes[y]).id by {
            assert(nodes[x].id == h.ids[x]) by {
                assert(nodes[x] == t.nodes[x]);
            }
            if y < v {
                assert(nodes[y] == t.nodes[y]);
            }
            assert(h.ids[x] != h.ids[y]);
        }
    }
    assert forall|x: int, y: int| 0 <= x < v && 0 <= y < v implies #[trigger] order::less(
        nodes,
        x,
        y,
    ) == order::less(t.nodes, x, y) && order::right_of(nodes, x, y) == order::right_of(
        t.nodes,
        x,
        y,
    ) by {
        order::lemma_less_prefix(t.nodes, nodes, x, y);
    }
    assert(order::in_order(nodes, t.items)) by {
        assert forall|i: int, j: int| 0 <= i < j < t.items.len() implies order::less(
            nodes,
            #[trigger] t.items[i],
            #[trigger] t.items[j],
        ) by {
            assert(order::less(t.nodes, t.items[i], t.items[j]));
        }
    }
    // The neighbours stand on either side of it.
    if a >= 0 && b >= 0 {
        assert(order::less(nodes, t.items[from - 1], t.items[end]));
        assert(order::less(nodes, a, b));
        assert(order::less(nodes, b, a) == order::less(t.nodes, b, a));
    }
    if b >= 0 && (a < 0 || order::right_of(t.nodes, b, a)) {
        order::lemma_left_child(nodes, v, b, a);
    } else if a >= 0 {
        order::lemma_right_child(nodes, v, a, b);
    }
    assert(a >= 0 ==> order::less(nodes, a, v));
    assert(b >= 0 ==> order::less(nodes, v, b));
    order::lemma_seat_from(nodes, t.items, v, from);
    order::lemma_seat(nodes, t.items, v, from);
    let at = order::seat(nodes, t.items, v, from);
    if b >= 0 && at > end {
        assert(order::less(nodes, t.items[end], v));
        order::lemma_total(nodes, b, v);
    }
}

/// What holds of what any number of events make.
pub proof fn lemma_track(h: Hist, k: int)
    requires
        h.valid(),
        0 <= k <= h.len(),
        history::playable_to(h, k),
    ensures
        track_ok(h, history::track(h, k), k),
        order::distinct(history::track(h, k).nodes),
    decreases k,
{
    let n = history::track(h, k);
    if k > 0 {
        let v = k - 1;
        let t = history::track(h, v);
        let s = h.seen_by(v);
        lemma_track(h, v);
        assert(history::placed(h, v));
        match h.ops[v] {
            EvOp::Ins { pos, ch } => {
                lemma_seat_in_gap(h, t, v, pos);
                lemma_item_added(h, t, n, v, pos);
            },
            EvOp::Del { pos } => {
                lemma_nth(t, s, pos);
                lemma_target_added(h, t, n, v, history::nth(t, s, pos));
            },
        }
    }
    lemma_distinct(h, n, k);
}

proof fn lemma_target_added(h: Hist, t: Track, n: Track, v: int, i: int)
    requires
        h.valid(),
        track_ok(h, t, v),
        0 <= v < h.len(),
        h.ops[v] is Del,
        0 <= i < t.items.len(),
        h.seen_by(v).contains(t.items[i]),
        n.nodes == t.nodes.push(history::no_node(h, v)),
        n.items == t.items,
        n.target == t.target.push(t.items[i]),
    ensures
        track_ok(h, n, v + 1),
{
    let x = t.items[i];
    assert forall|x: int| 0 <= x < n.nodes.len() implies {
        &&& -1 <= (#[trigger] n.nodes[x]).parent < x
        &&& -1 <= n.nodes[x].right < x
        &&& n.nodes[x].id == h.ids[x]
    } by {
        if x < v {
            assert(n.nodes[x] == t.nodes[x]);
        }
    }
    assert forall|i: int, j: int| 0 <= i < j < n.items.len() implies order::less(
        n.nodes,
        #[trigger] n.items[i],
        #[trigger] n.items[j],
    ) by {
        assert(order::less(t.nodes, t.items[i], t.items[j]));
        order::lemma_less_prefix(t.nodes, n.nodes, t.items[i], t.items[j]);
    }
    assert forall|w: int| has_item(t, w) implies #[trigger] has_item(n, w) by {
        let j = choose|j: int| 0 <= j < t.items.len() && #[trigger] t.items[j] == w;
        assert(n.items[j] == w);
    }
    assert(has_item(t, x));
    assert forall|w: int| 0 <= w < v + 1 && h.ops[w] is Ins implies #[trigger] n.target[w]
        == -1 by {
        assert(t.target[w] == -1);
    }
    assert forall|w: int| 0 <= w < v + 1 && h.ops[w] is Ins implies #[trigger] has_item(n, w) by {
        assert(has_item(t, w));
    }
    assert forall|d: int| 0 <= d < v + 1 && h.ops[d] is Del implies {
        let x = #[trigger] n.target[d];
        &&& 0 <= x < d
        &&& h.ops[x] is Ins
        &&& has_item(n, x)
        &&& h.seen_by(d).contains(x)
    } by {
        if d < v {
            assert(t.target[d] == n.target[d]);
            assert(has_item(t, t.target[d]));
        }
    }
}

#[verifier::rlimit(50)]
proof fn lemma_item_added(h: Hist, t: Track, n: Track, v: int, pos: int)
    requires
        h.valid(),
        track_ok(h, t, v),
        0 <= v < h.len(),
        h.ops[v] is Ins,
        ({
            let nodes = t.nodes.push(history::new_node(h, t, v, pos));
            let at = order::seat(nodes, t.items, v, 0);
            &&& order::rooted(nodes)
            &&& order::distinct(nodes)
            &&& order::in_order(nodes, t.items)
            &&& 0 <= at <= t.items.len()
            &&& n.nodes == nodes
            &&& n.items == t.items.insert(at, v)
            &&& n.target == t.target.push(-1)
        }),
    ensures
        track_ok(h, n, v + 1),
{
    let at = order::seat(n.nodes, t.items, v, 0);
    assert(!t.items.contains(v)) by {
        if t.items.contains(v) {
            let i = t.items.index_of(v);
            assert(0 <= t.items[i] < v);
        }
    }
    order::lemma_seated(n.nodes, t.items, v);
    assert forall|x: int| 0 <= x < v + 1 implies (#[trigger] n.nodes[x]).id == h.ids[x] by {
        if x < v {
            assert(n.nodes[x] == t.nodes[x]);
        }
    }
    assert forall|i: int| 0 <= i < n.items.len() implies h.ops[#[trigger] n.items[i]] is Ins by {
        if i < at {
            assert(n.items[i] == t.items[i]);
        } else if i > at {
            assert(n.items[i] == t.items[i - 1]);
        }
    }
    assert forall|i: int, j: int| 0 <= i < j < n.items.len() implies (#[trigger] n.items[i]) != (
    #[trigger] n.items[j]) by {
        order::lemma_total(n.nodes, n.items[i], n.items[j]);
        assert(order::less(n.nodes, n.items[i], n.items[j]));
    }
    assert forall|w: int| has_item(t, w) implies #[trigger] has_item(n, w) by {
        let j = choose|j: int| 0 <= j < t.items.len() && #[trigger] t.items[j] == w;
        assert(n.items[if j < at {
            j
        } else {
            j + 1
        }] == w);
    }
    assert(n.items[at] == v);
    assert(has_item(n, v));
    assert forall|w: int| 0 <= w < v + 1 && h.ops[w] is Ins implies #[trigger] n.target[w]
        == -1 by {
        if w < v {
            assert(t.target[w] == -1);
        }
    }
    assert forall|w: int| 0 <= w < v + 1 && h.ops[w] is Ins implies #[trigger] has_item(n, w) by {
        if w < v {
            assert(has_item(t, w));
        }
    }
    assert forall|d: int| 0 <= d < v + 1 && h.ops[d] is Del implies {
        let x = #[trigger] n.target[d];
        &&& 0 <= x < d
        &&& h.ops[x] is Ins
        &&& has_item(n, x)
        &&& h.seen_by(d).contains(x)
    } by {
        assert(t.target[d] == n.target[d]);
        assert(has_item(t, t.target[d]));
    }
}

// ---- later events ----

/// Whether all the events of `s` are among the first `k`.
pub open spec fn before(s: Set<int>, k: int) -> bool {
    forall|a: int| #[trigger] s.contains(a) ==> 0 <= a < k
}

/// An event that a version does not hold changes nothing of what it shows.
proof fn lemma_step_stable(h: Hist, k: int, s: Set<int>, lv: int)
    requires
        h.valid(),
        0 <= k < h.len(),
        history::playable_to(h, k + 1),
        before(s, k),
        has_item(history::track(h, k), lv),
    ensures
        ({
            let t = history::track(h, k);
            let n = history::track(h, k + 1);
            &&& has_item(n, lv)
            &&& history::shown(n, s) == history::shown(t, s)
            &&& history::rank(n, s, history::place_of(n.items, lv)) == history::rank(
                t,
                s,
                history::place_of(t.items, lv),
            )
            &&& history::gone(n, s, lv) == history::gone(t, s, lv)
        }),
{
    let t = history::track(h, k);
    let n = history::track(h, k + 1);
    lemma_track(h, k);
    lemma_track(h, k + 1);
    lemma_step_shown(h, k, s);
    let i = history::place_of(t.items, lv);
    assert(t.items[i] == lv);
    lemma_place_of(h, t, k, i);
    assert(history::placed(h, k));
    match h.ops[k] {
        EvOp::Ins { pos, ch } => {
            lemma_seat_in_gap(h, t, k, pos);
            let at = order::seat(n.nodes, t.items, k, 0);
            let j = if i < at {
                i
            } else {
                i + 1
            };
            assert(n.items[j] == t.items[i]);
            lemma_place_of(h, n, k + 1, j);
            history::lemma_kept_insert(t.items, history::shows(n, s), at, k, j);
            history::lemma_kept_same(t.items, history::shows(t, s), history::shows(n, s), i);
        },
        EvOp::Del { pos } => {
            assert(n.items[i] == lv);
            lemma_place_of(h, n, k + 1, i);
            history::lemma_kept_same(t.items, history::shows(t, s), history::shows(n, s), i);
        },
    }
}

proof fn lemma_step_shown(h: Hist, k: int, s: Set<int>)
    requires
        h.valid(),
        0 <= k < h.len(),
        history::playable_to(h, k + 1),
        before(s, k),
    ensures
        ({
            let t = history::track(h, k);
            let n = history::track(h, k + 1);
            &&& history::shown(n, s) == history::shown(t, s)
            &&& forall|x: int| #[trigger] history::gone(n, s, x) == history::gone(t, s, x)
            &&& forall|x: int| #[trigger]
                history::shows(n, s)(x) == history::shows(t, s)(x)
        }),
{
    let t = history::track(h, k);
    let n = history::track(h, k + 1);
    lemma_track(h, k);
    assert(history::placed(h, k));
    assert forall|x: int| #[trigger] history::gone(n, s, x) == history::gone(t, s, x) by {
        if history::gone(n, s, x) {
            let d = choose|d: int|
                0 <= d < n.target.len() && s.contains(d) && #[trigger] n.target[d] == x;
            assert(t.target[d] == x);
        }
        if history::gone(t, s, x) {
            let d = choose|d: int|
                0 <= d < t.target.len() && s.contains(d) && #[trigger] t.target[d] == x;
            assert(n.target[d] == x);
        }
    }
    assert forall|x: int| #[trigger] history::shows(n, s)(x) == history::shows(t, s)(x) by {
        assert(history::gone(n, s, x) == history::gone(t, s, x));
    }
    history::lemma_kept_same(
        t.items,
        history::shows(t, s),
        history::shows(n, s),
        t.items.len() as int,
    );
    match h.ops[k] {
        EvOp::Ins { pos, ch } => {
            lemma_seat_in_gap(h, t, k, pos);
            let at = order::seat(n.nodes, t.items, k, 0);
            history::lemma_kept_insert(
                t.items,
                history::shows(n, s),
                at,
                k,
                n.items.len() as int,
            );
        },
        EvOp::Del { pos } => {},
    }
}

/// Events that a version does not hold change nothing of what it shows.
pub proof fn lemma_stable(h: Hist, k: int, n: int, s: Set<int>)
    requires
        h.valid(),
        0 <= k <= n <= h.len(),
        history::playable_to(h, n),
        before(s, k),
    ensures
        history::shown(history::track(h, n), s) == history::shown(history::track(h, k), s),
        history::text(h, history::track(h, n), s) == history::text(h, history::track(h, k), s),
        forall|x: int| #[trigger]
            history::gone(history::track(h, n), s, x) == history::gone(
                history::track(h, k),
                s,
                x,
            ),
    decreases n - k,
{
    if k < n {
        lemma_stable(h, k, n - 1, s);
        assert(before(s, n - 1));
        lemma_step_shown(h, n - 1, s);
    }
}

/// Events that a version does not hold do not change where an item stands in it.
pub proof fn lemma_stable_rank(h: Hist, k: int, n: int, s: Set<int>, lv: int)
    requires
        h.valid(),
        0 <= k <= n <= h.len(),
        history::playable_to(h, n),
        before(s, k),
        has_item(history::track(h, k), lv),
    ensures
        has_item(history::track(h, n), lv),
        ({
            let t = history::track(h, k);
            let m = history::track(h, n);
            history::rank(m, s, history::place_of(m.items, lv)) == history::rank(
                t,
                s,
                history::place_of(t.items, lv),
            )
        }),
    decreases n - k,
{
    if k < n {
        lemma_stable_rank(h, k, n - 1, s, lv);
        assert(before(s, n - 1));
        lemma_step_stable(h, n - 1, s, lv);
    }
}

// ---- one more event ----

/// Whether a set of events holds with each event also what it follows.
pub open spec fn closed(h: Hist, s: Set<int>) -> bool {
    &&& before(s, h.len() as int)
    &&& forall|v: int, a: int|
        #![trigger s.contains(v), graph::reaches(h.parents, v, a)]
        s.contains(v) && graph::reaches(h.parents, v, a) ==> s.contains(a)
}

/// Where event `v` finds its place in the document that the events `s` make.
///
/// None if it deletes a character that is gone there.
pub open spec fn moved(h: Hist, s: Set<int>, v: int) -> Option<EvOp> {
    let t = history::track(h, h.len() as int);
    match h.ops[v] {
        EvOp::Ins { ch, .. } => Some(
            EvOp::Ins { pos: history::rank(t, s, history::place_of(t.items, v)), ch },
        ),
        EvOp::Del { .. } => {
            let x = t.target[v];
            if history::gone(t, s, x) {
                None
            } else {
                Some(EvOp::Del { pos: history::rank(t, s, history::place_of(t.items, x)) })
            }
        },
    }
}

/// What an event does to a document, in its place there: nothing if it has none.
pub open spec fn after_moved(doc: Seq<char>, ev: Option<EvOp>) -> Seq<char> {
    match ev {
        Some(ev) => operation::after(doc, ev),
        None => doc,
    }
}

/// An event, in its place in a document of which it is not part but all that it
/// follows is, makes the document of which it is part.
#[verifier::rlimit(50)]
pub proof fn law_moved(h: Hist, s: Set<int>, v: int)
    requires
        history::playable(h),
        closed(h, s),
        0 <= v < h.len(),
        !s.contains(v),
        h.seen_by(v).subset_of(s),
    ensures
        moved(h, s, v) matches Some(ev) ==> operation::fits(history::document(h, s), ev),
        history::document(h, s.insert(v)) == after_moved(
            history::document(h, s),
            moved(h, s, v),
        ),
{
    let n = h.len() as int;
    let t = history::track(h, n);
    let s2 = s.insert(v);
    lemma_track(h, n);
    let p = history::shows(t, s);
    let q = history::shows(t, s2);
    match h.ops[v] {
        EvOp::Ins { pos, ch } => {
            assert(t.target[v] == -1);
            assert(has_item(t, v));
            let i = history::place_of(t.items, v);
            assert(t.items[i] == v);
            assert forall|j: int| 0 <= j < t.items.len() && j != i implies p(#[trigger] t.items[j])
                == q(t.items[j]) by {
                let x = t.items[j];
                lemma_place_of(h, t, n, j);
                lemma_gone_more(h, t, s, v, x);
            }
            assert(!history::gone(t, s2, v)) by {
                if history::gone(t, s2, v) {
                    let d = choose|d: int|
                        0 <= d < t.target.len() && s2.contains(d) && #[trigger] t.target[d] == v;
                    assert(d != v);
                    assert(s.contains(d));
                    assert(h.seen_by(d).contains(v));
                    graph::lemma_parents_cone(h.parents, d, v);
                    assert(graph::reaches(h.parents, d, v));
                }
            }
            history::lemma_kept_more(t.items, p, q, i, t.items.len() as int);
            let a = history::shown(t, s);
            let b = history::shown(t, s2);
            let r = history::rank(t, s, i);
            assert(b == a.insert(r, t.items[i]));
            assert(history::text(h, t, s2) =~= history::text(h, t, s).insert(r, ch));
        },
        EvOp::Del { pos } => {
            let x = t.target[v];
            assert(h.seen_by(v).contains(x));
            assert(s.contains(x));
            let i = history::place_of(t.items, x);
            assert(has_item(t, x));
            assert(t.items[i] == x);
            assert forall|y: int| #[trigger]
                history::gone(t, s2, y) == (history::gone(t, s, y) || y == x) by {
                if history::gone(t, s2, y) && y != x {
                    let d = choose|d: int|
                        0 <= d < t.target.len() && s2.contains(d) && #[trigger] t.target[d] == y;
                    assert(s.contains(d));
                }
                if history::gone(t, s, y) {
                    let d = choose|d: int|
                        0 <= d < t.target.len() && s.contains(d) && #[trigger] t.target[d] == y;
                    assert(s2.contains(d));
                }
                if y == x {
                    assert(s2.contains(v));
                    assert(t.target[v] == y);
                }
            }
            assert forall|j: int| 0 <= j < t.items.len() && j != i implies q(#[trigger] t.items[j])
                == p(t.items[j]) by {
                let y = t.items[j];
                lemma_place_of(h, t, n, j);
                assert(y != x);
                assert(history::gone(t, s2, y) == history::gone(t, s, y));
                assert(0 <= y < n);
                assert(h.ops[y] is Ins);
            }
            assert(history::gone(t, s2, x));
            if history::gone(t, s, x) {
                assert forall|j: int| 0 <= j < t.items.len() implies p(#[trigger] t.items[j]) == q(
                    t.items[j],
                ) by {
                    if j == i {
                        assert(!p(t.items[i]) && !q(t.items[i]));
                    }
                }
                history::lemma_kept_same(t.items, p, q, t.items.len() as int);
            } else {
                history::lemma_kept_more(t.items, q, p, i, t.items.len() as int);
                history::lemma_kept_same(t.items, p, q, i);
                let a = history::shown(t, s);
                let b = history::shown(t, s2);
                let r = history::rank(t, s, i);
                assert(a == b.insert(r, t.items[i]));
                assert(b =~= a.remove(r));
                assert(history::text(h, t, s2) =~= history::text(h, t, s).remove(r));
            }
        },
    }
}

pub proof fn lemma_gone_more(h: Hist, t: Track, s: Set<int>, v: int, x: int)
    requires
        track_ok(h, t, h.len() as int),
        0 <= v < h.len(),
        h.ops[v] is Ins,
        x >= 0,
    ensures
        history::gone(t, s.insert(v), x) == history::gone(t, s, x),
{
    let s2 = s.insert(v);
    assert(t.target[v] == -1);
    if history::gone(t, s2, x) {
        let d = choose|d: int|
            0 <= d < t.target.len() && s2.contains(d) && #[trigger] t.target[d] == x;
        assert(s.contains(d));
    }
    if history::gone(t, s, x) {
        let d = choose|d: int|
            0 <= d < t.target.len() && s.contains(d) && #[trigger] t.target[d] == x;
        assert(s2.contains(d));
    }
}

/// An event finds its own place in the document that its author saw.
pub proof fn law_unmoved(h: Hist, v: int)
    requires
        history::playable(h),
        0 <= v < h.len(),
    ensures
        moved(h, h.seen_by(v), v) == Some(h.ops[v]),
        operation::fits(history::document(h, h.seen_by(v)), h.ops[v]),
{
    let n = h.len() as int;
    let s = h.seen_by(v);
    let t = history::track(h, v);
    let m = history::track(h, n);
    assert(history::placed(h, v));
    lemma_track(h, v);
    lemma_track(h, v + 1);
    lemma_track(h, n);
    assert(before(s, v)) by {
        assert forall|a: int| #[trigger] s.contains(a) implies 0 <= a < v by {
            graph::lemma_parents_cone(h.parents, v, a);
            graph::lemma_reaches_order(h.parents, v, a);
        }
    }
    lemma_stable(h, v, n, s);
    match h.ops[v] {
        EvOp::Ins { pos, ch } => {
            lemma_seat_in_gap(h, t, v, pos);
            let t2 = history::track(h, v + 1);
            let at = order::seat(t2.nodes, t.items, v, 0);
            assert(t2.items[at] == v);
            lemma_place_of(h, t2, v + 1, at);
            assert(before(s, v + 1));
            lemma_stable_rank(h, v + 1, n, s, v);
            lemma_step_shown(h, v, s);
            history::lemma_kept_insert(t.items, history::shows(t2, s), at, v, at);
            history::lemma_kept_same(t.items, history::shows(t, s), history::shows(t2, s), at);
        },
        EvOp::Del { pos } => {
            lemma_nth(t, s, pos);
            let i = history::nth(t, s, pos);
            let x = t.items[i];
            lemma_place_of(h, t, v, i);
            lemma_stable_rank(h, v, n, s, x);
            lemma_target(h, v + 1, n, v);
            assert(history::track(h, v + 1).target[v] == x);
            assert(!history::gone(t, s, x));
            assert(history::gone(m, s, x) == history::gone(t, s, x));
        },
    }
}

/// What an event deletes stays what it deletes.
pub proof fn lemma_target(h: Hist, k: int, n: int, d: int)
    requires
        h.valid(),
        0 <= d < k <= n <= h.len(),
        history::playable_to(h, n),
    ensures
        history::track(h, n).target[d] == history::track(h, k).target[d],
    decreases n - k,
{
    if k < n {
        lemma_target(h, k, n - 1, d);
        lemma_track(h, n - 1);
    }
}

/// The document at an event is what the event makes of the document at what it follows.
pub proof fn law_event(h: Hist, v: int)
    requires
        history::playable(h),
        0 <= v < h.len() <= usize::MAX,
    ensures
        operation::fits(history::document(h, h.version(h.parents[v])), h.ops[v]),
        history::document(h, h.version(seq![v as usize])) == operation::after(
            history::document(h, h.version(h.parents[v])),
            h.ops[v],
        ),
{
    let s = h.seen_by(v);
    let one = seq![v as usize];
    assert(h.version(h.parents[v]) =~= s);
    law_unmoved(h, v);
    assert(closed(h, s)) by {
        assert forall|x: int| #[trigger] s.contains(x) implies 0 <= x < h.len() by {
            graph::lemma_parents_cone(h.parents, v, x);
            graph::lemma_reaches_order(h.parents, v, x);
        }
        assert forall|x: int, y: int|
            #![trigger s.contains(x), graph::reaches(h.parents, x, y)]
            s.contains(x) && graph::reaches(h.parents, x, y) implies s.contains(y) by {
            graph::lemma_cone_closed(h.parents, h.parents[v], x, y);
        }
    }
    assert(!s.contains(v)) by {
        if s.contains(v) {
            let i = choose|i: int|
                0 <= i < h.parents[v].len() && #[trigger] graph::reaches(
                    h.parents,
                    h.parents[v][i] as int,
                    v,
                );
            assert(h.parents[v][i] < v);
            graph::lemma_reaches_order(h.parents, h.parents[v][i] as int, v);
        }
    }
    law_moved(h, s, v);
    assert forall|x: int| #[trigger] h.version(one).contains(x) == s.insert(v).contains(x) by {
        graph::lemma_parents_cone(h.parents, v, x);
        if h.version(one).contains(x) {
            let i = choose|i: int|
                0 <= i < one.len() && #[trigger] graph::reaches(h.parents, one[i] as int, x);
            assert(graph::reaches(h.parents, v, x));
        }
        if graph::reaches(h.parents, v, x) {
            assert(graph::reaches(h.parents, one[0] as int, x));
        }
        assert(graph::reaches(h.parents, v, v));
    }
    assert(h.version(one) =~= s.insert(v));
}

} // verus!
