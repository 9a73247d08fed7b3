//! What becomes of texts that are typed at one place without knowledge of each other.

use crate::convergence;
use crate::graph;
use crate::history;
use crate::history::{Hist, Track};
use crate::history_laws;
use crate::operation;
use crate::operation::EvOp;
use crate::order;
use crate::order::Nodes;
use crate::smart_string;
use vstd::prelude::*;

verus! {

/// Whether events type a text at position `pos` of the document that the events `s` make: one
/// character behind the other, each with knowledge of `s` and of those before it alone.
pub open spec fn typed(h: Hist, s: Set<int>, pos: int, run: Seq<int>) -> bool {
    &&& run.len() > 0
    &&& forall|i: int|
        0 <= i < run.len() ==> {
            &&& 0 <= #[trigger] run[i] < h.len()
            &&& h.ops[run[i]] matches EvOp::Ins { pos: p, .. } && p == pos + i
            &&& h.seen_by(run[i]) == s.union(run.take(i).to_set())
        }
}

/// Whether events compose a text at position `pos` of the document that the events `s` make:
/// each one types a character before, behind or into what those before it typed, with
/// knowledge of `s` and of those alone.
pub open spec fn composed(h: Hist, s: Set<int>, pos: int, run: Seq<int>) -> bool {
    &&& run.len() > 0
    &&& forall|i: int|
        0 <= i < run.len() ==> {
            &&& 0 <= #[trigger] run[i] < h.len()
            &&& h.ops[run[i]] matches EvOp::Ins { pos: p, .. } && pos <= p <= pos + i
            &&& h.seen_by(run[i]) == s.union(run.take(i).to_set())
        }
}

/// Where in the text that event `i` finds its character goes.
pub open spec fn offset(h: Hist, pos: int, run: Seq<int>, i: int) -> int {
    match h.ops[run[i]] {
        EvOp::Ins { pos: p, .. } => p - pos,
        EvOp::Del { .. } => 0,
    }
}

/// The text that the first `k` events compose.
pub open spec fn composition(h: Hist, pos: int, run: Seq<int>, k: int) -> Seq<char>
    decreases k,
{
    if k <= 0 {
        Seq::empty()
    } else {
        let was = composition(h, pos, run, k - 1);
        let at = offset(h, pos, run, k - 1);
        was.take(at) + seq![h.char_of(run[k - 1])] + was.skip(at)
    }
}

/// The first `k` events in the order in which what they typed stands.
spec fn made(h: Hist, pos: int, run: Seq<int>, k: int) -> Seq<int>
    decreases k,
{
    if k <= 0 {
        Seq::empty()
    } else {
        made(h, pos, run, k - 1).insert(offset(h, pos, run, k - 1), run[k - 1])
    }
}

proof fn lemma_made_items(h: Hist, s: Set<int>, pos: int, run: Seq<int>, k: int)
    requires
        composed(h, s, pos, run),
        0 <= k <= run.len(),
    ensures
        made(h, pos, run, k).len() == k,
        forall|i: int|
            0 <= i < k ==> run.take(k).contains(#[trigger] made(h, pos, run, k)[i]),
        forall|x: int|
            run.take(k).contains(x) ==> #[trigger] made(h, pos, run, k).contains(x),
        composition(h, pos, run, k) == what(h, made(h, pos, run, k)),
    decreases k,
{
    let now = made(h, pos, run, k);
    if k == 0 {
        assert(composition(h, pos, run, k) =~= what(h, now));
    } else {
        lemma_made_items(h, s, pos, run, k - 1);
        let was = made(h, pos, run, k - 1);
        let at = offset(h, pos, run, k - 1);
        let v = run[k - 1];
        assert(0 <= v < h.len());
        assert(0 <= at <= k - 1);
        assert(run.take(k)[k - 1] == v);
        assert forall|i: int| 0 <= i < k implies run.take(k).contains(#[trigger] now[i]) by {
            if i != at {
                let j = if i < at {
                    i
                } else {
                    i - 1
                };
                assert(now[i] == was[j]);
                assert(run.take(k - 1).contains(was[j]));
                let less = run.take(k - 1);
                let m = less.index_of(was[j]);
                assert(run.take(k)[m] == now[i]);
            }
        }
        assert forall|x: int| run.take(k).contains(x) implies #[trigger] now.contains(x) by {
            if x == v {
                assert(now[at] == x);
            } else {
                let more = run.take(k);
                let m = more.index_of(x);
                assert(run.take(k - 1)[m] == x);
                assert(was.contains(x));
                let j = was.index_of(x);
                if j < at {
                    assert(now[j] == x);
                } else {
                    assert(now[j + 1] == x);
                }
            }
        }
        let text = composition(h, pos, run, k - 1);
        assert(composition(h, pos, run, k) =~= what(h, now));
    }
}

/// A text that is typed one character behind the other is composed so.
proof fn lemma_typed_composed(h: Hist, s: Set<int>, pos: int, run: Seq<int>, k: int)
    requires
        typed(h, s, pos, run),
        0 <= k <= run.len(),
    ensures
        composed(h, s, pos, run),
        made(h, pos, run, k) == run.take(k),
    decreases k,
{
    assert forall|i: int| 0 <= i < run.len() implies {
        &&& 0 <= #[trigger] run[i] < h.len()
        &&& h.ops[run[i]] matches EvOp::Ins { pos: p, .. } && pos <= p <= pos + i
        &&& h.seen_by(run[i]) == s.union(run.take(i).to_set())
    } by {}
    if k == 0 {
        assert(made(h, pos, run, k) =~= run.take(k));
    } else {
        lemma_typed_composed(h, s, pos, run, k - 1);
        assert(run[k - 1] < h.len());
        assert(made(h, pos, run, k) =~= run.take(k));
    }
}

/// What events type.
pub open spec fn what(h: Hist, run: Seq<int>) -> Seq<char> {
    run.map_values(|v: int| h.char_of(v))
}

proof fn lemma_seen_closed(h: Hist, v: int)
    requires
        h.valid(),
        0 <= v < h.len(),
    ensures
        history_laws::closed(h, h.seen_by(v)),
{
    let s = h.seen_by(v);
    convergence::lemma_seen_before(h, v);
    assert forall|b: int, a: int|
        #![trigger s.contains(b), graph::reaches(h.parents, b, a)]
        s.contains(b) && graph::reaches(h.parents, b, a) implies s.contains(a) by {
        graph::lemma_cone_closed(h.parents, h.parents[v], b, a);
    }
}

proof fn lemma_union_closed(h: Hist, a: Set<int>, b: Set<int>)
    requires
        history_laws::closed(h, a),
        history_laws::closed(h, b),
    ensures
        history_laws::closed(h, a.union(b)),
{
    let s = a.union(b);
    assert forall|v: int, x: int|
        #![trigger s.contains(v), graph::reaches(h.parents, v, x)]
        s.contains(v) && graph::reaches(h.parents, v, x) implies s.contains(x) by {
        assert(a.contains(v) || b.contains(v));
        assert(a.contains(v) ==> a.contains(x));
        assert(b.contains(v) ==> b.contains(x));
    }
}

/// An item more is shown in its place, and moves what stands behind it on by one.
#[verifier::rlimit(40)]
proof fn lemma_shown_more(h: Hist, s: Set<int>, v: int)
    requires
        history::playable(h),
        history_laws::closed(h, s),
        0 <= v < h.len(),
        !s.contains(v),
        h.ops[v] is Ins,
    ensures
        ({
            let t = history::whole(h);
            let i = history::place_of(t.items, v);
            let r = history::rank(t, s, i);
            &&& 0 <= i < t.items.len()
            &&& t.items[i] == v
            &&& 0 <= r <= history::shown(t, s).len()
            &&& history::shown(t, s.insert(v)) == history::shown(t, s).insert(r, v)
            &&& forall|k: int|
                i < k <= t.items.len() ==> #[trigger] history::rank(t, s.insert(v), k)
                    == history::rank(t, s, k) + 1
        }),
{
    let n = h.len() as int;
    let t = history::whole(h);
    let s2 = s.insert(v);
    history_laws::lemma_track(h, n);
    let p = history::shows(t, s);
    let q = history::shows(t, s2);
    assert(t.target[v] == -1);
    assert(history_laws::has_item(t, v));
    let i = history::place_of(t.items, v);
    assert(t.items[i] == v);
    assert forall|j: int| 0 <= j < t.items.len() && j != i implies p(#[trigger] t.items[j]) == q(
        t.items[j],
    ) by {
        history_laws::lemma_place_of(h, t, n, j);
        history_laws::lemma_gone_more(h, t, s, v, t.items[j]);
    }
    assert(!history::gone(t, s2, v)) by {
        if history::gone(t, s2, v) {
            let d = choose|d: int|
                0 <= d < t.target.len() && s2.contains(d) && #[trigger] t.target[d] == v;
            assert(d != v);
            assert(s.contains(d));
            assert(h.seen_by(d).contains(v));
            graph::lemma_parents_cone(h.parents, d, v);
            assert(graph::reaches(h.parents, d, v));
        }
    }
    history::lemma_kept_more(t.items, p, q, i, t.items.len() as int);
    assert forall|k: int| i < k <= t.items.len() implies #[trigger] history::rank(t, s2, k)
        == history::rank(t, s, k) + 1 by {
        history::lemma_kept_more(t.items, p, q, i, k);
    }
}

/// What is known of the events of a text.
proof fn lemma_typed(h: Hist, s: Set<int>, pos: int, run: Seq<int>, i: int)
    requires
        h.valid(),
        composed(h, s, pos, run),
        0 <= i < run.len(),
    ensures
        h.seen_by(run[0]) == s,
        s.union(run.take(i + 1).to_set()) == s.union(run.take(i).to_set()).insert(run[i]),
        !s.union(run.take(i).to_set()).contains(run[i]),
        history_laws::closed(h, s.union(run.take(i).to_set())),
        history_laws::closed(h, s.union(run.take(i + 1).to_set())),
        history_laws::before(s, run[0]),
        forall|k: int| 0 <= k < i ==> #[trigger] run[k] < run[i],
{
    let x = s.union(run.take(i).to_set());
    assert(run.take(0).to_set() =~= Set::<int>::empty());
    assert(h.seen_by(run[0]) =~= s);
    convergence::lemma_seen_before(h, run[0]);
    convergence::lemma_seen_before(h, run[i]);
    assert(run.take(i + 1) =~= run.take(i).push(run[i]));
    assert(s.union(run.take(i + 1).to_set()) =~= x.insert(run[i])) by {
        let y = s.union(run.take(i + 1).to_set());
        assert forall|v: int| y.contains(v) == x.insert(run[i]).contains(v) by {
            if run.take(i + 1).contains(v) {
                let more = run.take(i + 1);
                let k = choose|k: int| 0 <= k < more.len() && more[k] == v;
                if k < i {
                    assert(run.take(i)[k] == v);
                    assert(run.take(i).contains(v));
                }
            }
            if run.take(i).contains(v) {
                let less = run.take(i);
                let k = choose|k: int| 0 <= k < less.len() && less[k] == v;
                assert(run.take(i + 1)[k] == v);
            }
            assert(run.take(i + 1)[i] == run[i]);
            assert(run.take(i + 1).contains(run[i]));
        }
    }
    assert(x == h.seen_by(run[i]));
    assert forall|k: int| 0 <= k < i implies #[trigger] run[k] < run[i] by {
        assert(run.take(i)[k] == run[k]);
        assert(run.take(i).contains(run[k]));
        assert(x.contains(run[k]));
    }
    lemma_seen_closed(h, run[i]);
    let y = x.insert(run[i]);
    assert(history_laws::closed(h, y)) by {
        assert forall|b: int, a: int|
            #![trigger y.contains(b), graph::reaches(h.parents, b, a)]
            y.contains(b) && graph::reaches(h.parents, b, a) implies y.contains(a) by {
            if b == run[i] {
                graph::lemma_parents_cone(h.parents, b, a);
            } else {
                assert(x.contains(b));
            }
        }
    }
}

/// The characters of a text stand where it was typed.
proof fn lemma_typed_shown(h: Hist, s: Set<int>, pos: int, run: Seq<int>, i: int)
    requires
        history::playable(h),
        composed(h, s, pos, run),
        0 <= i <= run.len(),
    ensures
        ({
            let t = history::whole(h);
            let d = history::shown(t, s);
            &&& 0 <= pos <= d.len()
            &&& history::shown(t, s.union(run.take(i).to_set())) == d.take(pos) + made(
                h,
                pos,
                run,
                i,
            ) + d.skip(pos)
        }),
    decreases i,
{
    let t = history::whole(h);
    let d = history::shown(t, s);
    lemma_typed(h, s, pos, run, 0);
    assert(run[0] < h.len());
    convergence::lemma_made(h, run[0]);
    if i == 0 {
        assert(run.take(0).to_set() =~= Set::<int>::empty());
        assert(s.union(run.take(0).to_set()) =~= s);
        assert(d.take(pos) + made(h, pos, run, 0) + d.skip(pos) =~= d);
    } else {
        lemma_typed_shown(h, s, pos, run, i - 1);
        let v = run[i - 1];
        let x = s.union(run.take(i - 1).to_set());
        lemma_typed(h, s, pos, run, i - 1);
        lemma_shown_more(h, x, v);
        history_laws::law_unmoved(h, v);
        lemma_made_items(h, s, pos, run, i - 1);
        assert(0 <= v < h.len());
        assert(history::shown(t, x.insert(v)) =~= d.take(pos) + made(h, pos, run, i) + d.skip(
            pos,
        ));
    }
}

/// Whether node `x` is node `u`, or below it.
spec fn below(nodes: Nodes, u: int, x: int) -> bool {
    let p = order::path(nodes, u);
    let q = order::path(nodes, x);
    p.len() <= q.len() && q.take(p.len() as int) == p
}

/// What is below a node stands where the node stands, seen from what is not below it.
proof fn lemma_below(nodes: Nodes, u: int, x: int, c: int)
    requires
        order::rooted(nodes),
        0 <= u < nodes.len(),
        0 <= x < nodes.len(),
        0 <= c < nodes.len(),
        below(nodes, u, x),
        !below(nodes, u, c),
    ensures
        order::less(nodes, x, c) == order::less(nodes, u, c),
        order::less(nodes, c, x) == order::less(nodes, c, u),
{
    let p = order::path(nodes, u);
    let q = order::path(nodes, x);
    let r = order::path(nodes, c);
    let d = order::common(p, r) as int;
    order::lemma_common(p, r);
    if d == p.len() {
        assert(p.take(d) =~= p);
    }
    assert forall|i: int| 0 <= i < p.len() implies q[i] == p[i] by {
        assert(q.take(p.len() as int)[i] == q[i]);
    }
    assert forall|i: int| 0 <= i < d implies q[i] == r[i] by {
        assert(p.take(d)[i] == r.take(d)[i]);
    }
    order::lemma_common_is(q, r, d);
    order::lemma_common(q, r);
    order::lemma_part(nodes, x, c);
    order::lemma_part(nodes, u, c);
    order::lemma_part(nodes, c, x);
    order::lemma_part(nodes, c, u);
}

/// A child of what is below a node is below it.
proof fn lemma_child_below(nodes: Nodes, u: int, x: int, v: int)
    requires
        order::rooted(nodes),
        0 <= v < nodes.len(),
        nodes[v].parent == x,
        below(nodes, u, x),
    ensures
        below(nodes, u, v),
{
    let p = order::path(nodes, u);
    let q = order::path(nodes, x);
    assert(order::path(nodes, v) == q.push(v));
    assert(q.push(v).take(p.len() as int) =~= q.take(p.len() as int));
}

/// What is below a node on the right of another is on the right of that.
proof fn lemma_right_below(nodes: Nodes, u: int, x: int, a: int)
    requires
        below(nodes, u, x),
        order::right_of(nodes, u, a),
    ensures
        order::right_of(nodes, x, a),
{
    let p = order::path(nodes, u);
    let q = order::path(nodes, x);
    let r = order::path(nodes, a);
    let n = r.len() as int;
    assert(q.take(n) =~= p.take(n)) by {
        assert(q.take(p.len() as int).take(n) =~= q.take(n));
    }
    assert(q[n] == q.take(p.len() as int)[n]);
}

/// What an earlier event made is not below what a later one made.
proof fn lemma_not_below(nodes: Nodes, u: int, c: int)
    requires
        order::rooted(nodes),
        0 <= c < u < nodes.len(),
    ensures
        !below(nodes, u, c),
{
    let p = order::path(nodes, u);
    let q = order::path(nodes, c);
    order::lemma_path(nodes, u);
    order::lemma_path(nodes, c);
    if below(nodes, u, c) {
        assert(q.take(p.len() as int)[p.len() - 1] == p[p.len() - 1]);
        assert(q[p.len() - 1] == u);
    }
}

/// Whether a known item is one of a text, or older than it.
proof fn lemma_known(h: Hist, s: Set<int>, pos: int, run: Seq<int>, i: int, b: int)
    requires
        history::playable(h),
        composed(h, s, pos, run),
        0 < i < run.len(),
        h.seen_by(run[i]).contains(b),
    ensures
        s.contains(b) || made(h, pos, run, i).contains(b),
        s.contains(b) ==> b < run[0],
{
    lemma_typed(h, s, pos, run, i);
    lemma_made_items(h, s, pos, run, i);
    assert(0 <= run[i] < h.len());
    if !s.contains(b) {
        assert(run.take(i).contains(b));
    }
}

/// What is next behind a place within a text, for its author, is what stands there.
#[verifier::rlimit(60)]
proof fn lemma_next_own(h: Hist, s: Set<int>, pos: int, run: Seq<int>, i: int, at: int, b: int)
    requires
        history::playable(h),
        composed(h, s, pos, run),
        0 < i < run.len(),
        0 <= at < i,
        forall|k: int|
            0 <= k < i ==> below(history::whole(h).nodes, run[0], #[trigger] run[k]),
        ({
            let t = history::whole(h);
            let d = history::shown(t, h.seen_by(run[i]));
            convergence::is_next(
                h,
                t.nodes,
                h.seen_by(run[i]),
                convergence::item_before(d, pos + at),
                b,
            )
        }),
    ensures
        b == made(h, pos, run, i)[at],
{
    let t = history::whole(h);
    let nodes = t.nodes;
    let n = h.len() as int;
    let x = h.seen_by(run[i]);
    let own = made(h, pos, run, i);
    let d0 = history::shown(t, s);
    let d = history::shown(t, x);
    history_laws::lemma_track(h, n);
    lemma_typed(h, s, pos, run, i);
    lemma_typed(h, s, pos, run, 0);
    lemma_typed_shown(h, s, pos, run, i);
    lemma_made_items(h, s, pos, run, i);
    convergence::lemma_shown_order(h, t, n, x);
    assert(0 <= run[0] < n && 0 <= run[i] < n);
    let r = own[at];
    let left = convergence::item_before(d, pos + at);
    assert(d[pos + at] == r);
    assert(run.take(i).contains(r));
    assert(d.contains(d[pos + at]));
    assert(x.contains(r));
    assert(history_laws::has_item(t, r));
    assert(h.ops[r] is Ins);
    if pos + at > 0 {
        assert(left == d[pos + at - 1]);
        assert(order::less(nodes, d[pos + at - 1], d[pos + at]));
        assert(0 <= left < n);
    }
    let u = run[0];
    let q = run.take(i).index_of(r);
    assert(run[q] == r);
    assert(below(nodes, u, run[q]));
    if b != r {
        assert(b >= 0 && order::less(nodes, b, r));
        assert(x.contains(b) && b < n) by {
            convergence::lemma_seen_before(h, run[i]);
        }
        lemma_known(h, s, pos, run, i, b);
        order::lemma_total(nodes, b, r);
        if own.contains(b) {
            let c = own.index_of(b);
            assert(d[pos + c] == b);
            if c > at {
                assert(order::less(nodes, d[pos + at], d[pos + c]));
            } else {
                assert(c < at);
                assert(left == d[pos + at - 1]);
                order::lemma_total(nodes, left, b);
                if c < at - 1 {
                    assert(order::less(nodes, d[pos + c], d[pos + at - 1]));
                }
            }
            assert(false);
        }
        lemma_not_below(nodes, u, b);
        lemma_below(nodes, u, r, b);
        assert(order::less(nodes, b, u));
        order::lemma_total(nodes, b, u);
        if at > 0 {
            assert(left == own[at - 1]);
            assert(run.take(i).contains(own[at - 1]));
            let m = run.take(i).index_of(left);
            assert(run[m] == left);
            assert(below(nodes, u, run[m]));
            lemma_below(nodes, u, left, b);
        } else {
            assert(left == convergence::item_before(d0, pos));
            convergence::lemma_made(h, u);
            let b0 = choose|b0: int| convergence::made_between(h, nodes, u, left, b0);
            assert(-1 <= left < n);
            lemma_between(h, u, left, b0);
            assert(s.contains(b) && h.ops[b] is Ins);
            assert(b0 >= 0 && (b == b0 || order::less(nodes, b0, b)));
            if b != b0 {
                order::lemma_trans(nodes, u, b0, b);
            }
        }
        assert(false);
    }
}

/// The characters of a text stand below its first one in the tree.
#[verifier::rlimit(60)]
proof fn lemma_stem(h: Hist, s: Set<int>, pos: int, run: Seq<int>, i: int)
    requires
        history::playable(h),
        composed(h, s, pos, run),
        0 <= i < run.len(),
    ensures
        below(history::whole(h).nodes, run[0], run[i]),
    decreases i,
{
    let t = history::whole(h);
    let nodes = t.nodes;
    let n = h.len() as int;
    history_laws::lemma_track(h, n);
    let u = run[0];
    let v = run[i];
    assert(0 <= u < n && 0 <= v < n);
    let p = order::path(nodes, u);
    if i == 0 {
        assert(p.take(p.len() as int) =~= p);
    } else {
        assert forall|k: int| 0 <= k < i implies below(nodes, u, #[trigger] run[k]) by {
            lemma_stem(h, s, pos, run, k);
        }
        lemma_typed(h, s, pos, run, i);
        lemma_typed(h, s, pos, run, 0);
        lemma_typed_shown(h, s, pos, run, i);
        lemma_made_items(h, s, pos, run, i);
        let x = h.seen_by(v);
        let d0 = history::shown(t, s);
        let d = history::shown(t, x);
        let own = made(h, pos, run, i);
        let at = offset(h, pos, run, i);
        convergence::lemma_made(h, v);
        let left = convergence::item_before(d, pos + at);
        let b = choose|b: int| convergence::made_between(h, nodes, v, left, b);
        if at > 0 {
            assert(left == own[at - 1]);
            assert(run.take(i).contains(own[at - 1]));
            let m = run.take(i).index_of(left);
            assert(run[m] == left);
            assert(below(nodes, u, run[m]));
            assert(0 <= left < n);
        }
        if at < i {
            lemma_next_own(h, s, pos, run, i, at, b);
            assert(run.take(i).contains(own[at]));
            let m = run.take(i).index_of(b);
            assert(run[m] == b);
            assert(below(nodes, u, run[m]));
            if nodes[v].parent == b {
                lemma_child_below(nodes, u, b, v);
            } else {
                assert(nodes[v].parent == left && left >= 0 && !order::right_of(nodes, b, left));
                if at == 0 {
                    assert(left == convergence::item_before(d0, pos));
                    convergence::lemma_made(h, u);
                    let b0 = choose|b0: int| convergence::made_between(h, nodes, u, left, b0);
                    assert(left < n) by {
                        assert(nodes[v].parent < v);
                    }
                    lemma_on_right(h, u, left, b0);
                    lemma_right_below(nodes, u, b, left);
                }
                lemma_child_below(nodes, u, left, v);
            }
        } else {
            if b >= 0 && order::right_of(nodes, b, left) {
                let pa = order::path(nodes, left);
                let pb = order::path(nodes, b);
                assert(x.contains(b));
                convergence::lemma_seen_before(h, v);
                order::lemma_path(nodes, left);
                order::lemma_path(nodes, b);
                assert(pb.take(pa.len() as int)[pa.len() - 1] == left);
                assert(pb[pa.len() - 1] == left);
                assert(left <= b);
                lemma_known(h, s, pos, run, i, b);
                let m = run.take(i).index_of(left);
                assert(u <= left) by {
                    if m > 0 {
                        lemma_typed(h, s, pos, run, m);
                    }
                }
                assert(order::less(nodes, left, b));
                order::lemma_total(nodes, left, b);
                convergence::lemma_shown_order(h, t, n, x);
                let c = own.index_of(b);
                assert(d[pos + c] == b);
                assert(d[pos + i - 1] == left);
                if c < i - 1 {
                    assert(order::less(nodes, d[pos + c], d[pos + i - 1]));
                }
                assert(false);
            }
            assert(nodes[v].parent == left);
            lemma_child_below(nodes, u, left, v);
        }
    }
}

/// The first characters of two texts that are typed at one place have the same place in the
/// tree, but for their authors.
proof fn lemma_same_place(h: Hist, s: Set<int>, pos: int, us: Seq<int>, ws: Seq<int>)
    requires
        history::playable(h),
        composed(h, s, pos, us),
        composed(h, s, pos, ws),
    ensures
        ({
            let nodes = history::whole(h).nodes;
            let a = nodes[us[0]];
            let b = nodes[ws[0]];
            &&& a.parent == b.parent
            &&& a.rightward == b.rightward
            &&& a.right == b.right
            &&& a.id == h.ids[us[0]]
            &&& b.id == h.ids[ws[0]]
        }),
{
    let t = history::whole(h);
    history_laws::lemma_track(h, h.len() as int);
    lemma_typed(h, s, pos, us, 0);
    lemma_typed(h, s, pos, ws, 0);
    let u = us[0];
    let w = ws[0];
    assert(0 <= u < h.len());
    assert(0 <= w < h.len());
    convergence::lemma_made(h, u);
    convergence::lemma_made(h, w);
    let a = convergence::item_before(history::shown(t, s), pos);
    let x = choose|b: int| convergence::made_between(h, t.nodes, u, a, b);
    let y = choose|b: int| convergence::made_between(h, t.nodes, w, a, b);
    convergence::lemma_next_unique(h, t.nodes, s, a, x, y);
    assert(t.nodes[u].id == h.ids[u]);
    assert(t.nodes[w].id == h.ids[w]);
}

/// Whether the first of two authors' counts comes first: by the authors' names in dictionary
/// order, and for one author by the counts.
spec fn first_by_name(a: (Seq<char>, int), b: (Seq<char>, int)) -> bool {
    smart_string::text_less(a.0, b.0) || a.0 == b.0 && a.1 < b.1
}

/// Every character of the one text stands before every character of the other.
#[verifier::rlimit(40)]
proof fn lemma_apart(
    h: Hist,
    s: Set<int>,
    pos: int,
    us: Seq<int>,
    ws: Seq<int>,
    i: int,
    j: int,
)
    requires
        history::playable(h),
        composed(h, s, pos, us),
        composed(h, s, pos, ws),
        first_by_name(h.ids[us[0]], h.ids[ws[0]]),
        0 <= i < us.len(),
        0 <= j < ws.len(),
    ensures
        us[i] != ws[j],
        ({
            let t = history::whole(h);
            history::place_of(t.items, us[i]) < history::place_of(t.items, ws[j])
        }),
{
    let t = history::whole(h);
    let nodes = t.nodes;
    let n = h.len() as int;
    history_laws::lemma_track(h, n);
    lemma_same_place(h, s, pos, us, ws);
    lemma_stem(h, s, pos, us, i);
    lemma_stem(h, s, pos, ws, j);
    let u = us[0];
    let w = ws[0];
    assert(0 <= u < n && 0 <= w < n && 0 <= us[i] < n && 0 <= ws[j] < n);
    order::lemma_id_less(h.ids[u], h.ids[w], h.ids[u]);
    assert(order::id_less(h.ids[u], h.ids[w]));
    assert(u != w);
    let p = order::path(nodes, us[i]);
    let q = order::path(nodes, ws[j]);
    let top = order::path(nodes, nodes[u].parent);
    let d = top.len() as int;
    assert(-1 <= nodes[u].parent < u && -1 <= nodes[w].parent < w);
    assert(order::path(nodes, u) == top.push(u));
    assert(order::path(nodes, w) == top.push(w));
    assert(p[d] == p.take(d + 1)[d]);
    assert(q[d] == q.take(d + 1)[d]);
    assert forall|k: int| 0 <= k < d implies p[k] == q[k] by {
        assert(p.take(d + 1)[k] == q.take(d + 1)[k]);
    }
    order::lemma_common_is(p, q, d);
    order::lemma_part(nodes, us[i], ws[j]);
    assert(order::less(nodes, us[i], ws[j]));
    order::lemma_total(nodes, us[i], ws[j]);
    assert(history_laws::has_item(t, us[i]));
    assert(history_laws::has_item(t, ws[j]));
    let a = history::place_of(t.items, us[i]);
    let b = history::place_of(t.items, ws[j]);
    assert(t.items[a] == us[i]);
    assert(t.items[b] == ws[j]);
    if b < a {
        assert(order::less(nodes, t.items[b], t.items[a]));
    }
}

/// Where a character of the later text stands in a document that shows characters of the
/// earlier one.
proof fn lemma_pushed_on(
    h: Hist,
    s: Set<int>,
    pos: int,
    us: Seq<int>,
    ws: Seq<int>,
    i: int,
    j: int,
)
    requires
        history::playable(h),
        composed(h, s, pos, us),
        composed(h, s, pos, ws),
        first_by_name(h.ids[us[0]], h.ids[ws[0]]),
        0 <= i <= us.len(),
        0 <= j < ws.len(),
    ensures
        ({
            let t = history::whole(h);
            let x = h.seen_by(ws[j]).union(us.take(i).to_set());
            &&& history::rank(t, x, history::place_of(t.items, ws[j])) == pos + offset(
                h,
                pos,
                ws,
                j,
            ) + i
            &&& history_laws::closed(h, x)
            &&& !x.contains(ws[j])
        }),
    decreases i,
{
    let t = history::whole(h);
    let w = ws[j];
    let b = h.seen_by(w);
    history_laws::lemma_track(h, h.len() as int);
    lemma_typed(h, s, pos, ws, j);
    assert(0 <= w < h.len());
    let x = b.union(us.take(i).to_set());
    if i == 0 {
        history_laws::law_unmoved(h, w);
        assert(us.take(0).to_set() =~= Set::<int>::empty());
        assert(x =~= b);
        assert(b == s.union(ws.take(j).to_set()));
    } else {
        let y = b.union(us.take(i - 1).to_set());
        let v = us[i - 1];
        lemma_pushed_on(h, s, pos, us, ws, i - 1, j);
        lemma_typed(h, s, pos, us, i - 1);
        lemma_apart(h, s, pos, us, ws, i - 1, j);
        assert(!y.contains(v)) by {
            if b.contains(v) {
                assert(!s.contains(v));
                assert(ws.take(j).contains(v));
                let less = ws.take(j);
                let k = choose|k: int| 0 <= k < less.len() && less[k] == v;
                lemma_apart(h, s, pos, us, ws, i - 1, k);
            }
        }
        let m = s.union(us.take(i).to_set());
        assert(m == s.union(us.take(i - 1).to_set()).insert(v));
        assert(b == s.union(ws.take(j).to_set()));
        assert(x =~= y.insert(v)) by {
            assert forall|e: int| x.contains(e) == y.insert(v).contains(e) by {
                assert(m.contains(e) == s.union(us.take(i - 1).to_set()).insert(v).contains(e));
            }
        }
        assert(x =~= b.union(m));
        lemma_union_closed(h, b, m);
        assert(0 <= v < h.len());
        lemma_shown_more(h, y, v);
        assert(history_laws::has_item(t, w));
        let at = history::place_of(t.items, w);
        assert(t.items[at] == w);
        assert(history::rank(t, y.insert(v), at) == history::rank(t, y, at) + 1);
    }
}

/// Two texts that are composed at one place without knowledge of each other stand there one
/// behind the other, each in one piece, however they were composed. The text of the author
/// whose name comes first in dictionary order comes first; of two texts of one author, the one
/// with the smaller count.
pub proof fn law_apart(h: Hist, s: Set<int>, pos: int, us: Seq<int>, ws: Seq<int>)
    requires
        history::playable(h),
        composed(h, s, pos, us),
        composed(h, s, pos, ws),
        ({
            let (a, b) = (h.ids[us[0]], h.ids[ws[0]]);
            smart_string::text_less(a.0, b.0) || a.0 == b.0 && a.1 < b.1
        }),
    ensures
        ({
            let doc = history::document(h, s);
            let both = s.union(us.to_set()).union(ws.to_set());
            &&& 0 <= pos <= doc.len()
            &&& history::document(h, both) == doc.take(pos) + composition(
                h,
                pos,
                us,
                us.len() as int,
            ) + composition(h, pos, ws, ws.len() as int) + doc.skip(pos)
        }),
{
    let t = history::whole(h);
    let d = history::shown(t, s);
    let both = s.union(us.to_set()).union(ws.to_set());
    lemma_both_shown(h, s, pos, us, ws, ws.len() as int);
    lemma_typed_shown(h, s, pos, us, 0);
    lemma_made_items(h, s, pos, us, us.len() as int);
    lemma_made_items(h, s, pos, ws, ws.len() as int);
    assert(ws.take(ws.len() as int) =~= ws);
    let f = |x: int| h.char_of(x);
    let doc = history::document(h, s);
    assert(doc == d.map_values(f));
    let a = made(h, pos, us, us.len() as int);
    let b = made(h, pos, ws, ws.len() as int);
    assert((d.take(pos) + a + b + d.skip(pos)).map_values(f) =~= doc.take(pos) + what(h, a)
        + what(h, b) + doc.skip(pos));
}

/// Two texts that are typed at one place without knowledge of each other stand there one
/// behind the other, each in one piece. The text of the author whose name comes first in
/// dictionary order comes first; of two texts of one author, the one with the smaller count.
pub proof fn law_side_by_side(h: Hist, s: Set<int>, pos: int, us: Seq<int>, ws: Seq<int>)
    requires
        history::playable(h),
        typed(h, s, pos, us),
        typed(h, s, pos, ws),
        ({
            let (a, b) = (h.ids[us[0]], h.ids[ws[0]]);
            smart_string::text_less(a.0, b.0) || a.0 == b.0 && a.1 < b.1
        }),
    ensures
        ({
            let doc = history::document(h, s);
            let both = s.union(us.to_set()).union(ws.to_set());
            &&& 0 <= pos <= doc.len()
            &&& history::document(h, both) == doc.take(pos) + what(h, us) + what(h, ws)
                + doc.skip(pos)
        }),
{
    lemma_typed_composed(h, s, pos, us, us.len() as int);
    lemma_typed_composed(h, s, pos, ws, ws.len() as int);
    lemma_made_items(h, s, pos, us, us.len() as int);
    lemma_made_items(h, s, pos, ws, ws.len() as int);
    law_apart(h, s, pos, us, ws);
    assert(us.take(us.len() as int) =~= us);
    assert(ws.take(ws.len() as int) =~= ws);
}

proof fn lemma_both_shown(
    h: Hist,
    s: Set<int>,
    pos: int,
    us: Seq<int>,
    ws: Seq<int>,
    j: int,
)
    requires
        history::playable(h),
        composed(h, s, pos, us),
        composed(h, s, pos, ws),
        first_by_name(h.ids[us[0]], h.ids[ws[0]]),
        0 <= j <= ws.len(),
    ensures
        ({
            let t = history::whole(h);
            let d = history::shown(t, s);
            let x = s.union(us.to_set()).union(ws.take(j).to_set());
            history::shown(t, x) == d.take(pos) + made(h, pos, us, us.len() as int) + made(
                h,
                pos,
                ws,
                j,
            ) + d.skip(pos)
        }),
    decreases j,
{
    let t = history::whole(h);
    let d = history::shown(t, s);
    let m = us.len() as int;
    let all = made(h, pos, us, m);
    let x = s.union(us.to_set()).union(ws.take(j).to_set());
    assert(us.take(m) =~= us);
    lemma_typed_shown(h, s, pos, us, m);
    if j == 0 {
        assert(ws.take(0).to_set() =~= Set::<int>::empty());
        assert(x =~= s.union(us.to_set()));
        assert(d.take(pos) + all + made(h, pos, ws, 0) + d.skip(pos) =~= d.take(pos) + all + d.skip(
            pos,
        ));
    } else {
        lemma_both_shown(h, s, pos, us, ws, j - 1);
        let w = ws[j - 1];
        let y = s.union(us.to_set()).union(ws.take(j - 1).to_set());
        lemma_pushed_on(h, s, pos, us, ws, m, j - 1);
        lemma_typed(h, s, pos, ws, j - 1);
        assert(h.seen_by(w) == s.union(ws.take(j - 1).to_set()));
        assert(y =~= h.seen_by(w).union(us.take(m).to_set()));
        assert(x =~= y.insert(w)) by {
            let a = s.union(ws.take(j).to_set());
            let b = s.union(ws.take(j - 1).to_set()).insert(w);
            assert(a == b);
            assert forall|e: int| x.contains(e) == y.insert(w).contains(e) by {
                assert(a.contains(e) == b.contains(e));
            }
        }
        assert(0 <= w < h.len());
        lemma_shown_more(h, y, w);
        lemma_made_items(h, s, pos, us, m);
        lemma_made_items(h, s, pos, ws, j - 1);
        assert(history::shown(t, y.insert(w)) =~= d.take(pos) + all + made(h, pos, ws, j) + d.skip(
            pos,
        ));
    }
}

// ---- what was typed before different things ----

/// An item stands between the two that its author saw around its place.
proof fn lemma_between(h: Hist, v: int, a: int, b: int)
    requires
        history::playable(h),
        0 <= v < h.len(),
        -1 <= a < h.len(),
        convergence::made_between(h, history::whole(h).nodes, v, a, b),
    ensures
        ({
            let nodes = history::whole(h).nodes;
            &&& a >= 0 ==> order::less(nodes, a, v)
            &&& b >= 0 ==> order::less(nodes, v, b)
        }),
{
    let nodes = history::whole(h).nodes;
    history_laws::lemma_track(h, h.len() as int);
    if b >= 0 && (a < 0 || order::right_of(nodes, b, a)) {
        assert(nodes[v].parent == b);
        order::lemma_left_child(nodes, v, b, a);
    } else if a >= 0 {
        order::lemma_right_child(nodes, v, a, b);
    }
}

/// A node between others is on the right of the one before it, if that has anything there.
proof fn lemma_on_right(h: Hist, v: int, a: int, b: int)
    requires
        history::playable(h),
        0 <= v < h.len(),
        0 <= a < h.len(),
        convergence::made_between(h, history::whole(h).nodes, v, a, b),
    ensures
        order::right_of(history::whole(h).nodes, v, a),
{
    let nodes = history::whole(h).nodes;
    history_laws::lemma_track(h, h.len() as int);
    let p = order::path(nodes, a);
    let q = order::path(nodes, v);
    assert(-1 <= nodes[v].parent < v);
    if b >= 0 && order::right_of(nodes, b, a) {
        let r = order::path(nodes, b);
        assert(q == r.push(v));
        assert(q.take(p.len() as int) =~= r.take(p.len() as int));
    } else {
        assert(q == p.push(v));
        assert(q.take(p.len() as int) =~= p);
    }
}

/// What is next behind an item for one who knows of one item more, right behind that one.
proof fn lemma_next_more(h: Hist, s: Set<int>, a: int, b: int, v: int)
    requires
        history::playable(h),
        history_laws::before(s, h.len() as int),
        0 <= v < h.len(),
        h.ops[v] is Ins,
        -1 <= a,
        a >= 0 ==> s.contains(a),
        convergence::is_next(h, history::whole(h).nodes, s, a, b),
        ({
            let nodes = history::whole(h).nodes;
            &&& a >= 0 ==> order::less(nodes, a, v)
            &&& b >= 0 ==> order::less(nodes, v, b)
        }),
    ensures
        convergence::is_next(h, history::whole(h).nodes, s.insert(v), a, v),
        convergence::is_next(h, history::whole(h).nodes, s.insert(v), v, b),
{
    let nodes = history::whole(h).nodes;
    let more = s.insert(v);
    history_laws::lemma_track(h, h.len() as int);
    assert forall|c: int| #[trigger]
        more.contains(c) && h.ops[c] is Ins && (a < 0 || order::less(nodes, a, c)) implies c == v
        || order::less(nodes, v, c) by {
        if c != v {
            assert(s.contains(c));
            if c != b {
                order::lemma_trans(nodes, v, b, c);
            }
        }
    }
    assert forall|c: int| #[trigger]
        more.contains(c) && h.ops[c] is Ins && order::less(nodes, v, c) implies b >= 0 && (c == b
        || order::less(nodes, b, c)) by {
        order::lemma_total(nodes, v, v);
        assert(c != v);
        assert(s.contains(c));
        if a >= 0 {
            order::lemma_trans(nodes, a, v, c);
        }
    }
}

/// Where one of two characters comes first in the tree, it does in the sequence.
proof fn lemma_placed(h: Hist, x: int, y: int)
    requires
        history::playable(h),
        0 <= x < h.len(),
        0 <= y < h.len(),
        h.ops[x] is Ins,
        h.ops[y] is Ins,
        order::less(history::whole(h).nodes, x, y),
    ensures
        ({
            let t = history::whole(h);
            history::place_of(t.items, x) < history::place_of(t.items, y)
        }),
{
    let t = history::whole(h);
    history_laws::lemma_track(h, h.len() as int);
    order::lemma_total(t.nodes, x, y);
    assert(history_laws::has_item(t, x));
    assert(history_laws::has_item(t, y));
    let a = history::place_of(t.items, x);
    let b = history::place_of(t.items, y);
    assert(t.items[a] == x);
    assert(t.items[b] == y);
    if b < a {
        assert(order::less(t.nodes, t.items[b], t.items[a]));
    }
}

/// What an event made, and what its author saw around its place.
proof fn lemma_one(h: Hist, s: Set<int>, pos: int, v: int) -> (b: int)
    requires
        history::playable(h),
        typed(h, s, pos, seq![v]),
    ensures
        ({
            let t = history::whole(h);
            let d = history::shown(t, s);
            let a = convergence::item_before(d, pos);
            &&& 0 <= pos <= d.len()
            &&& 0 <= v < h.len()
            &&& h.ops[v] is Ins
            &&& !s.contains(v)
            &&& h.seen_by(v) == s
            &&& history_laws::closed(h, s)
            &&& history_laws::closed(h, s.insert(v))
            &&& history_laws::before(s, v)
            &&& convergence::made_between(h, t.nodes, v, a, b)
            &&& history::shown(t, s.insert(v)) == d.insert(pos, v)
            &&& history::rank(t, s, history::place_of(t.items, v)) == pos
            &&& a >= 0 ==> s.contains(a)
            &&& -1 <= a < h.len()
        }),
{
    let t = history::whole(h);
    let d = history::shown(t, s);
    let run = seq![v];
    assert(run[0] == v);
    assert(run.take(0).to_set() =~= Set::<int>::empty());
    assert(s.union(run.take(0).to_set()) =~= s);
    lemma_typed_composed(h, s, pos, run, 1);
    lemma_typed(h, s, pos, run, 0);
    assert(s.union(run.take(1).to_set()) == s.insert(v));
    convergence::lemma_made(h, v);
    history_laws::law_unmoved(h, v);
    lemma_shown_more(h, s, v);
    let a = convergence::item_before(d, pos);
    let b = choose|b: int| convergence::made_between(h, t.nodes, v, a, b);
    if pos > 0 {
        let i = history::lemma_kept_source(
            t.items,
            history::shows(t, s),
            t.items.len() as int,
            pos - 1,
        );
        history_laws::lemma_track(h, h.len() as int);
        assert(d[pos - 1] == t.items[i]);
        assert(history::shows(t, s)(t.items[i]));
    }
    b
}

/// What was typed behind one character before different ones: the text that was typed before
/// the further one comes first.
///
/// Before a character `b` two authors type `a` and `x` without knowledge of each other. Of
/// those who then type behind `a`, one knows of no `x`, and so types before `b`; the other
/// types before `x`.
#[verifier::rlimit(80)]
pub proof fn law_further_first(
    h: Hist,
    s: Set<int>,
    pos: int,
    b: int,
    a: int,
    x: int,
    w: int,
    u: int,
)
    requires
        history::playable(h),
        typed(h, s, pos, seq![b]),
        typed(h, s.insert(b), pos, seq![a]),
        typed(h, s.insert(b), pos, seq![x]),
        smart_string::text_less(h.ids[a].0, h.ids[x].0),
        typed(h, s.insert(b).insert(a), pos + 1, seq![w]),
        typed(h, s.insert(b).insert(a).insert(x), pos + 1, seq![u]),
    ensures
        ({
            let doc = history::document(h, s);
            let all = s.insert(b).insert(a).insert(x).insert(w).insert(u);
            history::document(h, all) == doc.take(pos) + what(h, seq![a, w, u, x, b]) + doc.skip(
                pos,
            )
        }),
{
    let t = history::whole(h);
    let nodes = t.nodes;
    let n = h.len() as int;
    history_laws::lemma_track(h, n);
    let d = history::shown(t, s);
    let sb = s.insert(b);
    let sa = sb.insert(a);
    let sx = sa.insert(x);
    let b0 = lemma_one(h, s, pos, b);
    let left = convergence::item_before(d, pos);
    let ba = lemma_one(h, sb, pos, a);
    let bx = lemma_one(h, sb, pos, x);
    let db = d.insert(pos, b);
    assert(convergence::item_before(db, pos) == left);
    lemma_between(h, b, left, b0);
    lemma_next_more(h, s, left, b0, b);
    convergence::lemma_next_unique(h, nodes, sb, left, b, ba);
    convergence::lemma_next_unique(h, nodes, sb, left, b, bx);
    if left >= 0 {
        lemma_on_right(h, b, left, b0);
    }
    assert(nodes[a].parent == b && !nodes[a].rightward && nodes[a].right == b);
    assert(nodes[x].parent == b && !nodes[x].rightward && nodes[x].right == b);
    assert(nodes[a].id == h.ids[a] && nodes[x].id == h.ids[x]);
    order::lemma_id_less(h.ids[a], h.ids[x], h.ids[a]);
    assert(a != x);
    // Both stand before `b`, and `a` before `x`.
    lemma_between(h, a, left, b);
    lemma_between(h, x, left, b);
    let pb = order::path(nodes, b);
    let pa = order::path(nodes, a);
    let px = order::path(nodes, x);
    let k = pb.len() as int;
    assert(pa == pb.push(a));
    assert(px == pb.push(x));
    order::lemma_common_is(pa, px, k);
    order::lemma_part(nodes, a, x);
    assert(order::less(nodes, a, x));
    // `w` is typed behind `a`, before `b`.
    let bw = lemma_one(h, sa, pos + 1, w);
    let da = db.insert(pos, a);
    assert(da[pos] == a);
    assert(convergence::item_before(da, pos + 1) == a);
    lemma_next_more(h, sb, left, b, a);
    convergence::lemma_next_unique(h, nodes, sa, a, b, bw);
    assert(!order::right_of(nodes, b, a));
    assert(nodes[w].parent == a && nodes[w].rightward && nodes[w].right == b);
    // `x` is shown behind `a`.
    assert(!sa.contains(x)) by {
        assert(!sb.contains(x));
    }
    lemma_placed(h, a, x);
    lemma_shown_more(h, sb, a);
    assert(history::rank(t, sa, history::place_of(t.items, x)) == pos + 1) by {
        lemma_shown_more(h, sb, x);
        let at = history::place_of(t.items, x);
        assert(history::rank(t, sb.insert(a), at) == history::rank(t, sb, at) + 1);
    }
    lemma_shown_more(h, sa, x);
    let dx = da.insert(pos + 1, x);
    assert(history::shown(t, sx) == dx);
    // `u` is typed behind `a`, before `x`.
    let bu = lemma_one(h, sx, pos + 1, u);
    assert(dx[pos] == a);
    assert(convergence::item_before(dx, pos + 1) == a);
    lemma_next_more(h, sa, a, b, x);
    convergence::lemma_next_unique(h, nodes, sx, a, x, bu);
    assert(!order::right_of(nodes, x, a)) by {
        assert(pa.len() == px.len());
    }
    assert(nodes[u].parent == a && nodes[u].rightward && nodes[u].right == x);
    // `w` stands before `x` and before `u`.
    let pw = order::path(nodes, w);
    let pu = order::path(nodes, u);
    assert(pw == pa.push(w));
    assert(pu == pa.push(u));
    assert(!sx.contains(w)) by {
        if w == x {
            assert(nodes[w].parent != nodes[x].parent);
        }
    }
    order::lemma_common_is(pw, px, k);
    order::lemma_part(nodes, w, x);
    assert(order::less(nodes, w, x));
    assert(w != u) by {
        assert(nodes[w].right != nodes[u].right);
    }
    order::lemma_common_is(pw, pu, k + 1);
    order::lemma_part(nodes, w, u);
    assert(order::less(nodes, x, b));
    assert(order::less(nodes, w, u));
    lemma_placed(h, w, u);
    lemma_placed(h, w, x);
    let pw_at = history::place_of(t.items, w);
    assert(history::rank(t, sx, pw_at) == pos + 1) by {
        lemma_rank_before(h, sa, x, pw_at);
    }
    lemma_shown_more(h, sx, w);
    let sw = sx.insert(w);
    let dw = dx.insert(pos + 1, w);
    assert(history::shown(t, sw) == dw);
    let pu_at = history::place_of(t.items, u);
    assert(history_laws::has_item(t, u));
    assert(t.items[pu_at] == u);
    assert(history::rank(t, sw, pu_at) == history::rank(t, sx, pu_at) + 1);
    assert(!sw.contains(u));
    assert(history_laws::closed(h, sw)) by {
        lemma_union_closed(h, sx, sa.insert(w));
        assert(sx.union(sa.insert(w)) =~= sw);
    }
    lemma_shown_more(h, sw, u);
    let all = sw.insert(u);
    let du = dw.insert(pos + 2, u);
    assert(history::shown(t, all) == du);
    assert(du =~= d.take(pos) + seq![a, w, u, x, b] + d.skip(pos));
    let f = |v: int| h.char_of(v);
    let doc = history::document(h, s);
    assert(du.map_values(f) =~= doc.take(pos) + what(h, seq![a, w, u, x, b]) + doc.skip(pos));
}

/// At the end of a document, with no delete in it, there is nothing behind the place.
proof fn lemma_at_end(h: Hist, s: Set<int>, v: int, b: int)
    requires
        history::playable(h),
        typed(h, s, history::document(h, s).len() as int, seq![v]),
        forall|d: int| #[trigger] s.contains(d) ==> h.ops[d] is Ins,
        ({
            let t = history::whole(h);
            let d = history::shown(t, s);
            convergence::is_next(
                h,
                t.nodes,
                s,
                convergence::item_before(d, d.len() as int),
                b,
            )
        }),
    ensures
        b == -1,
{
    let t = history::whole(h);
    let n = h.len() as int;
    let d = history::shown(t, s);
    history_laws::lemma_track(h, n);
    if b >= 0 {
        let c = lemma_one(h, s, d.len() as int, v);
        assert(s.contains(b) && 0 <= b < n);
        assert(history_laws::has_item(t, b));
        assert(!history::gone(t, s, b)) by {
            if history::gone(t, s, b) {
                let e = choose|e: int|
                    0 <= e < t.target.len() && s.contains(e) && #[trigger] t.target[e] == b;
                assert(h.ops[e] is Ins);
                assert(t.target[e] == -1);
            }
        }
        let i = history::place_of(t.items, b);
        assert(t.items[i] == b);
        assert(history::shows(t, s)(t.items[i]));
        history::lemma_kept_at(t.items, history::shows(t, s), i);
        let last = d[d.len() - 1];
        let j = history::lemma_kept_source(
            t.items,
            history::shows(t, s),
            t.items.len() as int,
            d.len() - 1,
        );
        assert(convergence::item_before(d, d.len() as int) == last);
        assert(t.items[j] == last);
        assert(0 <= last < n);
        order::lemma_total(t.nodes, last, b);
        if i < j {
            assert(order::less(t.nodes, t.items[i], t.items[j]));
        } else if j < i {
            lemma_rank_order(t, s, j + 1, i);
            assert(history::rank(t, s, j + 1) == d.len());
        }
    }
}

/// What was typed behind one character, at the end of the document and before another
/// character: the text that was typed at the end comes first.
///
/// At the end of a document two authors type `a` and `x` without knowledge of each other. Of
/// those who then type behind `a`, one knows of no `x`, and so types at the end; the other
/// types before `x`.
#[verifier::rlimit(80)]
pub proof fn law_end_first(h: Hist, s: Set<int>, a: int, x: int, w: int, u: int)
    requires
        history::playable(h),
        forall|d: int| #[trigger] s.contains(d) ==> h.ops[d] is Ins,
        ({
            let pos = history::document(h, s).len() as int;
            &&& typed(h, s, pos, seq![a])
            &&& typed(h, s, pos, seq![x])
            &&& typed(h, s.insert(a), pos + 1, seq![w])
            &&& typed(h, s.insert(a).insert(x), pos + 1, seq![u])
        }),
        smart_string::text_less(h.ids[a].0, h.ids[x].0),
    ensures
        history::document(h, s.insert(a).insert(x).insert(w).insert(u)) == history::document(h, s)
            + what(h, seq![a, w, u, x]),
{
    let t = history::whole(h);
    let nodes = t.nodes;
    let n = h.len() as int;
    history_laws::lemma_track(h, n);
    let d = history::shown(t, s);
    let pos = d.len() as int;
    let sa = s.insert(a);
    let sx = sa.insert(x);
    let ba = lemma_one(h, s, pos, a);
    let bx = lemma_one(h, s, pos, x);
    let left = convergence::item_before(d, pos);
    lemma_at_end(h, s, a, ba);
    lemma_at_end(h, s, x, bx);
    assert(nodes[a].parent == left && nodes[a].rightward && nodes[a].right == -1);
    assert(nodes[x].parent == left && nodes[x].rightward && nodes[x].right == -1);
    assert(nodes[a].id == h.ids[a] && nodes[x].id == h.ids[x]);
    order::lemma_id_less(h.ids[a], h.ids[x], h.ids[a]);
    assert(a != x);
    lemma_between(h, a, left, -1);
    lemma_between(h, x, left, -1);
    let pl = order::path(nodes, left);
    let pa = order::path(nodes, a);
    let px = order::path(nodes, x);
    let k = pl.len() as int;
    assert(pa == pl.push(a));
    assert(px == pl.push(x));
    order::lemma_common_is(pa, px, k);
    order::lemma_part(nodes, a, x);
    assert(order::less(nodes, a, x));
    // `w` is typed behind `a`, at the end.
    let bw = lemma_one(h, sa, pos + 1, w);
    let da = d.insert(pos, a);
    assert(da[pos] == a);
    assert(convergence::item_before(da, pos + 1) == a);
    lemma_next_more(h, s, left, -1, a);
    convergence::lemma_next_unique(h, nodes, sa, a, -1, bw);
    assert(nodes[w].parent == a && nodes[w].rightward && nodes[w].right == -1);
    // `x` is shown behind `a`.
    lemma_placed(h, a, x);
    lemma_shown_more(h, s, a);
    let at_x = history::place_of(t.items, x);
    assert(history::rank(t, sa, at_x) == pos + 1) by {
        lemma_shown_more(h, s, x);
        assert(history::rank(t, s.insert(a), at_x) == history::rank(t, s, at_x) + 1);
    }
    lemma_shown_more(h, sa, x);
    let dx = da.insert(pos + 1, x);
    assert(history::shown(t, sx) == dx);
    // `u` is typed behind `a`, before `x`.
    let bu = lemma_one(h, sx, pos + 1, u);
    assert(dx[pos] == a);
    assert(convergence::item_before(dx, pos + 1) == a);
    lemma_next_more(h, sa, a, -1, x);
    convergence::lemma_next_unique(h, nodes, sx, a, x, bu);
    assert(!order::right_of(nodes, x, a)) by {
        assert(pa.len() == px.len());
    }
    assert(nodes[u].parent == a && nodes[u].rightward && nodes[u].right == x);
    // `w` stands before `x` and before `u`.
    let pw = order::path(nodes, w);
    let pu = order::path(nodes, u);
    assert(pw == pa.push(w));
    assert(pu == pa.push(u));
    assert(!sx.contains(w)) by {
        if w == x {
            assert(pw.len() != px.len());
        }
    }
    order::lemma_common_is(pw, px, k);
    order::lemma_part(nodes, w, x);
    assert(order::less(nodes, w, x));
    assert(w != u) by {
        assert(nodes[w].right != nodes[u].right);
    }
    order::lemma_common_is(pw, pu, k + 1);
    order::lemma_part(nodes, w, u);
    assert(order::less(nodes, w, u));
    lemma_placed(h, w, u);
    lemma_placed(h, w, x);
    let at_w = history::place_of(t.items, w);
    assert(history::rank(t, sx, at_w) == pos + 1) by {
        lemma_rank_before(h, sa, x, at_w);
    }
    lemma_shown_more(h, sx, w);
    let sw = sx.insert(w);
    let dw = dx.insert(pos + 1, w);
    assert(history::shown(t, sw) == dw);
    let at_u = history::place_of(t.items, u);
    assert(history_laws::has_item(t, u));
    assert(t.items[at_u] == u);
    assert(history::rank(t, sw, at_u) == history::rank(t, sx, at_u) + 1);
    assert(history_laws::closed(h, sw)) by {
        lemma_union_closed(h, sx, sa.insert(w));
        assert(sx.union(sa.insert(w)) =~= sw);
    }
    lemma_shown_more(h, sw, u);
    let all = sw.insert(u);
    let du = dw.insert(pos + 2, u);
    assert(history::shown(t, all) == du);
    assert(du =~= d + seq![a, w, u, x]);
    let f = |v: int| h.char_of(v);
    assert(du.map_values(f) =~= history::document(h, s) + what(h, seq![a, w, u, x]));
}

/// An item more leaves what stands before it where it is.
proof fn lemma_rank_before(h: Hist, s: Set<int>, v: int, k: int)
    requires
        history::playable(h),
        history_laws::closed(h, s),
        0 <= v < h.len(),
        !s.contains(v),
        h.ops[v] is Ins,
        0 <= k <= history::place_of(history::whole(h).items, v),
    ensures
        history::rank(history::whole(h), s.insert(v), k) == history::rank(
            history::whole(h),
            s,
            k,
        ),
{
    let n = h.len() as int;
    let t = history::whole(h);
    history_laws::lemma_track(h, n);
    assert(history_laws::has_item(t, v));
    let i = history::place_of(t.items, v);
    assert(t.items[i] == v);
    assert forall|j: int| 0 <= j < k implies history::shows(t, s.insert(v))(#[trigger] t.items[j])
        == history::shows(t, s)(t.items[j]) by {
        history_laws::lemma_place_of(h, t, n, j);
        history_laws::lemma_gone_more(h, t, s, v, t.items[j]);
    }
    history::lemma_kept_same(t.items, history::shows(t, s.insert(v)), history::shows(t, s), k);
}

// ---- edits of one document ----

/// Whether two events edit one document, neither with knowledge of the other.
pub open spec fn side_by_side(h: Hist, s: Set<int>, u: int, w: int) -> bool {
    &&& 0 <= u < h.len()
    &&& 0 <= w < h.len()
    &&& u != w
    &&& h.seen_by(u) == s
    &&& h.seen_by(w) == s
}

pub proof fn lemma_alone(h: Hist, s: Set<int>, v: int)
    requires
        history::playable(h),
        0 <= v < h.len(),
        h.seen_by(v) == s,
    ensures
        !s.contains(v),
        history_laws::closed(h, s),
        history_laws::closed(h, s.insert(v)),
        history_laws::moved(h, s, v) == Some(h.ops[v]),
        operation::fits(history::document(h, s), h.ops[v]),
        history::document(h, s.insert(v)) == operation::after(
            history::document(h, s),
            h.ops[v],
        ),
{
    convergence::lemma_seen_before(h, v);
    lemma_seen_closed(h, v);
    history_laws::law_unmoved(h, v);
    history_laws::law_moved(h, s, v);
    let y = s.insert(v);
    assert forall|b: int, a: int|
        #![trigger y.contains(b), graph::reaches(h.parents, b, a)]
        y.contains(b) && graph::reaches(h.parents, b, a) implies y.contains(a) by {
        if b == v {
            graph::lemma_parents_cone(h.parents, b, a);
        } else {
            assert(s.contains(b));
        }
    }
}

/// As many items are shown before a place as before any earlier one, or more.
proof fn lemma_rank_order(t: Track, s: Set<int>, j: int, k: int)
    requires
        0 <= j <= k <= t.items.len(),
    ensures
        history::rank(t, s, j) <= history::rank(t, s, k),
        j < k && history::shows(t, s)(t.items[j]) ==> history::rank(t, s, j) < history::rank(
            t,
            s,
            k,
        ),
{
    history::lemma_kept_prefix(t.items, history::shows(t, s), j, k);
    if j < k {
        history::lemma_kept_prefix(t.items, history::shows(t, s), j + 1, k);
    }
}

/// What a delete takes away, and where it stands.
proof fn lemma_deleted(h: Hist, s: Set<int>, w: int) -> (x: int)
    requires
        history::playable(h),
        0 <= w < h.len(),
        h.seen_by(w) == s,
        h.ops[w] is Del,
    ensures
        ({
            let t = history::whole(h);
            let i = history::place_of(t.items, x);
            &&& x == t.target[w]
            &&& 0 <= x < h.len()
            &&& 0 <= i < t.items.len()
            &&& t.items[i] == x
            &&& history::shows(t, s)(x)
            &&& h.ops[w] == (EvOp::Del { pos: history::rank(t, s, i) })
            &&& forall|k: int|
                0 <= k <= t.items.len() ==> #[trigger] history::rank(t, s.insert(w), k)
                    == history::rank(t, s, k) - if i < k {
                    1int
                } else {
                    0int
                }
            &&& forall|y: int| #[trigger]
                history::gone(t, s.insert(w), y) == (history::gone(t, s, y) || y == x)
        }),
{
    let n = h.len() as int;
    let t = history::whole(h);
    let more = s.insert(w);
    history_laws::lemma_track(h, n);
    convergence::lemma_made(h, w);
    let d = history::shown(t, s);
    let pos = match h.ops[w] {
        EvOp::Del { pos } => pos,
        EvOp::Ins { .. } => 0,
    };
    let x = t.target[w];
    let i = history::lemma_kept_source(
        t.items,
        history::shows(t, s),
        t.items.len() as int,
        pos,
    );
    assert(t.items[i] == x);
    history_laws::lemma_place_of(h, t, n, i);
    let p = history::shows(t, more);
    let q = history::shows(t, s);
    assert forall|y: int| #[trigger]
        history::gone(t, more, y) == (history::gone(t, s, y) || y == x) by {
        if history::gone(t, more, y) && y != x {
            let e = choose|e: int|
                0 <= e < t.target.len() && more.contains(e) && #[trigger] t.target[e] == y;
            assert(s.contains(e));
        }
        if history::gone(t, s, y) {
            let e = choose|e: int|
                0 <= e < t.target.len() && s.contains(e) && #[trigger] t.target[e] == y;
            assert(more.contains(e));
        }
        if y == x {
            assert(more.contains(w) && t.target[w] == x);
        }
    }
    assert forall|j: int| 0 <= j < t.items.len() && j != i implies p(#[trigger] t.items[j]) == q(
        t.items[j],
    ) by {
        let y = t.items[j];
        assert(h.ops[y] is Ins);
        assert(y != w);
        if j < i {
            assert(t.items[j] != t.items[i]);
        } else {
            assert(t.items[i] != t.items[j]);
        }
    }
    assert forall|k: int| 0 <= k <= t.items.len() implies #[trigger] history::rank(t, more, k)
        == history::rank(t, s, k) - if i < k {
        1int
    } else {
        0int
    } by {
        history::lemma_kept_more(t.items, p, q, i, k);
    }
    x
}

/// Two characters typed at different places of one document stand there both.
pub proof fn law_two_inserts(h: Hist, s: Set<int>, u: int, w: int, p: int, q: int)
    requires
        history::playable(h),
        side_by_side(h, s, u, w),
        h.ops[u] == (EvOp::Ins { pos: p, ch: h.char_of(u) }),
        h.ops[w] == (EvOp::Ins { pos: q, ch: h.char_of(w) }),
        p < q,
    ensures
        ({
            let doc = history::document(h, s);
            history::document(h, s.insert(u).insert(w)) == doc.take(p) + seq![h.char_of(u)]
                + doc.subrange(p, q) + seq![h.char_of(w)] + doc.skip(q)
        }),
{
    let t = history::whole(h);
    let n = h.len() as int;
    history_laws::lemma_track(h, n);
    lemma_alone(h, s, u);
    lemma_alone(h, s, w);
    lemma_shown_more(h, s, u);
    lemma_shown_more(h, s, w);
    let a = history::place_of(t.items, u);
    let b = history::place_of(t.items, w);
    if b <= a {
        lemma_rank_order(t, s, b, a);
    }
    history_laws::law_moved(h, s.insert(u), w);
    assert(history::rank(t, s.insert(u), b) == q + 1);
    let doc = history::document(h, s);
    assert(history::document(h, s.insert(u).insert(w)) =~= doc.take(p) + seq![h.char_of(u)]
        + doc.subrange(p, q) + seq![h.char_of(w)] + doc.skip(q));
}

/// A character typed into a document, and another deleted from it: both happen where they
/// were meant. What is typed right before the one that is deleted stays in its place.
pub proof fn law_insert_and_delete(h: Hist, s: Set<int>, u: int, w: int, p: int, q: int)
    requires
        history::playable(h),
        side_by_side(h, s, u, w),
        h.ops[u] == (EvOp::Ins { pos: p, ch: h.char_of(u) }),
        h.ops[w] == (EvOp::Del { pos: q }),
    ensures
        ({
            let doc = history::document(h, s);
            let both = history::document(h, s.insert(u).insert(w));
            &&& p <= q ==> both == doc.take(p) + seq![h.char_of(u)] + doc.subrange(p, q)
                + doc.skip(q + 1)
            &&& p > q ==> both == doc.take(q) + doc.subrange(q + 1, p) + seq![h.char_of(u)]
                + doc.skip(p)
        }),
{
    let t = history::whole(h);
    let n = h.len() as int;
    history_laws::lemma_track(h, n);
    lemma_alone(h, s, u);
    lemma_alone(h, s, w);
    lemma_shown_more(h, s, u);
    let x = lemma_deleted(h, s, w);
    let a = history::place_of(t.items, u);
    let b = history::place_of(t.items, x);
    assert(t.items[a] == u);
    if b < a {
        lemma_rank_order(t, s, b, a);
    } else {
        lemma_rank_order(t, s, a, b);
    }
    assert(a != b) by {
        assert(s.contains(x));
    }
    history_laws::law_moved(h, s.insert(w), u);
    assert(s.insert(w).insert(u) =~= s.insert(u).insert(w));
    let doc = history::document(h, s);
    let both = history::document(h, s.insert(u).insert(w));
    if p <= q {
        assert(both =~= doc.take(p) + seq![h.char_of(u)] + doc.subrange(p, q) + doc.skip(q + 1));
    } else {
        assert(both =~= doc.take(q) + doc.subrange(q + 1, p) + seq![h.char_of(u)] + doc.skip(p));
    }
}

/// Two deletes in one document: both characters are gone, and nothing else is where it is
/// one character that both delete.
pub proof fn law_two_deletes(h: Hist, s: Set<int>, u: int, w: int, p: int, q: int)
    requires
        history::playable(h),
        side_by_side(h, s, u, w),
        h.ops[u] == (EvOp::Del { pos: p }),
        h.ops[w] == (EvOp::Del { pos: q }),
        p <= q,
    ensures
        ({
            let doc = history::document(h, s);
            let both = history::document(h, s.insert(u).insert(w));
            &&& p == q ==> both == doc.take(p) + doc.skip(p + 1)
            &&& p < q ==> both == doc.take(p) + doc.subrange(p + 1, q) + doc.skip(q + 1)
        }),
{
    let t = history::whole(h);
    let n = h.len() as int;
    history_laws::lemma_track(h, n);
    lemma_alone(h, s, u);
    lemma_alone(h, s, w);
    let x = lemma_deleted(h, s, u);
    let y = lemma_deleted(h, s, w);
    let a = history::place_of(t.items, x);
    let b = history::place_of(t.items, y);
    if a < b {
        lemma_rank_order(t, s, a, b);
    } else if b < a {
        lemma_rank_order(t, s, b, a);
    }
    history_laws::law_moved(h, s.insert(u), w);
    let doc = history::document(h, s);
    let both = history::document(h, s.insert(u).insert(w));
    if p == q {
        assert(both =~= doc.take(p) + doc.skip(p + 1));
    } else {
        assert(both =~= doc.take(p) + doc.subrange(p + 1, q) + doc.skip(q + 1));
    }
}

// ---- conflicts ----

/// Two characters typed at one place, neither with knowledge of the other, are a conflict;
/// the one that is learnt of later finds the other there.
pub proof fn law_conflict(h: Hist, s: Set<int>, pos: int, u: int, w: int)
    requires
        history::playable(h),
        typed(h, s, pos, seq![u]),
        typed(h, s, pos, seq![w]),
        u < w,
    ensures
        history::collides(h, w),
{
    let n = h.len() as int;
    let all = history::whole(h);
    let b = lemma_one(h, s, pos, u);
    let c = lemma_one(h, s, pos, w);
    let a = convergence::item_before(history::shown(all, s), pos);
    lemma_between(h, u, a, b);
    let t = history::track(h, w);
    history_laws::lemma_track(h, n);
    assert(history::playable_to(h, w)) by {
        assert forall|v: int| 0 <= v < w implies #[trigger] history::placed(h, v) by {}
    }
    history_laws::lemma_track(h, w);
    history_laws::lemma_stable(h, w, n, s);
    assert(history::placed(h, w));
    assert((seq![w])[0] == w);
    assert(h.ops[w] matches EvOp::Ins { pos: p, .. } && p == pos + 0);
    history_laws::lemma_gap(t, s, pos);
    let from = history::gap_start(t, s, pos);
    let end = history::gap_end(t, s, pos);
    if from == end {
        assert(history_laws::has_item(t, u));
        let i = choose|i: int| 0 <= i < t.items.len() && #[trigger] t.items[i] == u;
        assert forall|x: int| 0 <= x < w implies #[trigger] t.nodes[x] == all.nodes[x] by {
            convergence::lemma_nodes_prefix(h, w, n, x);
        }
        if i < from {
            assert(t.items[from - 1] == a);
            order::lemma_less_prefix(t.nodes, all.nodes, a, u);
            order::lemma_total(t.nodes, a, u);
            if i < from - 1 {
                assert(order::less(t.nodes, t.items[i], t.items[from - 1]));
            }
        } else {
            let y = t.items[end];
            assert(s.contains(y));
            if end == i {
                assert(s.contains(u));
            } else {
                assert(order::less(t.nodes, t.items[end], t.items[i]));
                order::lemma_less_prefix(t.nodes, all.nodes, y, u);
                order::lemma_total(all.nodes, y, u);
                assert(h.ops[y] is Ins);
                if a >= 0 {
                    assert(t.items[from - 1] == a);
                    assert(order::less(t.nodes, t.items[from - 1], t.items[end]));
                    order::lemma_less_prefix(t.nodes, all.nodes, a, y);
                }
                // What its author saw behind the place stands behind it.
                assert(convergence::is_next(h, all.nodes, s, a, b));
                assert(b >= 0 && (y == b || order::less(all.nodes, b, y)));
                if y != b {
                    order::lemma_trans(all.nodes, u, b, y);
                }
                assert(order::less(all.nodes, u, y));
            }
        }
    }
}

/// Where there is a conflict, the author did not know of an insert that was learnt of before.
pub proof fn law_no_conflict(h: Hist, v: int)
    requires
        history::playable(h),
        0 <= v < h.len(),
        history::collides(h, v),
    ensures
        h.ops[v] is Ins,
        exists|u: int|
            0 <= u < v && #[trigger] h.ops[u] is Ins && !h.seen_by(v).contains(u),
{
    let t = history::track(h, v);
    let s = h.seen_by(v);
    assert(history::playable_to(h, v)) by {
        assert forall|x: int| 0 <= x < v implies #[trigger] history::placed(h, x) by {}
    }
    history_laws::lemma_track(h, v);
    assert(history::placed(h, v));
    let pos = match h.ops[v] {
        EvOp::Ins { pos, .. } => pos,
        EvOp::Del { .. } => 0,
    };
    history_laws::lemma_gap(t, s, pos);
    let u = t.items[history::gap_start(t, s, pos)];
    assert(!s.contains(u));
    assert(h.ops[u] is Ins);
}

} // verus!
