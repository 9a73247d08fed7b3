//! Peers that know the same events show the same document, in whatever order they
//! learnt of them, and whatever else one of them knows.

use crate::graph;
use crate::history;
use crate::history::{Hist, Track};
use crate::history_laws;
use crate::operation::EvOp;
use crate::order;
use crate::order::Nodes;
use vstd::prelude::*;

verus! {

/// The place of an event of one history in another; -1 stays -1.
pub open spec fn sent(f: Seq<int>, x: int) -> int {
    if x < 0 {
        -1
    } else {
        f[x]
    }
}

/// The places of events of one history in another.
pub open spec fn image(f: Seq<int>, s: Set<int>) -> Set<int> {
    Set::new(|x: int| exists|v: int| 0 <= v < f.len() && s.contains(v) && #[trigger] f[v] == x)
}

/// Whether the events of `a` are, each one at the place that `f` gives, events of
/// `b`: with the same author, doing the same, and following the same events.
pub open spec fn embeds(a: Hist, b: Hist, f: Seq<int>) -> bool {
    &&& f.len() == a.len()
    &&& forall|v: int|
        0 <= v < a.len() ==> {
            &&& 0 <= #[trigger] f[v] < b.len()
            &&& b.ops[f[v]] == a.ops[v]
            &&& b.ids[f[v]] == a.ids[v]
        }
    &&& forall|v: int, i: int|
        #![trigger a.parents[v][i]]
        0 <= v < a.len() && 0 <= i < a.parents[v].len() ==> b.parents[f[v]].contains(
            f[a.parents[v][i] as int] as usize,
        ) && f[a.parents[v][i] as int] <= usize::MAX
    &&& forall|v: int, j: int|
        #![trigger b.parents[f[v]][j]]
        0 <= v < a.len() && 0 <= j < b.parents[f[v]].len() ==> follows(
            a,
            f,
            v,
            b.parents[f[v]][j],
        )
}

/// Whether event `v` of `a` follows the event that stands at `p` in the other history.
pub open spec fn follows(a: Hist, f: Seq<int>, v: int, p: usize) -> bool {
    exists|i: int| 0 <= i < a.parents[v].len() && f[#[trigger] a.parents[v][i] as int] == p
}

proof fn lemma_injective(a: Hist, b: Hist, f: Seq<int>, v: int, w: int)
    requires
        a.valid(),
        embeds(a, b, f),
        0 <= v < a.len(),
        0 <= w < a.len(),
        f[v] == f[w],
    ensures
        v == w,
{
    assert(a.ids[v] == b.ids[f[v]]);
    assert(a.ids[w] == b.ids[f[w]]);
    if v < w {
        assert(a.ids[v] != a.ids[w]);
    } else if w < v {
        assert(a.ids[w] != a.ids[v]);
    }
}

// ---- ancestry ----

proof fn lemma_reaches_sent(a: Hist, b: Hist, f: Seq<int>, v: int, u: int)
    requires
        a.valid(),
        b.valid(),
        embeds(a, b, f),
        graph::reaches(a.parents, v, u),
    ensures
        graph::reaches(b.parents, f[v], f[u]),
    decreases v,
{
    graph::lemma_reaches_order(a.parents, v, u);
    assert(0 <= f[v] < b.len());
    if u != v {
        let i = choose|i: int|
            #![trigger a.parents[v][i]]
            0 <= i < a.parents[v].len() && a.parents[v][i] < v && graph::reaches(
                a.parents,
                a.parents[v][i] as int,
                u,
            );
        let p = a.parents[v][i] as int;
        lemma_reaches_sent(a, b, f, p, u);
        assert(0 <= f[p] < b.len());
        let j = b.parents[f[v]].index_of(f[p] as usize);
        assert(b.parents[f[v]][j] == f[p]);
        assert(b.parents[f[v]][j] < f[v]);
    }
}

proof fn lemma_reaches_source(a: Hist, b: Hist, f: Seq<int>, v: int, x: int) -> (u: int)
    requires
        a.valid(),
        b.valid(),
        embeds(a, b, f),
        0 <= v < a.len(),
        graph::reaches(b.parents, f[v], x),
    ensures
        graph::reaches(a.parents, v, u),
        f[u] == x,
    decreases v,
{
    if x == f[v] {
        v
    } else {
        let y = f[v];
        let j = choose|j: int|
            #![trigger b.parents[y][j]]
            0 <= j < b.parents[y].len() && b.parents[y][j] < y && graph::reaches(
                b.parents,
                b.parents[y][j] as int,
                x,
            );
        assert(b.parents[f[v]][j] < y);
        let i = choose|i: int|
            0 <= i < a.parents[v].len() && f[#[trigger] a.parents[v][i] as int]
                == b.parents[f[v]][j];
        let p = a.parents[v][i] as int;
        assert(p < v);
        lemma_reaches_source(a, b, f, p, x)
    }
}

/// What an event follows in one history it follows in the other.
pub proof fn lemma_seen(a: Hist, b: Hist, f: Seq<int>, v: int)
    requires
        a.valid(),
        b.valid(),
        embeds(a, b, f),
        0 <= v < a.len(),
    ensures
        b.seen_by(f[v]) == image(f, a.seen_by(v)),
{
    assert(0 <= f[v] < b.len());
    assert forall|x: int| #[trigger]
        b.seen_by(f[v]).contains(x) == image(f, a.seen_by(v)).contains(x) by {
        graph::lemma_parents_cone(b.parents, f[v], x);
        if b.seen_by(f[v]).contains(x) {
            let u = lemma_reaches_source(a, b, f, v, x);
            graph::lemma_parents_cone(a.parents, v, u);
            graph::lemma_reaches_order(a.parents, v, u);
            assert(a.seen_by(v).contains(u));
            assert(f[u] == x);
        }
        if image(f, a.seen_by(v)).contains(x) {
            let u = choose|u: int|
                0 <= u < f.len() && a.seen_by(v).contains(u) && #[trigger] f[u] == x;
            graph::lemma_parents_cone(a.parents, v, u);
            lemma_reaches_sent(a, b, f, v, u);
            if f[u] == f[v] {
                lemma_injective(a, b, f, u, v);
            }
        }
    }
    assert(b.seen_by(f[v]) =~= image(f, a.seen_by(v)));
}

/// A version of one history is the version of the other with the same newest
/// events.
pub proof fn law_version_sent(
    a: Hist,
    b: Hist,
    f: Seq<int>,
    front: Seq<usize>,
    other: Seq<usize>,
)
    requires
        a.valid(),
        b.valid(),
        embeds(a, b, f),
        graph::known(a.parents, front),
        other.len() == front.len(),
        forall|i: int| 0 <= i < front.len() ==> (#[trigger] other[i]) == f[front[i] as int],
    ensures
        b.version(other) == image(f, a.version(front)),
{
    assert forall|x: int| #[trigger]
        b.version(other).contains(x) == image(f, a.version(front)).contains(x) by {
        if b.version(other).contains(x) {
            let i = choose|i: int|
                0 <= i < other.len() && #[trigger] graph::reaches(b.parents, other[i] as int, x);
            assert(front[i] < a.len());
            assert(other[i] == f[front[i] as int]);
            let u = lemma_reaches_source(a, b, f, front[i] as int, x);
            graph::lemma_reaches_order(a.parents, front[i] as int, u);
            assert(a.version(front).contains(u));
            assert(f[u] == x);
        }
        if image(f, a.version(front)).contains(x) {
            let u = choose|u: int|
                0 <= u < f.len() && a.version(front).contains(u) && #[trigger] f[u] == x;
            let i = choose|i: int|
                0 <= i < front.len() && #[trigger] graph::reaches(a.parents, front[i] as int, u);
            lemma_reaches_sent(a, b, f, front[i] as int, u);
            assert(other[i] == f[front[i] as int]);
            assert(graph::reaches(b.parents, other[i] as int, x));
        }
    }
    assert(b.version(other) =~= image(f, a.version(front)));
}

// ---- the order of items ----

/// Whether what the events of one history make corresponds to what they make in
/// the other.
spec fn corresponds(t: Track, n: Track, f: Seq<int>, k: int) -> bool {
    forall|v: int|
        0 <= v < k ==> {
            let x = (#[trigger] t.nodes[v]);
            let y = n.nodes[f[v]];
            &&& y.parent == sent(f, x.parent)
            &&& y.right == sent(f, x.right)
            &&& y.rightward == x.rightward
            &&& y.id == x.id
            &&& n.target[f[v]] == sent(f, t.target[v])
        }
}

spec fn sent_all(f: Seq<int>, p: Seq<int>) -> Seq<int> {
    p.map_values(|x: int| f[x])
}

proof fn lemma_path_sent(t: Track, n: Track, f: Seq<int>, k: int, x: int)
    requires
        order::rooted(t.nodes),
        order::rooted(n.nodes),
        t.nodes.len() == k,
        k <= f.len(),
        forall|v: int| 0 <= v < k ==> 0 <= #[trigger] f[v] < n.nodes.len(),
        corresponds(t, n, f, k),
        -1 <= x < k,
    ensures
        order::path(n.nodes, sent(f, x)) == sent_all(f, order::path(t.nodes, x)),
    decreases x + 1,
{
    if x >= 0 {
        assert(0 <= f[x] < n.nodes.len());
        let up = t.nodes[x].parent;
        lemma_path_sent(t, n, f, k, up);
        assert(order::path(n.nodes, f[x]) =~= sent_all(f, order::path(t.nodes, x)));
    } else {
        assert(order::path(n.nodes, -1) =~= sent_all(f, order::path(t.nodes, -1)));
    }
}

/// Items stand in the same order in both histories.
#[verifier::rlimit(50)]
proof fn lemma_less_sent(t: Track, n: Track, f: Seq<int>, k: int, x: int, y: int)
    requires
        order::rooted(t.nodes),
        order::rooted(n.nodes),
        t.nodes.len() == k,
        k <= f.len(),
        forall|v: int| 0 <= v < k ==> 0 <= #[trigger] f[v] < n.nodes.len(),
        forall|v: int, w: int|
            0 <= v < k && 0 <= w < k && #[trigger] f[v] == #[trigger] f[w] ==> v == w,
        corresponds(t, n, f, k),
        0 <= x < k,
        0 <= y < k,
    ensures
        order::less(n.nodes, f[x], f[y]) == order::less(t.nodes, x, y),
        order::right_of(n.nodes, f[x], f[y]) == order::right_of(t.nodes, x, y),
    decreases (if x < y {
            y
        } else {
            x
        }),
{
    let p = order::path(t.nodes, x);
    let q = order::path(t.nodes, y);
    let d = order::common(p, q) as int;
    lemma_path_sent(t, n, f, k, x);
    lemma_path_sent(t, n, f, k, y);
    order::lemma_path(t.nodes, x);
    order::lemma_path(t.nodes, y);
    order::lemma_common(p, q);
    let p2 = sent_all(f, p);
    let q2 = sent_all(f, q);
    assert forall|i: int| 0 <= i < d implies p2[i] == q2[i] by {
        assert(p.take(d)[i] == q.take(d)[i]);
    }
    if d < p.len() && d < q.len() {
        assert(0 <= p[d] <= x && 0 <= q[d] <= y);
        if p2[d] == q2[d] {
            assert(f[p[d]] == f[q[d]]);
        }
    }
    order::lemma_common_is(p2, q2, d);
    order::lemma_part(t.nodes, x, y);
    order::lemma_part(n.nodes, f[x], f[y]);
    let u = order::turn(p, d);
    let w = order::turn(q, d);
    if u >= 0 {
        assert(0 <= p[d] <= x);
        assert(t.nodes[u].right < u);
        assert(n.nodes[f[u]].right == sent(f, t.nodes[u].right));
    }
    if w >= 0 {
        assert(0 <= q[d] <= y);
        assert(t.nodes[w].right < w);
        assert(n.nodes[f[w]].right == sent(f, t.nodes[w].right));
    }
    if u >= 0 && w >= 0 {
        let r1 = t.nodes[u].right;
        let r2 = t.nodes[w].right;
        if r1 >= 0 && r2 >= 0 {
            lemma_less_sent(t, n, f, k, r2, r1);
            if f[r1] == f[r2] {
                assert(r1 == r2);
            }
        }
        if r1 >= 0 {
            assert(0 <= f[r1] < n.nodes.len());
        }
        if r2 >= 0 {
            assert(0 <= f[r2] < n.nodes.len());
        }
    }
    // On whose right.
    let m = q.len() as int;
    if m < p.len() {
        if p2.take(m) == q2 {
            assert forall|i: int| 0 <= i < m implies p.take(m)[i] == q[i] by {
                assert(p2.take(m)[i] == q2[i]);
                assert(0 <= p[i] <= x && 0 <= q[i] <= y);
                assert(f[p[i]] == f[q[i]]);
            }
            assert(p.take(m) =~= q);
        }
        if p.take(m) == q {
            assert(p2.take(m) =~= q2) by {
                assert forall|i: int| 0 <= i < m implies p2.take(m)[i] == q2[i] by {
                    assert(p.take(m)[i] == q[i]);
                }
            }
        }
        assert(0 <= p[m] <= x);
        assert(n.nodes[f[p[m]]].rightward == t.nodes[p[m]].rightward);
    }
}

/// Two lists of the same nodes in order are the same.
proof fn lemma_same_order(nodes: Nodes, p: Seq<int>, q: Seq<int>)
    requires
        order::rooted(nodes),
        order::distinct(nodes),
        order::in_order(nodes, p),
        order::in_order(nodes, q),
        forall|x: int| #[trigger] p.contains(x) == q.contains(x),
    ensures
        p == q,
    decreases p.len(),
{
    if p.len() == 0 {
        if q.len() > 0 {
            assert(q.contains(q[0]));
            assert(p.contains(q[0]));
        }
        assert(p =~= q);
    } else {
        assert(p.contains(p[0]));
        assert(q.contains(p[0]));
        let j = q.index_of(p[0]);
        assert(p.contains(q[0])) by {
            assert(q.contains(q[0]));
        }
        let i = p.index_of(q[0]);
        if j > 0 {
            assert(order::less(nodes, q[0], q[j]));
            if i > 0 {
                assert(order::less(nodes, p[0], p[i]));
            }
            order::lemma_total(nodes, q[0], p[0]);
        }
        assert(p[0] == q[0]);
        let p1 = p.drop_first();
        let q1 = q.drop_first();
        lemma_tail_order(nodes, p);
        lemma_tail_order(nodes, q);
        assert forall|x: int| #[trigger] p1.contains(x) == q1.contains(x) by {
            lemma_tail_contains(nodes, p, x);
            lemma_tail_contains(nodes, q, x);
            assert(p.contains(x) == q.contains(x));
        }
        lemma_same_order(nodes, p1, q1);
        assert(p =~= seq![p[0]] + p1);
        assert(q =~= seq![q[0]] + q1);
    }
}

proof fn lemma_tail_order(nodes: Nodes, p: Seq<int>)
    requires
        order::in_order(nodes, p),
        p.len() > 0,
    ensures
        order::in_order(nodes, p.drop_first()),
{
    let p1 = p.drop_first();
    assert forall|i: int| 0 <= i < p1.len() implies 0 <= #[trigger] p1[i] < nodes.len() by {
        assert(p1[i] == p[i + 1]);
    }
    assert forall|i: int, j: int| 0 <= i < j < p1.len() implies order::less(
        nodes,
        #[trigger] p1[i],
        #[trigger] p1[j],
    ) by {
        assert(order::less(nodes, p[i + 1], p[j + 1]));
    }
}

proof fn lemma_tail_contains(nodes: Nodes, p: Seq<int>, x: int)
    requires
        order::rooted(nodes),
        order::distinct(nodes),
        order::in_order(nodes, p),
        p.len() > 0,
    ensures
        p.drop_first().contains(x) == (p.contains(x) && x != p[0]),
{
    let p1 = p.drop_first();
    if p1.contains(x) {
        let i = p1.index_of(x);
        assert(p[i + 1] == x);
        assert(order::less(nodes, p[0], p[i + 1]));
        order::lemma_total(nodes, p[0], x);
    }
    if p.contains(x) && x != p[0] {
        let i = p.index_of(x);
        assert(p1[i - 1] == x);
    }
}

/// What a document shows stands in order.
pub proof fn lemma_shown_order(h: Hist, t: Track, k: int, s: Set<int>)
    requires
        history_laws::track_ok(h, t, k),
    ensures
        order::in_order(t.nodes, history::shown(t, s)),
        forall|x: int| #[trigger]
            history::shown(t, s).contains(x) == (history_laws::has_item(t, x) && history::shows(
                t,
                s,
            )(x)),
{
    let chosen = history::shows(t, s);
    let p = history::shown(t, s);
    let n = t.items.len() as int;
    assert forall|i: int| 0 <= i < p.len() implies 0 <= #[trigger] p[i] < t.nodes.len() by {
        let a = history::lemma_kept_source(t.items, chosen, n, i);
        assert(0 <= t.items[a] < t.nodes.len());
    }
    assert forall|i: int, j: int| 0 <= i < j < p.len() implies order::less(
        t.nodes,
        #[trigger] p[i],
        #[trigger] p[j],
    ) by {
        let a = history::lemma_kept_source(t.items, chosen, n, i);
        let b = history::lemma_kept_source(t.items, chosen, n, j);
        if b <= a {
            history::lemma_kept_prefix(t.items, chosen, b, a);
        }
        assert(order::less(t.nodes, t.items[a], t.items[b]));
    }
    assert forall|x: int| #[trigger]
        p.contains(x) == (history_laws::has_item(t, x) && chosen(x)) by {
        if p.contains(x) {
            let i = p.index_of(x);
            let a = history::lemma_kept_source(t.items, chosen, n, i);
            assert(t.items[a] == x);
        }
        if history_laws::has_item(t, x) && chosen(x) {
            let a = choose|a: int| 0 <= a < t.items.len() && #[trigger] t.items[a] == x;
            history::lemma_kept_at(t.items, chosen, a);
            assert(p[history::kept(t.items, chosen, a).len() as int] == x);
        }
    }
}

/// Whether the histories correspond as far as the first `k` events of `a`, which make `t`.
spec fn agree(a: Hist, b: Hist, f: Seq<int>, t: Track, k: int) -> bool {
    let n = history::whole(b);
    &&& 0 <= k <= a.len()
    &&& history_laws::track_ok(a, t, k)
    &&& history_laws::track_ok(b, n, b.len() as int)
    &&& order::distinct(t.nodes)
    &&& order::distinct(n.nodes)
    &&& corresponds(t, n, f, k)
}

proof fn lemma_f(a: Hist, b: Hist, f: Seq<int>, k: int)
    requires
        a.valid(),
        embeds(a, b, f),
        0 <= k <= a.len(),
    ensures
        forall|v: int| 0 <= v < k ==> 0 <= #[trigger] f[v] < b.len(),
        forall|v: int, w: int|
            0 <= v < k && 0 <= w < k && #[trigger] f[v] == #[trigger] f[w] ==> v == w,
{
    assert forall|v: int, w: int|
        0 <= v < k && 0 <= w < k && #[trigger] f[v] == #[trigger] f[w] implies v == w by {
        lemma_injective(a, b, f, v, w);
    }
}

/// The same items are gone in both histories.
proof fn lemma_gone_sent(a: Hist, b: Hist, f: Seq<int>, t: Track, k: int, s: Set<int>, x: int)
    requires
        a.valid(),
        b.valid(),
        embeds(a, b, f),
        agree(a, b, f, t, k),
        history_laws::before(s, k),
        0 <= x < k,
    ensures
        history::gone(history::whole(b), image(f, s), f[x]) == history::gone(t, s, x),
{
    let n = history::whole(b);
    lemma_f(a, b, f, a.len() as int);
    if history::gone(t, s, x) {
        let d = choose|d: int|
            0 <= d < t.target.len() && s.contains(d) && #[trigger] t.target[d] == x;
        assert(t.nodes[d].id == a.ids[d]);
        assert(n.target[f[d]] == f[x]);
        assert(image(f, s).contains(f[d]));
    }
    if history::gone(n, image(f, s), f[x]) {
        let e = choose|e: int|
            0 <= e < n.target.len() && image(f, s).contains(e) && #[trigger] n.target[e] == f[x];
        let d = choose|d: int| 0 <= d < f.len() && s.contains(d) && #[trigger] f[d] == e;
        assert(0 <= d < k);
        assert(t.nodes[d].id == a.ids[d]);
        assert(n.target[f[d]] == sent(f, t.target[d]));
        assert(f[x] >= 0);
        assert(t.target[d] >= 0);
        assert(t.target[d] < k) by {
            if a.ops[d] is Ins {
                assert(t.target[d] == -1);
            } else {
                assert(a.ops[d] is Del);
            }
        }
        assert(f[t.target[d]] == f[x]);
        assert(t.target[d] == x);
    }
}

/// Both histories show the same items, in the same order.
#[verifier::rlimit(40)]
proof fn lemma_shown_sent(a: Hist, b: Hist, f: Seq<int>, t: Track, k: int, s: Set<int>)
    requires
        a.valid(),
        b.valid(),
        embeds(a, b, f),
        agree(a, b, f, t, k),
        history_laws::before(s, k),
    ensures
        history::shown(history::whole(b), image(f, s)) == sent_all(f, history::shown(t, s)),
{
    let n = history::whole(b);
    let p = sent_all(f, history::shown(t, s));
    let q = history::shown(n, image(f, s));
    lemma_f(a, b, f, a.len() as int);
    lemma_shown_order(a, t, k, s);
    lemma_shown_order(b, n, b.len() as int, image(f, s));
    assert(order::in_order(n.nodes, p)) by {
        assert forall|i: int| 0 <= i < p.len() implies 0 <= #[trigger] p[i] < n.nodes.len() by {
            assert(0 <= history::shown(t, s)[i] < t.nodes.len());
        }
        assert forall|i: int, j: int| 0 <= i < j < p.len() implies order::less(
            n.nodes,
            #[trigger] p[i],
            #[trigger] p[j],
        ) by {
            let x = history::shown(t, s)[i];
            let y = history::shown(t, s)[j];
            assert(order::less(t.nodes, x, y));
            lemma_less_sent(t, n, f, k, x, y);
        }
    }
    assert forall|y: int| #[trigger] p.contains(y) == q.contains(y) by {
        if p.contains(y) {
            let i = p.index_of(y);
            let x = history::shown(t, s)[i];
            assert(history::shown(t, s).contains(x));
            assert(f[x] == y);
            assert(a.ops[x] is Ins) by {
                let m = choose|m: int| 0 <= m < t.items.len() && #[trigger] t.items[m] == x;
            }
            assert(b.ops[y] is Ins);
            assert(history_laws::has_item(n, y));
            lemma_gone_sent(a, b, f, t, k, s, x);
            assert(image(f, s).contains(y));
        }
        if q.contains(y) {
            assert(image(f, s).contains(y));
            let x = choose|x: int| 0 <= x < f.len() && s.contains(x) && #[trigger] f[x] == y;
            assert(0 <= x < k);
            lemma_gone_sent(a, b, f, t, k, s, x);
            assert(b.ops[y] is Ins) by {
                let m = choose|m: int| 0 <= m < n.items.len() && #[trigger] n.items[m] == y;
            }
            assert(a.ops[x] is Ins);
            assert(history_laws::has_item(t, x));
            assert(history::shown(t, s).contains(x));
            let i = history::shown(t, s).index_of(x);
            assert(p[i] == y);
        }
    }
    lemma_same_order(n.nodes, p, q);
}

// ---- neighbours ----

/// Whether `b` is the first item behind `a` that one of the events `s` made; -1 for
/// either stands for the end on its side.
pub open spec fn is_next(h: Hist, nodes: Nodes, s: Set<int>, a: int, b: int) -> bool {
    &&& b >= -1
    &&& b >= 0 ==> s.contains(b) && h.ops[b] is Ins && (a >= 0 ==> order::less(nodes, a, b))
    &&& forall|c: int| #[trigger]
        s.contains(c) && h.ops[c] is Ins && (a < 0 || order::less(nodes, a, c)) ==> b >= 0 && (c
            == b || order::less(nodes, b, c))
}

pub proof fn lemma_next_unique(h: Hist, nodes: Nodes, s: Set<int>, a: int, b: int, c: int)
    requires
        order::rooted(nodes),
        order::distinct(nodes),
        history_laws::before(s, nodes.len() as int),
        is_next(h, nodes, s, a, b),
        is_next(h, nodes, s, a, c),
    ensures
        b == c,
{
    if b >= 0 {
        assert(s.contains(b));
    }
    if c >= 0 {
        assert(s.contains(c));
    }
    if b >= 0 && c >= 0 && b != c {
        order::lemma_total(nodes, b, c);
    }
}

/// The item before position `pos` of a document; -1 at its start.
pub open spec fn item_before(d: Seq<int>, pos: int) -> int {
    if pos == 0 {
        -1
    } else {
        d[pos - 1]
    }
}

/// The item behind the place for a character is the next one that its author knew of.
proof fn lemma_right_of_gap(h: Hist, t: Track, v: int, s: Set<int>, pos: int)
    requires
        history_laws::track_ok(h, t, v),
        order::distinct(t.nodes),
        history_laws::before(s, v),
        0 <= pos <= history::shown(t, s).len(),
    ensures
        ({
            let a = history::left_of_gap(t, s, pos);
            let b = history::right_of_gap(t, s, pos);
            &&& is_next(h, t.nodes, s, a, b)
            &&& a == item_before(history::shown(t, s), pos)
            &&& pos > 0 ==> 0 <= a < v && s.contains(a)
            &&& b < v
        }),
{
    let a = history::left_of_gap(t, s, pos);
    let b = history::right_of_gap(t, s, pos);
    let from = history::gap_start(t, s, pos);
    let end = history::gap_end(t, s, pos);
    history_laws::lemma_gap(t, s, pos);
    if pos > 0 {
        assert(0 <= t.items[from - 1] < t.nodes.len());
    }
    if end < t.items.len() {
        assert(0 <= t.items[end] < t.nodes.len());
        if pos > 0 {
            assert(order::less(t.nodes, t.items[from - 1], t.items[end]));
        }
    }
    assert forall|c: int| #[trigger]
        s.contains(c) && h.ops[c] is Ins && (a < 0 || order::less(t.nodes, a, c)) implies b >= 0
        && (c == b || order::less(t.nodes, b, c)) by {
        assert(0 <= c < v);
        assert(history_laws::has_item(t, c));
        let j = choose|j: int| 0 <= j < t.items.len() && #[trigger] t.items[j] == c;
        if j < from {
            assert(pos > 0);
            if j < from - 1 {
                assert(order::less(t.nodes, t.items[j], t.items[from - 1]));
            }
            order::lemma_total(t.nodes, c, a);
        } else if j < end {
            assert(!s.contains(t.items[j]));
        } else if j > end {
            assert(order::less(t.nodes, t.items[end], t.items[j]));
        }
    }
}

/// The tree that the first events make is part of that which more events make.
pub proof fn lemma_nodes_prefix(h: Hist, k: int, n: int, x: int)
    requires
        h.valid(),
        0 <= k <= n <= h.len(),
        history::playable_to(h, n),
        0 <= x < k,
    ensures
        history::track(h, n).nodes[x] == history::track(h, k).nodes[x],
    decreases n - k,
{
    if k < n {
        history_laws::lemma_track(h, n - 1);
        lemma_nodes_prefix(h, k, n - 1, x);
    }
}

/// Whether event `v` made its item between items `a` and `b`.
pub open spec fn made_between(h: Hist, nodes: Nodes, v: int, a: int, b: int) -> bool {
    &&& b < v
    &&& is_next(h, nodes, h.seen_by(v), a, b)
    &&& nodes[v] == history::node_between(nodes, a, b, h.ids[v])
}

/// What an event makes, told from what all events make.
#[verifier::rlimit(40)]
pub proof fn lemma_made(h: Hist, v: int)
    requires
        history::playable(h),
        0 <= v < h.len(),
    ensures
        ({
            let n = history::whole(h);
            let s = h.seen_by(v);
            let d = history::shown(n, s);
            match h.ops[v] {
                EvOp::Ins { pos, .. } => {
                    let a = item_before(d, pos);
                    &&& 0 <= pos <= d.len()
                    &&& exists|b: int| made_between(h, n.nodes, v, a, b)
                },
                EvOp::Del { pos } => {
                    &&& 0 <= pos < d.len()
                    &&& n.target[v] == d[pos]
                    &&& n.nodes[v] == history::no_node(h, v)
                },
            }
        }),
{
    let m = h.len() as int;
    let n = history::whole(h);
    let t = history::track(h, v);
    let s = h.seen_by(v);
    assert(history::placed(h, v));
    history_laws::lemma_track(h, v);
    history_laws::lemma_track(h, m);
    lemma_seen_before(h, v);
    history_laws::lemma_stable(h, v, m, s);
    lemma_nodes_prefix(h, v + 1, m, v);
    match h.ops[v] {
        EvOp::Ins { pos, .. } => {
            let a = history::left_of_gap(t, s, pos);
            let b = history::right_of_gap(t, s, pos);
            lemma_right_of_gap(h, t, v, s, pos);
            assert forall|x: int| 0 <= x < v implies #[trigger] t.nodes[x] == n.nodes[x] by {
                lemma_nodes_prefix(h, v, m, x);
            }
            assert forall|x: int, y: int| 0 <= x < v && 0 <= y < v implies #[trigger] order::less(
                t.nodes,
                x,
                y,
            ) == order::less(n.nodes, x, y) && order::right_of(t.nodes, x, y) == order::right_of(
                n.nodes,
                x,
                y,
            ) by {
                order::lemma_less_prefix(t.nodes, n.nodes, x, y);
            }
            if a >= 0 && b >= 0 {
                assert(order::less(t.nodes, b, a) == order::less(n.nodes, b, a));
                assert(order::less(t.nodes, a, b) == order::less(n.nodes, a, b));
            }
            assert(is_next(h, n.nodes, s, a, b)) by {
                assert forall|c: int| #[trigger]
                    s.contains(c) && h.ops[c] is Ins && (a < 0 || order::less(n.nodes, a, c)) implies b
                    >= 0 && (c == b || order::less(n.nodes, b, c)) by {
                    assert(0 <= c < v);
                    if a >= 0 {
                        assert(order::less(t.nodes, a, c) == order::less(n.nodes, a, c));
                    }
                    if b >= 0 {
                        assert(order::less(t.nodes, b, c) == order::less(n.nodes, b, c));
                    }
                }
            }
            assert(n.nodes[v] == history::node_between(t.nodes, a, b, h.ids[v]));
            assert(made_between(h, n.nodes, v, a, b));
        },
        EvOp::Del { pos } => {
            history_laws::lemma_nth(t, s, pos);
            history_laws::lemma_target(h, v + 1, m, v);
        },
    }
}

pub proof fn lemma_seen_before(h: Hist, v: int)
    requires
        h.valid(),
        0 <= v < h.len(),
    ensures
        history_laws::before(h.seen_by(v), v),
{
    assert forall|a: int| #[trigger] h.seen_by(v).contains(a) implies 0 <= a < v by {
        graph::lemma_parents_cone(h.parents, v, a);
        graph::lemma_reaches_order(h.parents, v, a);
    }
}

proof fn lemma_next_sent(
    a: Hist,
    b: Hist,
    f: Seq<int>,
    t: Track,
    k: int,
    s: Set<int>,
    x: int,
    y: int,
)
    requires
        a.valid(),
        b.valid(),
        embeds(a, b, f),
        agree(a, b, f, t, k),
        history_laws::before(s, k),
        -1 <= x < k,
        y < k,
        is_next(a, t.nodes, s, x, y),
    ensures
        is_next(b, history::whole(b).nodes, image(f, s), sent(f, x), sent(f, y)),
{
    let n = history::whole(b);
    lemma_f(a, b, f, a.len() as int);
    if y >= 0 {
        assert(s.contains(y));
        assert(image(f, s).contains(f[y]));
        if x >= 0 {
            lemma_less_sent(t, n, f, k, x, y);
            assert(0 <= f[x]);
        }
    }
    assert forall|c: int| #[trigger]
        image(f, s).contains(c) && b.ops[c] is Ins && (sent(f, x) < 0 || order::less(
            n.nodes,
            sent(f, x),
            c,
        )) implies sent(f, y) >= 0 && (c == sent(f, y) || order::less(n.nodes, sent(f, y), c)) by {
        let e = choose|e: int| 0 <= e < f.len() && s.contains(e) && #[trigger] f[e] == c;
        assert(0 <= e < k);
        assert(a.ops[e] is Ins);
        if x >= 0 {
            assert(0 <= f[x]);
            lemma_less_sent(t, n, f, k, x, e);
        }
        assert(y >= 0);
        assert(0 <= f[y]);
        if e != y {
            lemma_less_sent(t, n, f, k, y, e);
        }
    }
}

proof fn lemma_agree(a: Hist, b: Hist, f: Seq<int>, k: int)
    requires
        a.valid(),
        history::playable(b),
        embeds(a, b, f),
        0 <= k <= a.len(),
    ensures
        history::playable_to(a, k),
        agree(a, b, f, history::track(a, k), k),
    decreases k,
{
    let n = history::whole(b);
    history_laws::lemma_track(b, b.len() as int);
    if k == 0 {
        history_laws::lemma_track(a, 0);
    } else {
        let v = k - 1;
        lemma_agree(a, b, f, v);
        lemma_agree_step(a, b, f, v);
    }
}

#[verifier::rlimit(50)]
proof fn lemma_agree_step(a: Hist, b: Hist, f: Seq<int>, v: int)
    requires
        a.valid(),
        history::playable(b),
        embeds(a, b, f),
        0 <= v < a.len(),
        history::playable_to(a, v),
        agree(a, b, f, history::track(a, v), v),
    ensures
        history::playable_to(a, v + 1),
        agree(a, b, f, history::track(a, v + 1), v + 1),
{
    let n = history::whole(b);
    let t = history::track(a, v);
    let t2 = history::track(a, v + 1);
    let s = a.seen_by(v);
    lemma_f(a, b, f, a.len() as int);
    lemma_seen(a, b, f, v);
    lemma_seen_before(a, v);
    lemma_shown_sent(a, b, f, t, v, s);
    lemma_made(b, f[v]);
    let d = history::shown(t, s);
    assert(history::shown(n, b.seen_by(f[v])) == sent_all(f, d));
    assert(history::placed(a, v));
    assert forall|w: int| 0 <= w < v + 1 implies #[trigger] history::placed(a, w) by {}
    history_laws::lemma_track(a, v + 1);
    match a.ops[v] {
        EvOp::Ins { pos, .. } => {
            let x = history::left_of_gap(t, s, pos);
            let y = history::right_of_gap(t, s, pos);
            lemma_right_of_gap(a, t, v, s, pos);
            lemma_next_sent(a, b, f, t, v, s, x, y);
            let fx = sent(f, x);
            assert(fx == item_before(sent_all(f, d), pos));
            let fy = choose|fy: int| made_between(b, n.nodes, f[v], fx, fy);
            lemma_seen_before(b, f[v]);
            lemma_next_unique(b, n.nodes, b.seen_by(f[v]), fx, fy, sent(f, y));
            if x >= 0 && y >= 0 {
                assert(0 <= f[x] && 0 <= f[y]);
                lemma_less_sent(t, n, f, v, y, x);
            }
            if x >= 0 {
                assert(0 <= f[x]);
            }
            if y >= 0 {
                assert(0 <= f[y]);
            }
            assert(t2.nodes[v] == history::node_between(t.nodes, x, y, a.ids[v]));
            assert(n.target[f[v]] == -1) by {
                assert(b.ops[f[v]] is Ins);
            }
        },
        EvOp::Del { pos } => {
            history_laws::lemma_nth(t, s, pos);
            assert(t2.target[v] == d[pos]);
            assert(sent_all(f, d)[pos] == f[d[pos]]);
            assert(0 <= t2.target[v]);
        },
    }
    assert forall|w: int| 0 <= w < v + 1 implies {
        let x = (#[trigger] t2.nodes[w]);
        let y = n.nodes[f[w]];
        &&& y.parent == sent(f, x.parent)
        &&& y.right == sent(f, x.right)
        &&& y.rightward == x.rightward
        &&& y.id == x.id
        &&& n.target[f[w]] == sent(f, t2.target[w])
    } by {
        if w < v {
            assert(t2.nodes[w] == t.nodes[w]);
            assert(t2.target[w] == t.target[w]);
        }
    }
}

/// A peer that knows only some of the events of another shows of each version
/// that it knows what the other shows of it, in whatever order either learnt of
/// the events; and its events find their place if the other's do.
pub proof fn law_convergence(a: Hist, b: Hist, f: Seq<int>, s: Set<int>)
    requires
        a.valid(),
        history::playable(b),
        embeds(a, b, f),
        history_laws::before(s, a.len() as int),
    ensures
        history::playable(a),
        history::document(a, s) == history::document(b, image(f, s)),
{
    let k = a.len() as int;
    lemma_agree(a, b, f, k);
    let t = history::whole(a);
    lemma_shown_sent(a, b, f, t, k, s);
    lemma_shown_order(a, t, k, s);
    let d = history::shown(t, s);
    assert forall|i: int| 0 <= i < d.len() implies a.char_of(#[trigger] d[i]) == b.char_of(
        f[d[i]],
    ) by {
        assert(0 <= d[i] < t.nodes.len());
        assert(0 <= f[d[i]]);
    }
    assert(history::document(a, s) =~= history::document(b, image(f, s)));
}

} // verus!
