//! What more events change of a history, and what they leave.

use crate::graph;
use crate::history;
use crate::history::Hist;
use crate::history_laws;
use crate::operation;
use crate::operation::EvOp;
use crate::oplog;
use vstd::prelude::*;

verus! {

/// Whether the events of `a` are the first ones of `b`.
pub open spec fn prefix(a: Hist, b: Hist) -> bool {
    &&& a.len() <= b.len()
    &&& forall|v: int|
        0 <= v < a.len() ==> {
            &&& #[trigger] b.parents[v] == a.parents[v]
            &&& b.ops[v] == a.ops[v]
            &&& b.ids[v] == a.ids[v]
        }
}

/// Versions hold the same events.
pub proof fn lemma_prefix_version(a: Hist, b: Hist, front: Seq<usize>)
    requires
        prefix(a, b),
        graph::known(a.parents, front),
    ensures
        b.version(front) == a.version(front),
        history_laws::before(a.version(front), a.len() as int),
{
    assert forall|x: int| #[trigger] a.version(front).contains(x) implies 0 <= x < a.len() by {
        graph::lemma_cone_order(a.parents, front, x);
    }
    assert forall|x: int| #[trigger] a.version(front).contains(x) == b.version(front).contains(
        x,
    ) by {
        assert forall|i: int| 0 <= i < front.len() implies graph::reaches(
            a.parents,
            #[trigger] front[i] as int,
            x,
        ) == graph::reaches(b.parents, front[i] as int, x) by {
            graph::lemma_reaches_prefix(a.parents, b.parents, front[i] as int, x);
        }
        if a.version(front).contains(x) {
            let i = choose|i: int|
                0 <= i < front.len() && #[trigger] graph::reaches(a.parents, front[i] as int, x);
            assert(graph::reaches(b.parents, front[i] as int, x));
        }
        if b.version(front).contains(x) {
            let i = choose|i: int|
                0 <= i < front.len() && #[trigger] graph::reaches(b.parents, front[i] as int, x);
            assert(graph::reaches(a.parents, front[i] as int, x));
        }
    }
    assert(a.version(front) =~= b.version(front));
}

proof fn lemma_seen_same(a: Hist, b: Hist, v: int)
    requires
        a.valid(),
        prefix(a, b),
        0 <= v < a.len(),
    ensures
        a.seen_by(v) == b.seen_by(v),
{
    assert(b.parents[v] == a.parents[v]);
    assert(graph::known(a.parents, a.parents[v])) by {
        assert forall|i: int| 0 <= i < a.parents[v].len() implies (#[trigger] a.parents[v][i])
            < a.len() by {}
    }
    lemma_prefix_version(a, b, a.parents[v]);
    assert(a.seen_by(v) =~= a.version(a.parents[v]));
    assert(b.seen_by(v) =~= b.version(b.parents[v]));
}

/// The first events make the same.
proof fn lemma_prefix_track(a: Hist, b: Hist, k: int)
    requires
        a.valid(),
        prefix(a, b),
        0 <= k <= a.len(),
    ensures
        history::track(a, k) == history::track(b, k),
    decreases k,
{
    if k > 0 {
        lemma_prefix_track(a, b, k - 1);
        lemma_seen_same(a, b, k - 1);
        assert(b.parents[k - 1] == a.parents[k - 1]);
    }
}

/// What is made of events of the first history reads the same.
pub proof fn lemma_prefix_text(a: Hist, b: Hist, k: int, s: Set<int>)
    requires
        a.valid(),
        prefix(a, b),
        0 <= k <= a.len(),
        history::playable_to(a, k),
    ensures
        history::text(a, history::track(a, k), s) == history::text(b, history::track(b, k), s),
{
    lemma_prefix_track(a, b, k);
    let t = history::track(a, k);
    history_laws::lemma_track(a, k);
    let d = history::shown(t, s);
    assert forall|i: int| 0 <= i < d.len() implies a.char_of(#[trigger] d[i]) == b.char_of(
        d[i],
    ) by {
        let j = history::lemma_kept_source(
            t.items,
            history::shows(t, s),
            t.items.len() as int,
            i,
        );
        assert(0 <= t.items[j] < k);
        assert(b.parents[t.items[j]] == a.parents[t.items[j]]);
    }
    assert(history::text(a, t, s) =~= history::text(b, history::track(b, k), s));
}

/// Whether the first events find their place does not depend on later ones.
pub proof fn lemma_prefix_playable(a: Hist, b: Hist, k: int)
    requires
        a.valid(),
        prefix(a, b),
        0 <= k <= a.len(),
    ensures
        history::playable_to(a, k) == history::playable_to(b, k),
    decreases k,
{
    if k > 0 {
        lemma_prefix_playable(a, b, k - 1);
        let v = k - 1;
        if history::playable_to(a, v) {
            lemma_seen_same(a, b, v);
            lemma_prefix_text(a, b, v, a.seen_by(v));
            assert(b.parents[v] == a.parents[v]);
            assert(history::placed(a, v) == history::placed(b, v));
        } else {
            let x = choose|x: int| 0 <= x < v && !history::placed(a, x);
            let y = choose|y: int| 0 <= y < v && !history::placed(b, y);
            assert(!history::placed(a, x) && !history::placed(b, y));
        }
        if history::playable_to(a, k) {
            assert(history::placed(a, v));
            assert(history::playable_to(a, v));
        }
        if history::playable_to(b, k) {
            assert(history::placed(b, v));
            assert(history::playable_to(b, v));
        }
    }
}

/// Later events change nothing of the document at an earlier version.
pub proof fn law_prefix_document(a: Hist, b: Hist, s: Set<int>)
    requires
        a.valid(),
        prefix(a, b),
        history::playable(b),
        history_laws::before(s, a.len() as int),
    ensures
        history::playable(a),
        history::document(a, s) == history::document(b, s),
{
    let k = a.len() as int;
    lemma_prefix_playable(a, b, k);
    assert(history::playable_to(b, k));
    lemma_prefix_text(a, b, k, s);
    history_laws::lemma_stable(b, k, b.len() as int, s);
}

// ---- one more event ----

proof fn lemma_one_more(a: Hist, b: Hist)
    requires
        history::playable(a),
        b.valid(),
        prefix(a, b),
        b.len() == a.len() + 1,
        b.len() <= usize::MAX,
    ensures
        ({
            let n = a.len() as int;
            let doc = history::document(a, a.version(b.parents[n]));
            &&& history::playable(b) == operation::fits(doc, b.ops[n])
            &&& history::playable(b) ==> history::document(b, b.version(seq![n as usize]))
                == operation::after(doc, b.ops[n])
        }),
{
    let n = a.len() as int;
    let front = b.parents[n];
    let doc = history::document(a, a.version(front));
    assert(graph::known(a.parents, front)) by {
        assert forall|i: int| 0 <= i < front.len() implies (#[trigger] front[i]) < n by {
            assert(b.parents[n][i] < n);
        }
    }
    lemma_prefix_version(a, b, front);
    assert(b.seen_by(n) =~= b.version(front));
    lemma_prefix_text(a, b, n, b.seen_by(n));
    lemma_prefix_playable(a, b, n);
    assert(history::placed(b, n) == operation::fits(doc, b.ops[n]));
    if history::playable(b) {
        assert(history::placed(b, n));
        let s = b.seen_by(n);
        law_prefix_document(a, b, s);
        history_laws::law_event(b, n);
    }
}

/// More events of one author find their place if they do so, one after the other,
/// in the document that they follow; and they make of it what they do to it.
pub proof fn law_extended(
    h: Hist,
    parents: Seq<usize>,
    name: Seq<char>,
    seq: int,
    evs: Seq<EvOp>,
)
    requires
        history::playable(h),
        evs.len() > 0,
        h.len() + evs.len() <= usize::MAX,
        oplog::extended(h, parents, name, seq, evs).valid(),
    ensures
        ({
            let more = oplog::extended(h, parents, name, seq, evs);
            let last = seq![(more.len() - 1) as usize];
            let doc = history::document(h, h.version(parents));
            &&& history::playable(more) == operation::fits_all(doc, evs)
            &&& history::playable(more) ==> history::document(more, more.version(last))
                == operation::after_all(doc, evs)
        }),
    decreases evs.len(),
{
    let n = h.len() as int;
    let more = oplog::extended(h, parents, name, seq, evs);
    let doc = history::document(h, h.version(parents));
    let m = evs.len() as int;
    if m == 1 {
        lemma_one_more(h, more);
        assert(more.parents[n] == parents);
        assert(evs.drop_last() =~= Seq::<EvOp>::empty());
        assert(operation::after_all(doc, evs.drop_last()) == doc);
        assert(operation::fits_all(doc, evs.drop_last()));
    } else {
        let less = oplog::extended(h, parents, name, seq, evs.drop_last());
        assert forall|v: int| 0 <= v < less.len() implies {
            &&& #[trigger] more.parents[v] == less.parents[v]
            &&& more.ops[v] == less.ops[v]
            &&& more.ids[v] == less.ids[v]
        } by {}
        assert forall|v: int, i: int|
            #![trigger less.parents[v][i]]
            0 <= v < less.len() && 0 <= i < less.parents[v].len() implies less.parents[v][i]
            < v by {
            assert(more.parents[v] == less.parents[v]);
            assert(more.parents[v][i] < v);
        }
        assert forall|v: int, w: int| 0 <= v < w < less.ids.len() implies (
        #[trigger] less.ids[v]) != (#[trigger] less.ids[w]) by {
            assert(more.parents[v] == less.parents[v]);
            assert(more.parents[w] == less.parents[w]);
            assert(more.ids[v] != more.ids[w]);
        }
        law_extended(h, parents, name, seq, evs.drop_last());
        assert(more.parents[n + m - 1] == seq![(less.len() - 1) as usize]);
        if history::playable(less) {
            lemma_one_more(less, more);
            let last = seq![(less.len() - 1) as usize];
            assert(less.version(more.parents[n + m - 1]) == less.version(last));
        } else {
            if history::playable(more) {
                law_prefix_document(less, more, Set::empty());
            }
        }
    }
}

} // verus!
