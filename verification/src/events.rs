//! Events as peers tell each other of them, and what taking them up makes of a history.

use crate::convergence;
use crate::graph;
use crate::history;
use crate::history::Hist;
use crate::history_laws;
use crate::operation::EvOp;
use crate::range::DTRange;
use crate::sorting;
use vstd::prelude::*;

verus! {

/// An event, by its author's name and count, with the events that it follows.
#[verifier::ext_equal]
pub struct EventAbs {
    pub id: (Seq<char>, int),
    pub parents: Seq<(Seq<char>, int)>,
    pub op: EvOp,
}

pub open spec fn ids_of(h: Hist, list: Seq<usize>) -> Seq<(Seq<char>, int)> {
    list.map_values(|v: usize| h.ids[v as int])
}

/// Event `v` of a history.
pub open spec fn event_of(h: Hist, v: int) -> EventAbs {
    EventAbs { id: h.ids[v], parents: ids_of(h, h.parents[v]), op: h.ops[v] }
}

/// The events `from..to` of a history.
pub open spec fn events_between(h: Hist, from: int, to: int) -> Seq<EventAbs> {
    Seq::new((to - from) as nat, |k: int| event_of(h, from + k))
}

/// The events below `n` of a history that are chosen.
pub open spec fn events_chosen(h: Hist, n: int, chosen: spec_fn(int) -> bool) -> Seq<EventAbs>
    decreases n,
{
    if n <= 0 {
        Seq::empty()
    } else {
        let before = events_chosen(h, n - 1, chosen);
        if chosen(n - 1) {
            before.push(event_of(h, n - 1))
        } else {
            before
        }
    }
}

/// The events of ranges, one range after the other.
pub open spec fn events_in(h: Hist, ranges: Seq<DTRange>) -> Seq<EventAbs>
    decreases ranges.len(),
{
    if ranges.len() == 0 {
        Seq::empty()
    } else {
        events_in(h, ranges.drop_last()) + events_between(
            h,
            ranges.last().start as int,
            ranges.last().end as int,
        )
    }
}

/// The ranges of what is chosen hold what is chosen.
pub proof fn lemma_events_in(h: Hist, n: int, chosen: spec_fn(int) -> bool)
    requires
        0 <= n <= usize::MAX,
    ensures
        events_in(h, graph::ranges_below(n, chosen)) == events_chosen(h, n, chosen),
        ({
            let ranges = graph::ranges_below(n, chosen);
            ranges.len() > 0 ==> 0 <= ranges.last().start < ranges.last().end <= n
        }),
    decreases n,
{
    if n > 0 {
        let before = graph::ranges_below(n - 1, chosen);
        let ranges = graph::ranges_below(n, chosen);
        lemma_events_in(h, n - 1, chosen);
        if chosen(n - 1) {
            let r = ranges.last();
            let front = ranges.drop_last();
            if ranges.len() > before.len() {
                assert(front =~= before);
                assert(events_between(h, n - 1, n) =~= seq![event_of(h, n - 1)]);
            } else {
                assert(front =~= before.drop_last());
                assert(events_between(h, r.start as int, n) =~= events_between(
                    h,
                    before.last().start as int,
                    n - 1,
                ).push(event_of(h, n - 1)));
            }
            assert(events_in(h, ranges) =~= events_chosen(h, n, chosen));
        }
    }
}

// ---- taking events up ----

/// Whether a history holds the event of an author.
pub open spec fn has_id(h: Hist, id: (Seq<char>, int)) -> bool {
    exists|v: int| 0 <= v < h.ids.len() && #[trigger] h.ids[v] == id
}

/// Which event of a history is the event of an author.
pub open spec fn place(h: Hist, id: (Seq<char>, int)) -> int {
    choose|v: int| 0 <= v < h.ids.len() && #[trigger] h.ids[v] == id
}

/// Which events of a history are the given ones, as they are named.
pub open spec fn places_as_named(h: Hist, ids: Seq<(Seq<char>, int)>) -> Seq<usize> {
    ids.map_values(|id: (Seq<char>, int)| place(h, id) as usize)
}

/// Which events of a history are the given ones, in ascending order.
pub open spec fn places(h: Hist, ids: Seq<(Seq<char>, int)>) -> Seq<usize> {
    sorting::sorted(places_as_named(h, ids))
}

proof fn lemma_places(h: Hist, ids: Seq<(Seq<char>, int)>)
    ensures
        places(h, ids).len() == ids.len(),
        forall|i: int|
            0 <= i < ids.len() ==> places(h, ids).contains(
                place(h, #[trigger] ids[i]) as usize,
            ),
        forall|j: int|
            0 <= j < ids.len() ==> places_as_named(h, ids).contains(#[trigger] places(h, ids)[j]),
{
    let list = places_as_named(h, ids);
    sorting::lemma_sorted(list);
    assert forall|i: int| 0 <= i < ids.len() implies places(h, ids).contains(
        place(h, #[trigger] ids[i]) as usize,
    ) by {
        assert(list[i] == place(h, ids[i]) as usize);
        assert(list.contains(list[i]));
    }
    assert forall|j: int| 0 <= j < ids.len() implies list.contains(
        #[trigger] places(h, ids)[j],
    ) by {
        assert(places(h, ids).contains(places(h, ids)[j]));
    }
}

/// Whether a history holds all that an event follows.
pub open spec fn follows_known(h: Hist, e: EventAbs) -> bool {
    forall|i: int| 0 <= i < e.parents.len() ==> has_id(h, #[trigger] e.parents[i])
}

/// The history with an event taken up: one that it holds already changes nothing.
pub open spec fn received(h: Hist, e: EventAbs) -> Hist {
    if has_id(h, e.id) {
        h
    } else {
        Hist {
            parents: h.parents.push(places(h, e.parents)),
            ops: h.ops.push(e.op),
            ids: h.ids.push(e.id),
        }
    }
}

/// The history with events taken up one after the other.
pub open spec fn received_all(h: Hist, evs: Seq<EventAbs>) -> Hist
    decreases evs.len(),
{
    if evs.len() == 0 {
        h
    } else {
        received(received_all(h, evs.drop_last()), evs.last())
    }
}

/// Whether events can be taken up one after the other: all that each one follows is
/// there when it comes, if it is not there itself.
pub open spec fn receivable(h: Hist, evs: Seq<EventAbs>) -> bool
    decreases evs.len(),
{
    evs.len() == 0 || {
        let before = received_all(h, evs.drop_last());
        receivable(h, evs.drop_last()) && (has_id(before, evs.last().id) || follows_known(
            before,
            evs.last(),
        ))
    }
}

/// The history before the first event.
pub open spec fn nothing() -> Hist {
    Hist { parents: Seq::empty(), ops: Seq::empty(), ids: Seq::empty() }
}

pub proof fn lemma_place(h: Hist, v: int)
    requires
        h.valid(),
        0 <= v < h.len(),
    ensures
        has_id(h, h.ids[v]),
        place(h, h.ids[v]) == v,
{
    let w = place(h, h.ids[v]);
    assert(h.ids[w] == h.ids[v]);
    if v < w {
        assert(h.ids[v] != h.ids[w]);
    } else if w < v {
        assert(h.ids[w] != h.ids[v]);
    }
}

/// An event taken up keeps a history sound.
pub proof fn lemma_received(h: Hist, e: EventAbs)
    requires
        h.valid(),
        h.len() <= usize::MAX,
        has_id(h, e.id) || follows_known(h, e),
    ensures
        received(h, e).valid(),
        h.len() <= received(h, e).len() <= h.len() + 1,
        has_id(received(h, e), e.id),
        forall|id: (Seq<char>, int)| #[trigger]
            has_id(received(h, e), id) == (has_id(h, id) || id == e.id),
{
    let r = received(h, e);
    if !has_id(h, e.id) {
        let n = h.len() as int;
        assert(r.ids[n] == e.id);
        assert forall|v: int, i: int|
            #![trigger r.parents[v][i]]
            0 <= v < r.parents.len() && 0 <= i < r.parents[v].len() implies r.parents[v][i] < v by {
            if v < n {
                assert(r.parents[v] == h.parents[v]);
                assert(h.parents[v][i] < v);
            } else {
                lemma_places(h, e.parents);
                let list = places_as_named(h, e.parents);
                assert(list.contains(r.parents[v][i]));
                let k = list.index_of(r.parents[v][i]);
                let id = e.parents[k];
                assert(has_id(h, id));
                let w = place(h, id);
                assert(h.ids[w] == id);
            }
        }
        assert forall|v: int, w: int| 0 <= v < w < r.ids.len() implies (#[trigger] r.ids[v]) != (
        #[trigger] r.ids[w]) by {
            assert(r.ids[v] == h.ids[v]);
            if w < n {
                assert(r.ids[w] == h.ids[w]);
            }
        }
        assert forall|id: (Seq<char>, int)| #[trigger] has_id(r, id) == (has_id(h, id) || id
            == e.id) by {
            if has_id(h, id) {
                let v = place(h, id);
                assert(r.ids[v] == id);
            }
            if has_id(r, id) {
                let v = place(r, id);
                assert(r.ids[v] == id);
                if v < n {
                    assert(h.ids[v] == id);
                }
            }
        }
    }
}

/// No more events are taken up than come.
pub proof fn lemma_received_len(h: Hist, evs: Seq<EventAbs>)
    ensures
        h.len() <= received_all(h, evs).len() <= h.len() + evs.len(),
    decreases evs.len(),
{
    if evs.len() > 0 {
        lemma_received_len(h, evs.drop_last());
    }
}

/// Events behind others leave no fewer events.
pub proof fn lemma_received_more(h: Hist, evs: Seq<EventAbs>, k: int)
    requires
        0 <= k <= evs.len(),
    ensures
        received_all(h, evs.take(k)).len() <= received_all(h, evs).len(),
    decreases evs.len(),
{
    if k < evs.len() {
        let less = evs.drop_last();
        lemma_received_more(h, less, k);
        assert(less.take(k) =~= evs.take(k));
    } else {
        assert(evs.take(k) =~= evs);
    }
}

pub proof fn lemma_received_all(h: Hist, evs: Seq<EventAbs>)
    requires
        h.valid(),
        received_all(h, evs).len() <= usize::MAX,
        receivable(h, evs),
    ensures
        received_all(h, evs).valid(),
        h.len() <= received_all(h, evs).len() <= h.len() + evs.len(),
    decreases evs.len(),
{
    if evs.len() > 0 {
        lemma_received_all(h, evs.drop_last());
        lemma_received(received_all(h, evs.drop_last()), evs.last());
    }
}

/// Events that a history holds change nothing.
pub proof fn law_known_events(h: Hist, evs: Seq<EventAbs>)
    requires
        forall|i: int| 0 <= i < evs.len() ==> has_id(h, (#[trigger] evs[i]).id),
    ensures
        receivable(h, evs),
        received_all(h, evs) == h,
    decreases evs.len(),
{
    if evs.len() > 0 {
        let less = evs.drop_last();
        assert forall|i: int| 0 <= i < less.len() implies has_id(h, (#[trigger] less[i]).id) by {
            assert(less[i] == evs[i]);
        }
        law_known_events(h, less);
        assert(has_id(h, evs[evs.len() - 1].id));
    }
}

proof fn lemma_received_ids(h: Hist, evs: Seq<EventAbs>)
    requires
        h.valid(),
        received_all(h, evs).len() <= usize::MAX,
        receivable(h, evs),
    ensures
        forall|i: int| 0 <= i < evs.len() ==> has_id(received_all(h, evs), (#[trigger] evs[i]).id),
    decreases evs.len(),
{
    if evs.len() > 0 {
        let less = evs.drop_last();
        lemma_received_ids(h, less);
        lemma_received_all(h, less);
        lemma_received(received_all(h, less), evs.last());
        assert forall|i: int| 0 <= i < evs.len() implies has_id(
            received_all(h, evs),
            (#[trigger] evs[i]).id,
        ) by {
            if i < less.len() {
                assert(less[i] == evs[i]);
            }
        }
    }
}

/// Hearing of events again changes nothing.
pub proof fn law_received_again(h: Hist, evs: Seq<EventAbs>)
    requires
        h.valid(),
        received_all(h, evs).len() <= usize::MAX,
        receivable(h, evs),
    ensures
        receivable(received_all(h, evs), evs),
        received_all(received_all(h, evs), evs) == received_all(h, evs),
{
    lemma_received_ids(h, evs);
    law_known_events(received_all(h, evs), evs);
}

/// Whether what each event follows stands in ascending order.
pub open spec fn parents_in_order(h: Hist) -> bool {
    forall|v: int| 0 <= v < h.len() ==> sorting::in_order(#[trigger] h.parents[v])
}

/// The first events of a history.
pub open spec fn first(h: Hist, k: int) -> Hist {
    Hist { parents: h.parents.take(k), ops: h.ops.take(k), ids: h.ids.take(k) }
}

proof fn lemma_all_received(h: Hist, k: int)
    requires
        h.valid(),
        parents_in_order(h),
        0 <= k <= h.len() <= usize::MAX,
    ensures
        ({
            let evs = events_between(h, 0, k);
            &&& receivable(nothing(), evs)
            &&& received_all(nothing(), evs) == first(h, k)
        }),
    decreases k,
{
    let evs = events_between(h, 0, k);
    if k == 0 {
        assert(first(h, 0).parents =~= nothing().parents);
        assert(first(h, 0).ops =~= nothing().ops);
        assert(first(h, 0).ids =~= nothing().ids);
    } else {
        let v = k - 1;
        let less = events_between(h, 0, v);
        let e = event_of(h, v);
        let mid = first(h, v);
        lemma_all_received(h, v);
        assert(evs.drop_last() =~= less);
        assert(evs.last() == e);
        lemma_received_len(nothing(), less);
        lemma_received_all(nothing(), less);
        assert(!has_id(mid, e.id)) by {
            if has_id(mid, e.id) {
                let w = place(mid, e.id);
                assert(mid.ids[w] == e.id);
                assert(h.ids[w] != h.ids[v]);
            }
        }
        assert forall|i: int| 0 <= i < e.parents.len() implies has_id(
            mid,
            #[trigger] e.parents[i],
        ) && place(mid, e.parents[i]) == h.parents[v][i] by {
            let p = h.parents[v][i] as int;
            assert(h.parents[v][i] < v);
            assert(mid.ids[p] == h.ids[p]);
            lemma_place(mid, p);
        }
        assert(places_as_named(mid, e.parents) =~= h.parents[v]);
        sorting::lemma_sorted_unique(h.parents[v], h.parents[v]);
        let r = received(mid, e);
        assert(r.parents =~= first(h, k).parents);
        assert(r.ops =~= first(h, k).ops);
        assert(r.ids =~= first(h, k).ids);
    }
}

/// All events of a history in which what each one follows stands in order, taken up in order,
/// make the history.
pub proof fn law_all_received(h: Hist)
    requires
        h.valid(),
        parents_in_order(h),
        h.len() <= usize::MAX,
    ensures
        receivable(nothing(), events_between(h, 0, h.len() as int)),
        received_all(nothing(), events_between(h, 0, h.len() as int)) == h,
{
    let n = h.len() as int;
    lemma_all_received(h, n);
    assert(first(h, n).parents =~= h.parents);
    assert(first(h, n).ops =~= h.ops);
    assert(first(h, n).ids =~= h.ids);
}

// ---- taking up the events of another history ----

/// Which event of another history each event of a history is, once the events `ws` of
/// the other are taken up.
pub open spec fn sent_on(a: Hist, b: Hist, f: Seq<int>, ws: Seq<int>) -> Seq<int>
    decreases ws.len(),
{
    if ws.len() == 0 {
        f
    } else {
        let before = sent_on(a, b, f, ws.drop_last());
        if has_id(received_all(a, told_of(b, ws.drop_last())), b.ids[ws.last()]) {
            before
        } else {
            before.push(ws.last())
        }
    }
}

/// The given events of a history, as one peer tells another.
pub open spec fn told_of(b: Hist, ws: Seq<int>) -> Seq<EventAbs> {
    ws.map_values(|w: int| event_of(b, w))
}

/// The events that are numbered by `f`.
pub open spec fn range_of(f: Seq<int>) -> Set<int> {
    Set::new(|w: int| f.contains(w))
}

/// Whether each of the events `ws` follows only events that `f` numbers, and such that come
/// before it.
pub open spec fn in_causal_order(b: Hist, f: Seq<int>, ws: Seq<int>) -> bool {
    &&& forall|i: int| 0 <= i < ws.len() ==> 0 <= (#[trigger] ws[i]) < b.len()
    &&& forall|i: int, j: int|
        #![trigger b.parents[ws[i]][j]]
        0 <= i < ws.len() && 0 <= j < b.parents[ws[i]].len() ==> f.contains(
            b.parents[ws[i]][j] as int,
        ) || ws.take(i).contains(b.parents[ws[i]][j] as int)
}

/// Taking up one event of another history.
#[verifier::rlimit(50)]
proof fn lemma_sent_one(a: Hist, b: Hist, f: Seq<int>, w: int)
    requires
        a.valid(),
        b.valid(),
        b.len() <= usize::MAX,
        convergence::embeds(a, b, f),
        0 <= w < b.len(),
        forall|j: int|
            0 <= j < b.parents[w].len() ==> f.contains(#[trigger] b.parents[w][j] as int),
    ensures
        follows_known(a, event_of(b, w)),
        has_id(a, b.ids[w]) == f.contains(w),
        ({
            let c = received(a, event_of(b, w));
            let g = if has_id(a, b.ids[w]) {
                f
            } else {
                f.push(w)
            };
            &&& c.valid()
            &&& c.len() <= b.len()
            &&& convergence::embeds(c, b, g)
        }),
{
    let e = event_of(b, w);
    lemma_few(a, b, f);
    assert forall|i: int| 0 <= i < e.parents.len() implies has_id(
        a,
        #[trigger] e.parents[i],
    ) && f[place(a, e.parents[i])] == b.parents[w][i] && 0 <= place(a, e.parents[i])
        < a.len() by {
        let p = b.parents[w][i] as int;
        assert(f.contains(p));
        let v = f.index_of(p);
        assert(f[v] == p);
        assert(b.ids[f[v]] == a.ids[v]);
        assert(e.parents[i] == a.ids[v]);
        lemma_place(a, v);
    }
    if f.contains(w) {
        let v = f.index_of(w);
        assert(b.ids[f[v]] == a.ids[v]);
        assert(has_id(a, b.ids[w]));
    }
    if has_id(a, b.ids[w]) {
        let v = place(a, b.ids[w]);
        assert(a.ids[v] == b.ids[w]);
        assert(b.ids[f[v]] == a.ids[v]);
        lemma_place(b, f[v]);
        lemma_place(b, w);
        assert(f[v] == w);
        assert(f.contains(w));
    }
    lemma_received(a, e);
    if !has_id(a, b.ids[w]) {
        let c = received(a, e);
        let g = f.push(w);
        let n = a.len() as int;
        assert forall|v: int| 0 <= v < c.len() implies {
            &&& 0 <= #[trigger] g[v] < b.len()
            &&& b.ops[g[v]] == c.ops[v]
            &&& b.ids[g[v]] == c.ids[v]
        } by {
            if v < n {
                assert(g[v] == f[v]);
            }
        }
        assert forall|v: int, i: int|
            #![trigger c.parents[v][i]]
            0 <= v < c.len() && 0 <= i < c.parents[v].len() implies b.parents[g[v]].contains(
            g[c.parents[v][i] as int] as usize,
        ) && g[c.parents[v][i] as int] <= usize::MAX by {
            if v < n {
                assert(c.parents[v] == a.parents[v]);
                assert(a.parents[v][i] < v);
                assert(g[v] == f[v]);
                assert(b.parents[f[v]].contains(f[a.parents[v][i] as int] as usize));
            } else {
                lemma_places(a, e.parents);
                let list = places_as_named(a, e.parents);
                assert(list.contains(c.parents[v][i]));
                let k = list.index_of(c.parents[v][i]);
                let id = e.parents[k];
                assert(has_id(a, id));
                assert(c.parents[v][i] == place(a, id) as usize);
                assert(f[place(a, id)] == b.parents[w][k]);
                assert(b.parents[w].contains(b.parents[w][k]));
            }
        }
        assert forall|v: int, j: int|
            #![trigger b.parents[g[v]][j]]
            0 <= v < c.len() && 0 <= j < b.parents[g[v]].len() implies convergence::follows(
            c,
            g,
            v,
            b.parents[g[v]][j],
        ) by {
            if v < n {
                assert(g[v] == f[v]);
                assert(convergence::follows(a, f, v, b.parents[f[v]][j]));
                let i = choose|i: int|
                    0 <= i < a.parents[v].len() && f[#[trigger] a.parents[v][i] as int]
                        == b.parents[f[v]][j];
                assert(a.parents[v][i] < v);
                assert(c.parents[v] == a.parents[v]);
                assert(g[c.parents[v][i] as int] == b.parents[g[v]][j]);
            } else {
                let id = e.parents[j];
                assert(has_id(a, id));
                lemma_places(a, e.parents);
                let i = c.parents[v].index_of(place(a, id) as usize);
                assert(c.parents[v][i] == place(a, id) as usize);
                assert(g[c.parents[v][i] as int] == b.parents[g[v]][j]);
            }
        }
        lemma_few(c, b, g);
    }
}

/// A history that is part of another one has no more events.
proof fn lemma_few(a: Hist, b: Hist, f: Seq<int>)
    requires
        a.valid(),
        convergence::embeds(a, b, f),
    ensures
        a.len() <= b.len(),
{
    let n = b.len() as int;
    assert forall|v: int, w: int| 0 <= v < w < f.len() implies (#[trigger] f[v]) != (
    #[trigger] f[w]) by {
        assert(b.ids[f[v]] == a.ids[v]);
        assert(b.ids[f[w]] == a.ids[w]);
        assert(a.ids[v] != a.ids[w]);
    }
    assert(f.no_duplicates()) by {
        assert forall|v: int, w: int| 0 <= v < f.len() && 0 <= w < f.len() && v != w implies f[v]
            != f[w] by {
            if v < w {
                assert(f[v] != f[w]);
            } else {
                assert(f[w] != f[v]);
            }
        }
    }
    f.unique_seq_to_set();
    let all = Set::new(|x: int| 0 <= x < n);
    vstd::set_lib::lemma_int_range(0, n);
    assert(all =~= vstd::set_lib::set_int_range(0, n));
    assert(f.to_set().subset_of(all)) by {
        assert forall|x: int| f.to_set().contains(x) implies all.contains(x) by {
            let v = f.index_of(x);
            assert(f[v] == x);
        }
    }
    vstd::set_lib::lemma_len_subset(f.to_set(), all);
}

/// Taking up events of another history, each behind those that it follows, always
/// works, and makes a history of events of the other.
#[verifier::rlimit(50)]
pub proof fn law_received(a: Hist, b: Hist, f: Seq<int>, ws: Seq<int>)
    requires
        a.valid(),
        b.valid(),
        b.len() <= usize::MAX,
        convergence::embeds(a, b, f),
        in_causal_order(b, f, ws),
    ensures
        receivable(a, told_of(b, ws)),
        received_all(a, told_of(b, ws)).valid(),
        received_all(a, told_of(b, ws)).len() <= b.len(),
        convergence::embeds(received_all(a, told_of(b, ws)), b, sent_on(a, b, f, ws)),
        range_of(sent_on(a, b, f, ws)) == range_of(f).union(range_of(ws)),
    decreases ws.len(),
{
    let evs = told_of(b, ws);
    if ws.len() == 0 {
        assert(range_of(f) =~= range_of(f).union(range_of(ws)));
        lemma_few(a, b, f);
    } else {
        let less = ws.drop_last();
        let k = ws.len() - 1;
        let w = ws[k];
        assert(in_causal_order(b, f, less)) by {
            assert forall|i: int| 0 <= i < less.len() implies 0 <= (#[trigger] less[i])
                < b.len() by {
                assert(less[i] == ws[i]);
            }
            assert forall|i: int, j: int|
                #![trigger b.parents[less[i]][j]]
                0 <= i < less.len() && 0 <= j < b.parents[less[i]].len() implies f.contains(
                b.parents[less[i]][j] as int,
            ) || less.take(i).contains(b.parents[less[i]][j] as int) by {
                assert(less[i] == ws[i]);
                assert(less.take(i) =~= ws.take(i));
                assert(b.parents[ws[i]][j] == b.parents[less[i]][j]);
            }
        }
        law_received(a, b, f, less);
        assert(evs.drop_last() =~= told_of(b, less));
        assert(evs.last() == event_of(b, w));
        let mid = received_all(a, told_of(b, less));
        let g = sent_on(a, b, f, less);
        assert forall|j: int| 0 <= j < b.parents[w].len() implies g.contains(
            #[trigger] b.parents[w][j] as int,
        ) by {
            let p = b.parents[w][j] as int;
            assert(b.parents[ws[k]][j] as int == p);
            assert(ws.take(k) =~= less);
            assert(range_of(f).union(range_of(less)).contains(p));
            assert(range_of(g).contains(p));
        }
        lemma_sent_one(mid, b, g, w);
        let g2 = sent_on(a, b, f, ws);
        assert forall|x: int| #[trigger] range_of(g2).contains(x) == range_of(f).union(
            range_of(ws),
        ).contains(x) by {
            assert(range_of(g).contains(x) == range_of(f).union(range_of(less)).contains(x));
            if ws.contains(x) {
                let i = ws.index_of(x);
                if i < k {
                    assert(less[i] == x);
                }
            }
            if less.contains(x) {
                let i = less.index_of(x);
                assert(ws[i] == x);
            }
            assert(ws[k] == w);
            if g2 != g {
                if g2.contains(x) {
                    let i = g2.index_of(x);
                    if i < g.len() {
                        assert(g[i] == x);
                    }
                }
                if g.contains(x) {
                    let i = g.index_of(x);
                    assert(g2[i] == x);
                }
                assert(g2[g.len() as int] == w);
            } else {
                assert(g.contains(w));
            }
        }
        assert(range_of(g2) =~= range_of(f).union(range_of(ws)));
    }
}

/// What a peer shows that has taken up events of another is what the other shows of
/// the events that the two of them have.
pub proof fn law_received_document(a: Hist, b: Hist, f: Seq<int>, ws: Seq<int>)
    requires
        a.valid(),
        history::playable(b),
        b.len() <= usize::MAX,
        convergence::embeds(a, b, f),
        in_causal_order(b, f, ws),
    ensures
        ({
            let c = received_all(a, told_of(b, ws));
            &&& history::playable(c)
            &&& history::document(c, Set::new(|v: int| 0 <= v < c.len())) == history::document(
                b,
                range_of(f).union(range_of(ws)),
            )
        }),
{
    law_received(a, b, f, ws);
    let c = received_all(a, told_of(b, ws));
    let g = sent_on(a, b, f, ws);
    let all = Set::new(|v: int| 0 <= v < c.len());
    assert(history_laws::before(all, c.len() as int));
    convergence::law_convergence(c, b, g, all);
    assert(convergence::image(g, all) =~= range_of(g)) by {
        assert forall|x: int| #[trigger] convergence::image(g, all).contains(x) == range_of(
            g,
        ).contains(x) by {
            if g.contains(x) {
                let v = g.index_of(x);
                assert(all.contains(v) && g[v] == x);
            }
        }
    }
}

} // verus!
