//! What holds of a peer that is sent updates as edits.

use crate::braid;
use crate::encoding;
use crate::encoding::EncodeOptions;
use crate::encoding_laws;
use crate::events;
use crate::events::EventAbs;
use crate::full_range;
use crate::graph;
use crate::history;
use crate::history::Hist;
use crate::list_crdt;
use crate::observed_history;
use crate::observed_history::UpdateAbs;
use crate::operation::EvOp;
use crate::oplog;
use crate::oplog::ListOpLog;
use crate::rebuild;
use crate::remote_ops;
use crate::remote_ops::RemoteOp;
use crate::sorting;
use crate::text_laws;
use vstd::prelude::*;

verus! {

/// Whether an edit is what an update of a history says.
pub open spec fn op_says(h: Hist, u: UpdateAbs, op: RemoteOp) -> bool {
    &&& op.agent@ == u.name
    &&& op.seq == u.seq_end + 1 - (u.pos_end - u.pos_start)
    &&& sorting::texts_of(op.parents@).to_multiset() == braid::event_texts(
        events::ids_of(h, u.parents),
    ).to_multiset()
    &&& op.pos == u.pos_start
    &&& match u.content {
        Some(c) => op.del == 0 && (op.ins matches Some(text) && text@ == c),
        None => op.del == u.pos_end - u.pos_start,
    }
}

// ---- what an edit follows ----

/// Values of lists with the same elements are the same, in some order.
proof fn lemma_map_multiset<A, B>(a: Seq<A>, b: Seq<A>, f: spec_fn(A) -> B)
    requires
        a.to_multiset() == b.to_multiset(),
    ensures
        a.map_values(f).to_multiset() == b.map_values(f).to_multiset(),
    decreases a.len(),
{
    broadcast use vstd::seq_lib::group_to_multiset_ensures;

    assert(a.len() == a.to_multiset().len());
    assert(b.len() == b.to_multiset().len());
    if a.len() == 0 {
        assert(a.map_values(f) =~= b.map_values(f));
    } else {
        let x = a.last();
        assert(a.contains(x));
        assert(b.to_multiset().count(x) > 0);
        assert(b.contains(x));
        let i = b.index_of(x);
        let less = b.remove(i);
        let front = a.drop_last();
        assert(front.push(x) =~= a);
        assert(front.to_multiset().insert(x) =~= a.to_multiset());
        assert(less.to_multiset() =~= b.to_multiset().remove(x));
        assert(front.to_multiset() =~= less.to_multiset());
        lemma_map_multiset(front, less, f);
        let am = a.map_values(f);
        let bm = b.map_values(f);
        assert(front.map_values(f).push(f(x)) =~= am);
        assert(am.to_multiset() =~= front.map_values(f).to_multiset().insert(f(x)));
        assert(bm.remove(i) =~= less.map_values(f));
        assert(bm[i] == f(x));
        assert(bm.contains(f(x)));
        assert(bm.to_multiset() =~= less.map_values(f).to_multiset().insert(f(x)));
    }
}

/// Which event of a history a text names that names one.
spec fn found(h: Hist, s: Seq<char>) -> usize {
    remote_ops::named_event(h, s)->0 as usize
}

proof fn lemma_named_events(h: Hist, texts: Seq<Seq<char>>)
    requires
        remote_ops::all_named(h, texts),
    ensures
        remote_ops::named_events(h, texts) == texts.map_values(|s: Seq<char>| found(h, s)),
    decreases texts.len(),
{
    let f = |s: Seq<char>| found(h, s);
    if texts.len() == 0 {
        assert(remote_ops::named_events(h, texts) =~= texts.map_values(f));
    } else {
        let less = texts.drop_last();
        assert forall|i: int| 0 <= i < less.len() implies remote_ops::named_event(
            h,
            #[trigger] less[i],
        ) is Some by {
            assert(less[i] == texts[i]);
        }
        lemma_named_events(h, less);
        assert(remote_ops::named_event(h, texts[texts.len() - 1]) is Some);
        assert(texts.map_values(f) =~= less.map_values(f).push(f(texts.last())));
    }
}

/// The texts for known events, in any order, lead to these.
proof fn lemma_named_places(
    h: Hist,
    ids: Seq<(Seq<char>, int)>,
    texts: Seq<Seq<char>>,
)
    requires
        texts.to_multiset() == braid::event_texts(ids).to_multiset(),
        forall|i: int|
            0 <= i < ids.len() ==> events::has_id(h, #[trigger] ids[i]) && 0 <= ids[i].1
                <= usize::MAX,
    ensures
        remote_ops::all_named(h, texts),
        remote_ops::named_list(h, texts) == events::places(h, ids),
{
    broadcast use vstd::seq_lib::group_to_multiset_ensures;

    let told = braid::event_texts(ids);
    let f = |s: Seq<char>| found(h, s);
    assert forall|i: int| 0 <= i < told.len() implies remote_ops::named_event(
        h,
        #[trigger] told[i],
    ) == Some(events::place(h, ids[i])) by {
        assert(told[i] == braid::event_text(ids[i]));
        assert(events::has_id(h, ids[i]));
        text_laws::law_event_text(ids[i]);
    }
    assert forall|i: int| 0 <= i < texts.len() implies remote_ops::named_event(
        h,
        #[trigger] texts[i],
    ) is Some by {
        assert(texts.contains(texts[i]));
        assert(texts.to_multiset().count(texts[i]) > 0);
        assert(told.contains(texts[i]));
        let j = told.index_of(texts[i]);
        assert(remote_ops::named_event(h, told[j]) is Some);
    }
    lemma_named_events(h, texts);
    lemma_map_multiset(texts, told, f);
    assert(told.map_values(f) =~= events::places_as_named(h, ids));
    sorting::lemma_sorted(events::places_as_named(h, ids));
    assert(remote_ops::lists_named(h, texts, events::places(h, ids)));
    remote_ops::lemma_named_list(h, texts, events::places(h, ids));
}

// ---- one update ----

/// What the events of an update do.
spec fn update_events(u: UpdateAbs) -> Seq<EvOp> {
    observed_history::update_op(u).events()
}

proof fn lemma_told(h: Hist, u: UpdateAbs, op: RemoteOp)
    requires
        observed_history::update_true(h, u),
        op_says(h, u, op),
    ensures
        remote_ops::remote_events(op) == update_events(u),
        update_events(u).len() == u.pos_end - u.pos_start,
        forall|k: int|
            0 <= k < u.pos_end - u.pos_start ==> (#[trigger] observed_history::told(h, u)[k]).op
                == update_events(u)[k],
{
    let o = observed_history::update_op(u);
    assert(o.valid());
    assert(remote_ops::remote_events(op) =~= update_events(u));
    assert forall|k: int| 0 <= k < u.pos_end - u.pos_start implies (
    #[trigger] observed_history::told(h, u)[k]).op == update_events(u)[k] by {
        assert(observed_history::told(h, u)[k] == observed_history::told_event(h, u, k));
    }
}

proof fn lemma_skip_unknown(h: Hist, name: Seq<char>, from: int, to: int)
    requires
        from <= to,
        forall|seq: int| from <= seq < to ==> !#[trigger] events::has_id(h, (name, seq)),
    ensures
        remote_ops::skip_ids(h, name, from, to, false) == to,
    decreases to - from,
{
    if from < to {
        assert(!events::has_id(h, (name, from)));
        lemma_skip_unknown(h, name, from + 1, to);
    }
}

/// New events of one author, each of which follows the one before it, taken up one by one.
proof fn lemma_row_received(
    b: Hist,
    evs: Seq<EventAbs>,
    ops: Seq<EvOp>,
    name: Seq<char>,
    seq: int,
    k: int,
)
    requires
        b.valid(),
        b.len() + evs.len() <= usize::MAX,
        evs.len() == ops.len(),
        1 <= k <= evs.len(),
        forall|j: int|
            0 <= j < evs.len() ==> {
                &&& (#[trigger] evs[j]).id == (name, seq + j)
                &&& evs[j].op == ops[j]
                &&& j > 0 ==> evs[j].parents == seq![(name, seq + j - 1)]
                &&& !events::has_id(b, evs[j].id)
            },
        events::follows_known(b, evs[0]),
    ensures
        events::receivable(b, evs.take(k)),
        events::received_all(b, evs.take(k)) == oplog::extended(
            b,
            events::places(b, evs[0].parents),
            name,
            seq,
            ops.take(k),
        ),
    decreases k,
{
    let parents = events::places(b, evs[0].parents);
    let list = evs.take(k);
    let less = evs.take(k - 1);
    let e = evs[k - 1];
    let n = b.len() as int;
    assert(list.drop_last() =~= less);
    assert(list.last() == e);
    let out = oplog::extended(b, parents, name, seq, ops.take(k));
    if k == 1 {
        assert(less =~= Seq::<EventAbs>::empty());
        assert(events::received_all(b, less) == b);
        assert(events::receivable(b, less));
        let r = events::received(b, e);
        assert(r.parents =~= out.parents);
        assert(r.ops =~= out.ops);
        assert(r.ids =~= out.ids);
    } else {
        lemma_row_received(b, evs, ops, name, seq, k - 1);
        events::lemma_received_len(b, less);
        events::lemma_received_all(b, less);
        let mid = events::received_all(b, less);
        assert(mid == oplog::extended(b, parents, name, seq, ops.take(k - 1)));
        assert(mid.len() == n + k - 1);
        assert(!events::has_id(mid, e.id)) by {
            if events::has_id(mid, e.id) {
                let v = events::place(mid, e.id);
                assert(mid.ids[v] == e.id);
                if v < n {
                    assert(b.ids[v] == e.id);
                    assert(events::has_id(b, evs[k - 1].id));
                }
            }
        }
        let last = n + k - 2;
        assert(mid.ids[last] == (name, seq + k - 2));
        assert(evs[k - 1].parents == seq![(name, seq + (k - 1) - 1)]);
        events::lemma_place(mid, last);
        assert(events::places_as_named(mid, e.parents) =~= seq![last as usize]);
        sorting::lemma_sorted_unique(seq![last as usize], seq![last as usize]);
        assert(events::follows_known(mid, e));
        let r = events::received(mid, e);
        assert(r.parents =~= out.parents);
        assert(r.ops =~= out.ops);
        assert(r.ids =~= out.ids);
    }
}

/// An edit that is what an update says, sent to a peer that knows what it follows and none
/// of it, adds the events of the update.
pub proof fn law_update_sent(h: Hist, b: Hist, u: UpdateAbs, op: RemoteOp)
    requires
        h.valid(),
        b.valid(),
        b.len() + (u.pos_end - u.pos_start) <= usize::MAX,
        observed_history::update_true(h, u),
        op_says(h, u, op),
        forall|k: int|
            0 <= k < u.pos_end - u.pos_start ==> !events::has_id(
                b,
                (#[trigger] observed_history::told(h, u)[k]).id,
            ),
        forall|i: int|
            0 <= i < u.parents.len() ==> {
                &&& events::has_id(b, h.ids[(#[trigger] u.parents[i]) as int])
                &&& 0 <= h.ids[u.parents[i] as int].1 <= usize::MAX
            },
    ensures
        remote_ops::recordable(b, op),
        remote_ops::recorded(b, op) == events::received_all(b, observed_history::told(h, u)),
        events::receivable(b, observed_history::told(h, u)),
{
    let evs = observed_history::told(h, u);
    let ops = update_events(u);
    let ids = events::ids_of(h, u.parents);
    let n = u.pos_end - u.pos_start;
    let seq = u.seq_end + 1 - n;
    lemma_told(h, u, op);
    assert forall|i: int| 0 <= i < ids.len() implies events::has_id(b, #[trigger] ids[i]) && 0
        <= ids[i].1 <= usize::MAX by {
        assert(ids[i] == h.ids[u.parents[i] as int]);
    }
    lemma_named_places(b, ids, sorting::texts_of(op.parents@));
    assert forall|j: int| 0 <= j < evs.len() implies {
        &&& (#[trigger] evs[j]).id == (u.name, seq + j)
        &&& evs[j].op == ops[j]
        &&& j > 0 ==> evs[j].parents == seq![(u.name, seq + j - 1)]
        &&& !events::has_id(b, evs[j].id)
    } by {
        assert(evs[j] == observed_history::told_event(h, u, j));
    }
    assert(evs[0].parents =~= ids);
    assert(events::follows_known(b, evs[0]));
    lemma_row_received(b, evs, ops, u.name, seq, n);
    assert(evs.take(n) =~= evs);
    assert(ops.take(n) =~= ops);
    assert forall|s: int| seq <= s < seq + n implies !#[trigger] events::has_id(
        b,
        (u.name, s),
    ) by {
        assert(evs[s - seq].id == (u.name, s));
    }
    lemma_skip_unknown(b, u.name, seq, seq + n);
    assert(!events::has_id(b, (u.name, seq)));
    assert(ops.subrange(0, n) =~= ops);
}

// ---- all updates ----

/// What events, taken up behind others, come to.
proof fn lemma_received_concat(h: Hist, a: Seq<EventAbs>, b: Seq<EventAbs>)
    ensures
        events::received_all(h, a + b) == events::received_all(events::received_all(h, a), b),
        events::receivable(h, a + b) == (events::receivable(h, a) && events::receivable(
            events::received_all(h, a),
            b,
        )),
    decreases b.len(),
{
    if b.len() == 0 {
        assert(a + b =~= a);
    } else {
        lemma_received_concat(h, a, b.drop_last());
        assert((a + b).drop_last() =~= a + b.drop_last());
    }
}

/// A history holds no other events than it did and than were taken up.
proof fn lemma_id_source(h: Hist, evs: Seq<EventAbs>, id: (Seq<char>, int))
    requires
        h.valid(),
        h.len() + evs.len() <= usize::MAX,
        events::receivable(h, evs),
        events::has_id(events::received_all(h, evs), id),
    ensures
        events::has_id(h, id) || exists|i: int| 0 <= i < evs.len() && (#[trigger] evs[i]).id == id,
    decreases evs.len(),
{
    if evs.len() > 0 {
        let less = evs.drop_last();
        let mid = events::received_all(h, less);
        events::lemma_received_len(h, less);
        events::lemma_received_all(h, less);
        events::lemma_received(mid, evs.last());
        if events::has_id(mid, id) {
            lemma_id_source(h, less, id);
            if !events::has_id(h, id) {
                let i = choose|i: int| 0 <= i < less.len() && (#[trigger] less[i]).id == id;
                assert(evs[i].id == id);
            }
        } else {
            assert(evs[evs.len() - 1].id == id);
        }
    }
}

/// Whether events are all different ones, none of which a history holds.
spec fn all_new(h: Hist, evs: Seq<EventAbs>) -> bool {
    &&& forall|i: int| 0 <= i < evs.len() ==> !events::has_id(h, (#[trigger] evs[i]).id)
    &&& forall|i: int, j: int|
        0 <= i < j < evs.len() ==> (#[trigger] evs[i]).id != (#[trigger] evs[j]).id
}

#[verifier::rlimit(40)]
proof fn lemma_updates_sent(h: Hist, c: Hist, list: Seq<UpdateAbs>, ops: Seq<RemoteOp>)
    requires
        h.valid(),
        forall|v: int| 0 <= v < h.len() ==> 0 <= (#[trigger] h.ids[v]).1 <= usize::MAX,
        c.valid(),
        observed_history::updates_true(h, list),
        ops.len() == list.len(),
        forall|i: int| 0 <= i < list.len() ==> op_says(h, list[i], #[trigger] ops[i]),
        c.len() + observed_history::told_all(h, list).len() <= usize::MAX,
        events::receivable(c, observed_history::told_all(h, list)),
        all_new(c, observed_history::told_all(h, list)),
    ensures
        list_crdt::recordable_all(c, ops),
        list_crdt::recorded_all(c, ops) == events::received_all(
            c,
            observed_history::told_all(h, list),
        ),
    decreases list.len(),
{
    if list.len() > 0 {
        let k = list.len() - 1;
        let less = list.drop_last();
        let front = ops.drop_last();
        let u = list[k];
        let evs = observed_history::told_all(h, list);
        let a = observed_history::told_all(h, less);
        let b = observed_history::told(h, u);
        assert(evs == a + b);
        assert(observed_history::update_true(h, list[k]));
        assert(b.len() == u.pos_end - u.pos_start);
        lemma_received_concat(c, a, b);
        assert forall|i: int| 0 <= i < less.len() implies observed_history::update_true(
            h,
            #[trigger] less[i],
        ) by {
            assert(less[i] == list[i]);
        }
        assert forall|i: int| 0 <= i < less.len() implies op_says(
            h,
            less[i],
            #[trigger] front[i],
        ) by {
            assert(front[i] == ops[i]);
        }
        assert(all_new(c, a)) by {
            assert forall|i: int| 0 <= i < a.len() implies !events::has_id(
                c,
                (#[trigger] a[i]).id,
            ) by {
                assert(a[i] == evs[i]);
            }
            assert forall|i: int, j: int| 0 <= i < j < a.len() implies (#[trigger] a[i]).id != (
            #[trigger] a[j]).id by {
                assert(a[i] == evs[i] && a[j] == evs[j]);
            }
        }
        lemma_updates_sent(h, c, less, front);
        let mid = events::received_all(c, a);
        events::lemma_received_len(c, a);
        events::lemma_received_all(c, a);
        assert forall|j: int| 0 <= j < u.pos_end - u.pos_start implies !events::has_id(
            mid,
            (#[trigger] b[j]).id,
        ) by {
            assert(evs[a.len() + j] == b[j]);
            if events::has_id(mid, b[j].id) {
                lemma_id_source(c, a, b[j].id);
                let i = choose|i: int| 0 <= i < a.len() && (#[trigger] a[i]).id == b[j].id;
                assert(evs[i] == a[i]);
                assert(evs[i].id != evs[a.len() + j].id);
            }
        }
        assert(events::follows_known(mid, b[0])) by {
            assert(b.take(1) + b.skip(1) =~= b);
            lemma_received_concat(mid, b.take(1), b.skip(1));
            assert(b.take(1).drop_last() =~= Seq::<EventAbs>::empty());
            assert(events::received_all(mid, b.take(1).drop_last()) == mid);
            assert(b.take(1).last() == b[0]);
        }
        assert forall|i: int| 0 <= i < u.parents.len() implies {
            &&& events::has_id(mid, h.ids[(#[trigger] u.parents[i]) as int])
            &&& 0 <= h.ids[u.parents[i] as int].1 <= usize::MAX
        } by {
            assert(b[0].parents[i] == h.ids[u.parents[i] as int]);
            assert(u.parents[i] < h.len());
        }
        assert(op_says(h, list[k], ops[k]));
        law_update_sent(h, mid, u, ops[k]);
    }
}

/// Events of a history that are chosen are different ones, each of which is chosen.
proof fn lemma_chosen_ids(h: Hist, n: int, chosen: spec_fn(int) -> bool)
    requires
        h.valid(),
        0 <= n <= h.len(),
    ensures
        forall|i: int|
            0 <= i < events::events_chosen(h, n, chosen).len() ==> is_chosen(
                h,
                n,
                chosen,
                #[trigger] events::events_chosen(h, n, chosen)[i],
            ),
        forall|i: int, j: int|
            0 <= i < j < events::events_chosen(h, n, chosen).len() ==> (
            #[trigger] events::events_chosen(h, n, chosen)[i]).id != (
            #[trigger] events::events_chosen(h, n, chosen)[j]).id,
    decreases n,
{
    if n > 0 {
        lemma_chosen_ids(h, n - 1, chosen);
        let before = events::events_chosen(h, n - 1, chosen);
        let all = events::events_chosen(h, n, chosen);
        assert forall|i: int| 0 <= i < all.len() implies is_chosen(
            h,
            n,
            chosen,
            #[trigger] all[i],
        ) by {
            if i < before.len() {
                assert(all[i] == before[i]);
                assert(is_chosen(h, n - 1, chosen, before[i]));
                let v = choose|v: int|
                    0 <= v < n - 1 && chosen(v) && #[trigger] h.ids[v] == before[i].id;
                assert(h.ids[v] == all[i].id);
            } else {
                assert(h.ids[n - 1] == all[i].id);
            }
        }
        assert forall|i: int, j: int| 0 <= i < j < all.len() implies (#[trigger] all[i]).id != (
        #[trigger] all[j]).id by {
            assert(all[i] == before[i]);
            if j < before.len() {
                assert(all[j] == before[j]);
            } else {
                assert(is_chosen(h, n - 1, chosen, before[i]));
                let v = choose|v: int|
                    0 <= v < n - 1 && chosen(v) && #[trigger] h.ids[v] == before[i].id;
                assert(h.ids[v] != h.ids[n - 1]);
            }
        }
    }
}

/// Whether an event is one of those that are chosen.
spec fn is_chosen(h: Hist, n: int, chosen: spec_fn(int) -> bool, e: EventAbs) -> bool {
    exists|v: int| 0 <= v < n && chosen(v) && #[trigger] h.ids[v] == e.id
}

/// A peer that knows what a version had seen, and is sent as edits the updates that the
/// version has not seen, reads what the log with all events reads, and has its newest events.
pub proof fn law_updates_sent(
    log: ListOpLog,
    version: Seq<usize>,
    ops: Seq<RemoteOp>,
    id: (Seq<char>, int),
)
    requires
        log.inv(),
        history::playable(log.hist()),
        graph::known(log.cg.parents(), version),
        ops.len() == observed_history::updates_from(log, version).len(),
        forall|i: int|
            0 <= i < ops.len() ==> op_says(
                log.hist(),
                observed_history::updates_from(log, version)[i],
                #[trigger] ops[i],
            ),
    ensures
        ({
            let h = log.hist();
            let seen = events::events_chosen(
                h,
                log.size(),
                |v: int| graph::in_cone(log.cg.parents(), version, v),
            );
            let c = events::received_all(events::nothing(), seen);
            let d = list_crdt::recorded_all(c, ops);
            &&& list_crdt::recordable_all(c, ops)
            &&& history::playable(d)
            &&& history::document(d, Set::new(|v: int| 0 <= v < d.len())) == history::document(
                h,
                Set::new(|v: int| 0 <= v < log.size()),
            )
            &&& encoding_laws::newest_in(d, Set::new(|v: int| 0 <= v < d.len()), id)
                == encoding_laws::newest_in(h, Set::new(|v: int| 0 <= v < log.size()), id)
        }),
{
    let h = log.hist();
    let n = log.size();
    let g = log.cg.parents();
    let chosen = |v: int| graph::in_cone(g, version, v);
    let other = |v: int| !graph::in_cone(g, version, v);
    let seen = events::events_chosen(h, n, chosen);
    let rest = events::events_chosen(h, n, other);
    let c = events::received_all(events::nothing(), seen);
    let list = observed_history::updates_from(log, version);
    log.lemma_hist();
    observed_history::law_updates_since(log, version);
    observed_history::lemma_updates_true(log, version);
    encoding_laws::lemma_exchanged(log, version, id);
    lemma_chosen_ids(h, n, chosen);
    lemma_chosen_ids(h, n, other);
    assert forall|v: int| 0 <= v < h.len() implies 0 <= (#[trigger] h.ids[v]).1
        <= usize::MAX by {
        log.lemma_event_fits(v);
        assert(events::event_of(h, v).id == h.ids[v]);
    }
    assert(all_new(c, rest)) by {
        assert forall|i: int| 0 <= i < rest.len() implies !events::has_id(
            c,
            (#[trigger] rest[i]).id,
        ) by {
            assert(is_chosen(h, n, other, rest[i]));
            let w = choose|w: int| 0 <= w < n && other(w) && #[trigger] h.ids[w] == rest[i].id;
            if events::has_id(c, rest[i].id) {
                lemma_id_source(events::nothing(), seen, rest[i].id);
                let j = choose|j: int| 0 <= j < seen.len() && (#[trigger] seen[j]).id == rest[i].id;
                assert(is_chosen(h, n, chosen, seen[j]));
                let v = choose|v: int| 0 <= v < n && chosen(v) && #[trigger] h.ids[v] == seen[j].id;
                if v < w {
                    assert(h.ids[v] != h.ids[w]);
                } else if w < v {
                    assert(h.ids[w] != h.ids[v]);
                }
            }
        }
    }
    lemma_updates_sent(h, c, list, ops);
}

// ---- all of a log ----

/// A peer that knows nothing, and is sent as edits all updates of a log in which what each
/// event follows stands in order, has the same history.
pub proof fn law_rebuilt(log: ListOpLog, ops: Seq<RemoteOp>)
    requires
        log.inv(),
        events::parents_in_order(log.hist()),
        ops.len() == observed_history::updates_from(log, Seq::empty()).len(),
        forall|i: int|
            0 <= i < ops.len() ==> op_says(
                log.hist(),
                observed_history::updates_from(log, Seq::empty())[i],
                #[trigger] ops[i],
            ),
    ensures
        list_crdt::recordable_all(events::nothing(), ops),
        list_crdt::recorded_all(events::nothing(), ops) == log.hist(),
{
    let h = log.hist();
    let n = log.size();
    let none = Seq::<usize>::empty();
    let other = |v: int| !graph::in_cone(log.cg.parents(), none, v);
    let list = observed_history::updates_from(log, none);
    let evs = events::events_chosen(h, n, other);
    log.lemma_hist();
    observed_history::law_updates_since(log, none);
    observed_history::lemma_updates_true(log, none);
    assert forall|v: int| 0 <= v < n implies #[trigger] other(v) by {}
    rebuild::lemma_span(h, 0, n, other);
    assert(events::events_chosen(h, 0, other) =~= Seq::<EventAbs>::empty());
    assert(evs =~= events::events_between(h, 0, n));
    events::law_all_received(h);
    lemma_chosen_ids(h, n, other);
    assert forall|v: int| 0 <= v < h.len() implies 0 <= (#[trigger] h.ids[v]).1
        <= usize::MAX by {
        log.lemma_event_fits(v);
        assert(events::event_of(h, v).id == h.ids[v]);
    }
    assert(all_new(events::nothing(), evs));
    lemma_updates_sent(h, events::nothing(), list, ops);
}

// ---- updates taken up under their local versions ----

/// The count of the first event of an update.
pub open spec fn first_seq(u: UpdateAbs) -> int {
    u.seq_end + 1 - (u.pos_end - u.pos_start)
}

/// The history with updates taken up one after the other, each of which follows the events
/// with the local versions that it names.
pub open spec fn taken_up_all(h: Hist, list: Seq<UpdateAbs>) -> Hist
    decreases list.len(),
{
    if list.len() == 0 {
        h
    } else {
        let u = list.last();
        remote_ops::taken_up(
            taken_up_all(h, list.drop_last()),
            u.parents,
            u.name,
            first_seq(u),
            observed_history::update_op(u).events(),
        )
    }
}

/// A run of events behind those before it makes the history up to it.
proof fn lemma_run_taken_up(h: Hist, u: UpdateAbs, n: int)
    requires
        h.valid(),
        0 <= n,
        full_range::is_run(
            h,
            n,
            observed_history::update_op(u),
            u.parents,
            u.name,
            first_seq(u),
        ),
    ensures
        remote_ops::taken_up(
            events::first(h, n),
            u.parents,
            u.name,
            first_seq(u),
            observed_history::update_op(u).events(),
        ) == events::first(h, n + observed_history::update_op(u).size()),
        graph::known(events::first(h, n).parents, u.parents),
{
    let op = observed_history::update_op(u);
    let evs = op.events();
    let k = op.size();
    let seq = first_seq(u);
    let a = events::first(h, n);
    let b = events::first(h, n + k);
    assert forall|s: int| seq <= s < seq + k implies !#[trigger] events::has_id(
        a,
        (u.name, s),
    ) by {
        if events::has_id(a, (u.name, s)) {
            let v = events::place(a, (u.name, s));
            assert(a.ids[v] == (u.name, s));
            assert(h.ids[v] == (u.name, s));
            assert(h.ids[n + (s - seq)] == (u.name, s));
            assert(h.ids[v] != h.ids[n + (s - seq)]);
        }
    }
    lemma_skip_unknown(a, u.name, seq, seq + k);
    assert(!events::has_id(a, (u.name, seq)));
    assert(remote_ops::skip_ids(a, u.name, seq, seq + k, true) == seq);
    assert(evs.subrange(0, k) =~= evs);
    let out = oplog::extended(a, u.parents, u.name, seq, evs);
    assert(h.parents[n + 0] == u.parents);
    assert forall|v: int| 0 <= v < n + k implies out.parents[v] == #[trigger] b.parents[v] by {
        if v >= n {
            assert(h.parents[n + (v - n)] == b.parents[v]);
        }
    }
    assert(out.parents =~= b.parents);
    assert forall|v: int| 0 <= v < n + k implies out.ops[v] == #[trigger] b.ops[v] by {
        if v >= n {
            assert(h.ops[n + (v - n)] == b.ops[v]);
        }
    }
    assert(out.ops =~= b.ops);
    assert forall|v: int| 0 <= v < n + k implies out.ids[v] == #[trigger] b.ids[v] by {
        if v >= n {
            assert(h.ids[n + (v - n)] == b.ids[v]);
        }
    }
    assert(out.ids =~= b.ids);
    assert forall|i: int| 0 <= i < u.parents.len() implies (#[trigger] u.parents[i])
        < a.parents.len() by {
        assert(h.parents[n][i] < n);
    }
}

proof fn lemma_taken_up_all(h: Hist, list: Seq<UpdateAbs>, n: int)
    requires
        h.valid(),
        0 <= n <= h.len(),
        observed_history::updates_true(h, list),
        observed_history::told_all(h, list) == events::events_between(h, 0, n),
    ensures
        taken_up_all(events::nothing(), list) == events::first(h, n),
        forall|i: int|
            0 <= i < list.len() ==> graph::known(
                taken_up_all(events::nothing(), list.take(i)).parents,
                (#[trigger] list[i]).parents,
            ),
    decreases list.len(),
{
    if list.len() == 0 {
        assert(events::events_between(h, 0, n).len() == 0);
        assert(events::first(h, 0) =~= events::nothing());
    } else {
        let j = list.len() - 1;
        let less = list.drop_last();
        let u = list[j];
        let op = observed_history::update_op(u);
        let k = op.size();
        let all = events::events_between(h, 0, n);
        let a = observed_history::told_all(h, less);
        let b = observed_history::told(h, u);
        assert(observed_history::update_true(h, list[j]));
        let first = choose|first: int|
            #[trigger] full_range::is_run(h, first, op, u.parents, u.name, first_seq(u));
        assert(all == a + b);
        assert(b.len() == k);
        assert(a =~= events::events_between(h, 0, n - k)) by {
            assert(a =~= all.take(n - k));
        }
        assert(first == n - k) by {
            assert(all[n - k] == b[0]);
            assert(b[0] == observed_history::told_event(h, u, 0));
            assert(all[n - k] == events::event_of(h, n - k));
            assert(h.ids[n - k] == (u.name, first_seq(u)));
            assert(h.ids[first + 0] == (u.name, first_seq(u)));
            if first < n - k {
                assert(h.ids[first] != h.ids[n - k]);
            } else if n - k < first {
                assert(h.ids[n - k] != h.ids[first]);
            }
        }
        assert forall|i: int| 0 <= i < less.len() implies observed_history::update_true(
            h,
            #[trigger] less[i],
        ) by {
            assert(less[i] == list[i]);
        }
        lemma_taken_up_all(h, less, n - k);
        lemma_run_taken_up(h, u, n - k);
        assert forall|i: int| 0 <= i < list.len() implies graph::known(
            taken_up_all(events::nothing(), list.take(i)).parents,
            (#[trigger] list[i]).parents,
        ) by {
            if i < j {
                assert(less[i] == list[i]);
                assert(less.take(i) =~= list.take(i));
            } else {
                assert(list.take(i) =~= less);
            }
        }
    }
}

/// All updates of a log, taken up one after the other under the local versions that they name,
/// make the history again: each one finds what it follows, and what is written of it, its
/// newest events and its document are those of the log.
pub proof fn law_taken_up_again(log: ListOpLog, opts: EncodeOptions, id: (Seq<char>, int))
    requires
        log.inv(),
    ensures
        ({
            let list = observed_history::updates_from(log, Seq::empty());
            let h = taken_up_all(events::nothing(), list);
            let all = Set::new(|v: int| 0 <= v < log.size());
            &&& h == log.hist()
            &&& forall|i: int|
                0 <= i < list.len() ==> graph::known(
                    taken_up_all(events::nothing(), list.take(i)).parents,
                    (#[trigger] list[i]).parents,
                )
            &&& history::document(h, Set::new(|v: int| 0 <= v < h.len())) == history::document(
                log.hist(),
                all,
            )
            &&& encoding_laws::newest_in(h, Set::new(|v: int| 0 <= v < h.len()), id)
                == encoding_laws::newest_in(log.hist(), all, id)
            &&& encoding::encoded(events::events_between(h, 0, h.len() as int), opts)
                == encoding::encoded(
                events::events_between(log.hist(), 0, log.size()),
                opts,
            )
        }),
{
    let h = log.hist();
    let n = log.size();
    let none = Seq::<usize>::empty();
    let other = |v: int| !graph::in_cone(log.cg.parents(), none, v);
    let list = observed_history::updates_from(log, none);
    log.lemma_hist();
    observed_history::law_updates_since(log, none);
    observed_history::lemma_updates_true(log, none);
    assert forall|v: int| 0 <= v < n implies #[trigger] other(v) by {}
    rebuild::lemma_span(h, 0, n, other);
    assert(events::events_chosen(h, 0, other) =~= Seq::<EventAbs>::empty());
    assert(events::events_chosen(h, n, other) =~= events::events_between(h, 0, n));
    lemma_taken_up_all(h, list, n);
    assert(events::first(h, n) =~= h);
}

} // verus!
