//! What holds of documents, and of what can be made of them.

use crate::agent_assignment::AgentId;
use crate::braid;
use crate::braid::TextPatch;
use crate::causal_graph;
use crate::decoding;
use crate::decoding::ParseError;
use crate::doc;
use crate::events;
use crate::events::EventAbs;
use crate::extension;
use crate::graph;
use crate::history;
use crate::history::Hist;
use crate::list_crdt;
use crate::list_crdt::ListCRDT;
use crate::names;
use crate::operation::EvOp;
use crate::oplog::ListOpLog;
use crate::patches;
use crate::patches::Patch;
use crate::record_laws;
use crate::relative_to_absolute;
use crate::remote_ops;
use crate::remote_ops::RemoteOp;
use crate::segments::HUGE;
use crate::ties;
use crate::xf_absolute;
use vstd::prelude::*;
use vstd::utf8::*;

verus! {

// ---- histories of documents ----

/// One event more finds its place if its position is one of the document that its author saw:
/// an insert goes before a character or to the end, a delete takes a character away.
pub proof fn law_playable(a: Hist, b: Hist)
    requires
        a.valid(),
        b.valid(),
        extension::prefix(a, b),
        b.len() == a.len() + 1,
    ensures
        ({
            let n = a.len() as int;
            let doc = history::document(a, a.version(b.parents[n]));
            history::playable(b) <==> history::playable(a) && match b.ops[n] {
                EvOp::Ins { pos, .. } => 0 <= pos <= doc.len(),
                EvOp::Del { pos } => 0 <= pos < doc.len(),
            }
        }),
        history::playable(events::nothing()),
        history::document(events::nothing(), Set::empty()) == Seq::<char>::empty(),
{
    let n = a.len() as int;
    extension::lemma_prefix_playable(a, b, n);
    assert(graph::known(a.parents, b.parents[n])) by {
        assert forall|i: int| 0 <= i < b.parents[n].len() implies (#[trigger] b.parents[n][i])
            < a.parents.len() by {}
    }
    extension::lemma_prefix_version(a, b, b.parents[n]);
    assert(b.seen_by(n) =~= a.version(b.parents[n]));
    if history::playable_to(a, n) {
        extension::lemma_prefix_text(a, b, n, a.version(b.parents[n]));
    }
    if history::playable(b) {
        assert(history::placed(b, n));
        assert(history::playable_to(b, n));
    }
    if history::playable_to(b, n) && history::placed(b, n) {
        assert(history::playable_to(b, n + 1));
    }
    assert(history::document(events::nothing(), Set::empty()) =~= Seq::<char>::empty());
}

/// Events whose authors knew of all events before theirs make a document one after the
/// other.
pub proof fn law_one_after_other(h: Hist, v: int)
    requires
        history::playable(h),
        0 <= v < h.len(),
        h.seen_by(v) == Set::new(|a: int| 0 <= a < v),
    ensures
        ({
            let was = history::document(h, Set::new(|a: int| 0 <= a < v));
            let now = history::document(h, Set::new(|a: int| 0 <= a < v + 1));
            now == match h.ops[v] {
                EvOp::Ins { pos, ch } => was.take(pos) + seq![ch] + was.skip(pos),
                EvOp::Del { pos } => was.take(pos) + was.skip(pos + 1),
            }
        }),
{
    let s = Set::new(|a: int| 0 <= a < v);
    let more = Set::new(|a: int| 0 <= a < v + 1);
    assert(more =~= s.insert(v));
    ties::lemma_alone(h, s, v);
    let was = history::document(h, s);
    assert(history::document(h, more) =~= match h.ops[v] {
        EvOp::Ins { pos, ch } => was.take(pos) + seq![ch] + was.skip(pos),
        EvOp::Del { pos } => was.take(pos) + was.skip(pos + 1),
    });
}

/// A document that stands at the newest version reads as all events make it; the newest
/// events are those that no other one follows.
pub proof fn law_at_tip(list: ListCRDT, x: usize)
    requires
        list.inv(),
        list.at_tip(),
    ensures
        list.branch.content@ == history::document(
            list.oplog.hist(),
            Set::new(|v: int| 0 <= v < list.oplog.hist().len()),
        ),
        forall|i: int, j: int|
            0 <= i < j < list.branch.version@.len() ==> list.branch.version@[i]
                < list.branch.version@[j],
        list.branch.version@.contains(x) <==> x < list.oplog.hist().len() && forall|v: int|
            0 <= v < list.oplog.hist().len() ==> !(#[trigger] list.oplog.hist().parents[v]).contains(
                x,
            ),
{
    let h = list.oplog.hist();
    list.oplog.lemma_hist();
    let front = list.branch.version@;
    assert(causal_graph::is_tips(h.parents, front));
    if front.contains(x) {
        assert forall|v: int| 0 <= v < h.len() implies !(#[trigger] h.parents[v]).contains(x) by {
            if h.parents[v].contains(x) {
                assert(causal_graph::has_child(h.parents, x as int));
            }
        }
    }
}

/// A document reads as the events make it that its version has seen.
pub proof fn law_reads(list: ListCRDT)
    requires
        list.inv(),
    ensures
        list.branch.content@ == history::document(
            list.oplog.hist(),
            Set::new(
                |v: int| graph::in_cone(list.oplog.hist().parents, list.branch.version@, v),
            ),
        ),
{
    let h = list.oplog.hist();
    assert(h.version(list.branch.version@) =~= Set::new(
        |v: int| graph::in_cone(h.parents, list.branch.version@, v),
    ));
}

// ---- what can be taken up ----

/// An edit can be counted if its author can have the name, and its positions, its counts, the
/// events and the agents can be numbered.
pub proof fn law_has_room(log: ListOpLog, op: RemoteOp)
    requires
        log.inv(),
        op.agent@ != seq!['R', 'O', 'O', 'T'],
        encode_utf8(op.agent@).len() < 50,
        op.pos + record_laws::edit_len(op) <= usize::MAX,
        op.seq + record_laws::edit_len(op) <= usize::MAX,
        log.size() + record_laws::edit_len(op) <= usize::MAX,
        log.names().contains(op.agent@) || log.names().len() < AgentId::MAX,
    ensures
        remote_ops::has_room(log, op),
        op.fits(),
{
    crate::agent_assignment::law_name_fits(op.agent@);
    assert(remote_ops::remote_events(op).len() == record_laws::edit_len(op));
    remote_ops::lemma_new_count(
        log.hist(),
        op.agent@,
        op.seq as int,
        remote_ops::remote_events(op).len(),
    );
}

/// An edit can be recorded if all that it follows is known.
pub proof fn law_recordable(h: Hist, op: RemoteOp)
    ensures
        remote_ops::recordable(h, op) <==> forall|i: int|
            0 <= i < op.parents@.len() ==> remote_ops::named_event(
                h,
                (#[trigger] op.parents@[i])@,
            ) is Some,
{
    let texts = crate::sorting::texts_of(op.parents@);
    if remote_ops::recordable(h, op) {
        assert forall|i: int| 0 <= i < op.parents@.len() implies remote_ops::named_event(
            h,
            (#[trigger] op.parents@[i])@,
        ) is Some by {
            assert(remote_ops::named_event(h, texts[i]) is Some);
        }
    }
    if forall|i: int|
        0 <= i < op.parents@.len() ==> remote_ops::named_event(
            h,
            (#[trigger] op.parents@[i])@,
        ) is Some {
        assert forall|i: int| 0 <= i < texts.len() implies remote_ops::named_event(
            h,
            #[trigger] texts[i],
        ) is Some by {
            assert(texts[i] == op.parents@[i]@);
        }
    }
}

/// Names to which one is added: the same if it is there, and else the others and it behind
/// them.
pub proof fn law_with_name(known: Seq<Seq<char>>, name: Seq<char>)
    ensures
        (exists|i: int| 0 <= i < known.len() && #[trigger] known[i] == name) ==> names::with_name(
            known,
            name,
        ) == known,
        (forall|i: int| 0 <= i < known.len() ==> #[trigger] known[i] != name) ==> names::with_name(
            known,
            name,
        ) == known + seq![name],
{
    if forall|i: int| 0 <= i < known.len() ==> #[trigger] known[i] != name {
        assert(!known.contains(name));
        assert(known.push(name) =~= known + seq![name]);
    }
}

/// Whether an event is one of a history, or of those that are told before number `i`.
pub open spec fn told_by(h: Hist, evs: Seq<EventAbs>, i: int, id: (Seq<char>, int)) -> bool {
    ||| exists|v: int| 0 <= v < h.ids.len() && #[trigger] h.ids[v] == id
    ||| exists|j: int| 0 <= j < i && (#[trigger] evs[j]).id == id
}

/// Events that can be taken up one after the other are then known, besides those that were.
pub proof fn law_ids_received(h: Hist, evs: Seq<EventAbs>, id: (Seq<char>, int))
    ensures
        events::has_id(events::received_all(h, evs), id) <==> told_by(
            h,
            evs,
            evs.len() as int,
            id,
        ),
    decreases evs.len(),
{
    let n = evs.len() as int;
    if n == 0 {
        if events::has_id(h, id) {
            let v = choose|v: int| 0 <= v < h.ids.len() && #[trigger] h.ids[v] == id;
            assert(h.ids[v] == id);
        }
    } else {
        let less = evs.drop_last();
        let was = events::received_all(h, less);
        let now = events::received_all(h, evs);
        let e = evs[n - 1];
        law_ids_received(h, less, id);
        law_ids_received(h, less, e.id);
        if events::has_id(now, id) {
            let v = choose|v: int| 0 <= v < now.ids.len() && #[trigger] now.ids[v] == id;
            if v < was.ids.len() {
                assert(was.ids[v] == id);
            }
        }
        if events::has_id(was, id) {
            let v = choose|v: int| 0 <= v < was.ids.len() && #[trigger] was.ids[v] == id;
            assert(now.ids[v] == id);
        }
        if id == e.id && !events::has_id(was, id) {
            assert(now.ids[was.ids.len() as int] == id);
        }
        if told_by(h, less, n - 1, id) {
            if !(exists|v: int| 0 <= v < h.ids.len() && #[trigger] h.ids[v] == id) {
                let j = choose|j: int| 0 <= j < n - 1 && (#[trigger] less[j]).id == id;
                assert(evs[j].id == id);
            }
        }
        if told_by(h, evs, n, id) {
            if !(exists|v: int| 0 <= v < h.ids.len() && #[trigger] h.ids[v] == id) {
                let j = choose|j: int| 0 <= j < n && (#[trigger] evs[j]).id == id;
                if j < n - 1 {
                    assert(less[j].id == id);
                }
            }
        }
        assert(evs[n - 1].id == e.id);
    }
}

/// Events can be taken up one after the other if each of them is known when it comes, or all
/// that it follows is; and not otherwise.
pub proof fn law_receivable(h: Hist, evs: Seq<EventAbs>)
    ensures
        events::receivable(h, evs) <==> forall|i: int|
            0 <= i < evs.len() ==> told_by(h, evs, i, (#[trigger] evs[i]).id) || forall|k: int|
                0 <= k < evs[i].parents.len() ==> told_by(
                    h,
                    evs,
                    i,
                    #[trigger] evs[i].parents[k],
                ),
    decreases evs.len(),
{
    let n = evs.len() as int;
    if n > 0 {
        let less = evs.drop_last();
        let was = events::received_all(h, less);
        law_receivable(h, less);
        assert forall|i: int, id: (Seq<char>, int)| 0 <= i < n implies #[trigger] told_by(
            h,
            less,
            i,
            id,
        ) == told_by(h, evs, i, id) by {
            if exists|j: int| 0 <= j < i && (#[trigger] less[j]).id == id {
                let j = choose|j: int| 0 <= j < i && (#[trigger] less[j]).id == id;
                assert(evs[j].id == id);
            }
            if exists|j: int| 0 <= j < i && (#[trigger] evs[j]).id == id {
                let j = choose|j: int| 0 <= j < i && (#[trigger] evs[j]).id == id;
                assert(less[j].id == id);
            }
        }
        assert forall|i: int, id: (Seq<char>, int)| 0 <= i < n implies told_by(h, less, i, id)
            == #[trigger] told_by(h, evs, i, id) by {
            assert(told_by(h, less, i, id) == told_by(h, evs, i, id));
        }
        let e = evs[n - 1];
        law_ids_received(h, less, e.id);
        assert forall|k: int| 0 <= k < e.parents.len() implies events::has_id(
            was,
            #[trigger] e.parents[k],
        ) == told_by(h, evs, n - 1, e.parents[k]) by {
            law_ids_received(h, less, e.parents[k]);
        }
        lemma_receivable_step(h, evs);
    }
}

proof fn lemma_receivable_step(h: Hist, evs: Seq<EventAbs>)
    requires
        evs.len() > 0,
        ({
            let less = evs.drop_last();
            let n = evs.len() as int;
            let e = evs[n - 1];
            let was = events::received_all(h, less);
            &&& events::receivable(h, less) <==> forall|i: int|
                0 <= i < less.len() ==> told_by(h, less, i, (#[trigger] less[i]).id)
                    || forall|k: int|
                    0 <= k < less[i].parents.len() ==> told_by(
                        h,
                        less,
                        i,
                        #[trigger] less[i].parents[k],
                    )
            &&& forall|i: int, id: (Seq<char>, int)|
                0 <= i < n ==> told_by(h, less, i, id) == #[trigger] told_by(h, evs, i, id)
            &&& events::has_id(was, e.id) == told_by(h, evs, n - 1, e.id)
            &&& forall|k: int|
                0 <= k < e.parents.len() ==> events::has_id(was, #[trigger] e.parents[k])
                    == told_by(h, evs, n - 1, e.parents[k])
        }),
    ensures
        events::receivable(h, evs) <==> forall|i: int|
            0 <= i < evs.len() ==> taken(h, evs, #[trigger] evs[i], i),
        (forall|i: int| 0 <= i < evs.len() ==> taken(h, evs, #[trigger] evs[i], i)) <==> forall|
            i: int,
        |
            0 <= i < evs.len() ==> told_by(h, evs, i, (#[trigger] evs[i]).id) || forall|k: int|
                0 <= k < evs[i].parents.len() ==> told_by(
                    h,
                    evs,
                    i,
                    #[trigger] evs[i].parents[k],
                ),
{
    let less = evs.drop_last();
    let n = evs.len() as int;
    let e = evs[n - 1];
    assert forall|i: int| 0 <= i < n - 1 implies taken(h, less, #[trigger] less[i], i) == taken(
        h,
        evs,
        evs[i],
        i,
    ) by {
        assert(less[i] == evs[i]);
        let x = evs[i];
        assert(told_by(h, evs, i, x.id) == told_by(h, less, i, x.id));
        if taken(h, less, x, i) && !told_by(h, less, i, x.id) {
            assert forall|k: int| 0 <= k < x.parents.len() implies told_by(
                h,
                evs,
                i,
                #[trigger] x.parents[k],
            ) by {
                assert(told_by(h, less, i, x.parents[k]));
            }
        }
        if taken(h, evs, x, i) && !told_by(h, evs, i, x.id) {
            assert forall|k: int| 0 <= k < x.parents.len() implies told_by(
                h,
                less,
                i,
                #[trigger] x.parents[k],
            ) by {
                assert(told_by(h, evs, i, x.parents[k]));
            }
        }
    }
    let before = forall|i: int| 0 <= i < less.len() ==> taken(h, less, #[trigger] less[i], i);
    let all = forall|i: int| 0 <= i < evs.len() ==> taken(h, evs, #[trigger] evs[i], i);
    assert(events::receivable(h, less) == before);
    let was = events::received_all(h, less);
    assert(events::receivable(h, evs) == (before && (events::has_id(was, e.id)
        || events::follows_known(was, e))));
    assert((events::has_id(was, e.id) || events::follows_known(was, e)) == taken(
        h,
        evs,
        e,
        n - 1,
    )) by {
        if events::follows_known(was, e) {
            assert forall|k: int| 0 <= k < e.parents.len() implies told_by(
                h,
                evs,
                n - 1,
                #[trigger] e.parents[k],
            ) by {
                assert(events::has_id(was, e.parents[k]));
            }
        }
        if taken(h, evs, e, n - 1) && !told_by(h, evs, n - 1, e.id) {
            assert forall|k: int| 0 <= k < e.parents.len() implies events::has_id(
                was,
                #[trigger] e.parents[k],
            ) by {
                assert(told_by(h, evs, n - 1, e.parents[k]));
            }
        }
    }
    if all {
        assert forall|i: int| 0 <= i < less.len() implies taken(h, less, #[trigger] less[i], i) by {
            assert(taken(h, evs, evs[i], i));
        }
        assert(taken(h, evs, evs[n - 1], n - 1));
    }
    if before && taken(h, evs, e, n - 1) {
        assert forall|i: int| 0 <= i < evs.len() implies taken(h, evs, #[trigger] evs[i], i) by {
            if i < n - 1 {
                assert(taken(h, less, less[i], i));
            }
        }
    }
}

/// Whether an event can be taken up behind the first `i` ones.
spec fn taken(h: Hist, evs: Seq<EventAbs>, e: EventAbs, i: int) -> bool {
    told_by(h, evs, i, e.id) || forall|k: int|
        0 <= k < e.parents.len() ==> told_by(h, evs, i, #[trigger] e.parents[k])
}

/// How many events edits are together.
pub open spec fn edits_len(ops: Seq<RemoteOp>) -> int
    decreases ops.len(),
{
    if ops.len() == 0 {
        0
    } else {
        edits_len(ops.drop_last()) + record_laws::edit_len(ops.last())
    }
}

proof fn lemma_edits_len(ops: Seq<RemoteOp>, k: int)
    requires
        0 <= k <= ops.len(),
    ensures
        0 <= edits_len(ops.take(k)) <= edits_len(ops),
    decreases ops.len(),
{
    if k == ops.len() {
        assert(ops.take(k) =~= ops);
        if ops.len() > 0 {
            lemma_edits_len(ops.drop_last(), k - 1);
        }
    } else {
        lemma_edits_len(ops.drop_last(), k);
        assert(ops.drop_last().take(k) =~= ops.take(k));
    }
}

/// Edits make a history longer by no more events than they are.
proof fn lemma_recorded_len(h: Hist, ops: Seq<RemoteOp>)
    requires
        h.len() + edits_len(ops) <= usize::MAX,
    ensures
        list_crdt::recorded_all(h, ops).len() <= h.len() + edits_len(ops),
    decreases ops.len(),
{
    if ops.len() > 0 {
        let less = ops.drop_last();
        let op = ops.last();
        lemma_edits_len(ops, ops.len() - 1);
        assert(ops.take(ops.len() - 1) =~= less);
        lemma_recorded_len(h, less);
        let was = list_crdt::recorded_all(h, less);
        let evs = remote_ops::remote_events(op);
        assert(evs.len() == record_laws::edit_len(op));
        let seq = op.seq as int;
        let to = seq + evs.len();
        remote_ops::lemma_skip_bounds(was, op.agent@, seq, to, true);
        let a = remote_ops::skip_ids(was, op.agent@, seq, to, true);
        remote_ops::lemma_skip_bounds(was, op.agent@, a, to, false);
    }
}

/// Edits can be counted if their authors can have their names, and their positions, their
/// counts, the events and the agents can be numbered.
pub proof fn law_room_for_all(log: ListOpLog, ops: Seq<RemoteOp>)
    requires
        log.inv(),
        log.size() + edits_len(ops) <= usize::MAX,
        log.names().len() + ops.len() <= AgentId::MAX,
        forall|i: int|
            0 <= i < ops.len() ==> {
                let op = #[trigger] ops[i];
                &&& op.agent@ != seq!['R', 'O', 'O', 'T']
                &&& encode_utf8(op.agent@).len() < 50
                &&& op.pos + record_laws::edit_len(op) <= usize::MAX
                &&& op.seq + record_laws::edit_len(op) <= usize::MAX
            },
    ensures
        list_crdt::room_for_all(log, ops),
{
    let h = log.hist();
    log.lemma_hist();
    assert forall|k: int|
        0 < k <= ops.len() && list_crdt::recordable_all(
            h,
            #[trigger] ops.take(k),
        ) implies list_crdt::room_for(log, ops, k) by {
        let op = ops[k - 1];
        crate::agent_assignment::law_name_fits(op.agent@);
        let evs = remote_ops::remote_events(op);
        assert(evs.len() == record_laws::edit_len(op));
        let less = ops.take(k).drop_last();
        lemma_edits_len(ops, k);
        lemma_edits_len(ops.take(k), k - 1);
        assert(ops.take(k).take(k - 1) =~= less);
        assert(ops.take(k).last() == op);
        lemma_recorded_len(h, less);
        let was = list_crdt::recorded_all(h, less);
        remote_ops::lemma_new_count(was, op.agent@, op.seq as int, evs.len());
        lemma_names_len(log.names(), list_crdt::authors(ops.take(k)));
    }
}

proof fn lemma_names_len(known: Seq<Seq<char>>, more: Seq<Seq<char>>)
    ensures
        names::with_names(known, more).len() <= known.len() + more.len(),
    decreases more.len(),
{
    if more.len() > 0 {
        lemma_names_len(known, more.drop_last());
    }
}

/// The newest ones of the events that bytes tell of: each of them is one that is told, and
/// all that are told are seen by them; none of them follows another.
pub proof fn law_newest_told(log: ListOpLog, bytes: Seq<u8>, front: Seq<usize>)
    requires
        log.inv(),
        decoding::newest_told(log, bytes, front),
    ensures
        ({
            let h = log.hist();
            let evs = decoding::events_told(bytes);
            &&& forall|i: int|
                0 <= i < front.len() ==> (#[trigger] front[i]) < h.len() && exists|k: int|
                    0 <= k < evs.len() && (#[trigger] evs[k]).id == h.ids[front[i] as int]
            &&& forall|k: int, v: int|
                0 <= k < evs.len() && 0 <= v < h.len() && #[trigger] h.ids[v] == (
                #[trigger] evs[k]).id ==> graph::in_cone(h.parents, front, v)
            &&& forall|i: int, j: int|
                0 <= i < front.len() && 0 <= j < front.len() && i != j ==> !#[trigger] graph::reaches(
                    h.parents,
                    front[i] as int,
                    front[j] as int,
                )
        }),
{
    let h = log.hist();
    let evs = decoding::events_told(bytes);
    log.lemma_hist();
    let lvs = choose|lvs: Seq<usize>|
        #![trigger decoding::lvs_of(h, evs, lvs)]
        decoding::lvs_of(h, evs, lvs) && graph::is_dominators(h.parents, lvs, front);
    assert(graph::known(h.parents, lvs)) by {
        assert forall|i: int| 0 <= i < lvs.len() implies (#[trigger] lvs[i]) < h.parents.len() by {}
    }
    let none = Seq::<usize>::empty();
    assert(lvs + none =~= lvs);
    assert(graph::known(h.parents, none));
    record_laws::law_merge_versions(h.parents, lvs, none, front, 0);
    assert forall|i: int| 0 <= i < front.len() implies (#[trigger] front[i]) < h.len() && exists|
        k: int,
    |
        0 <= k < evs.len() && (#[trigger] evs[k]).id == h.ids[front[i] as int] by {
        assert(front.contains(front[i]));
        let k = lvs.index_of(front[i]);
        assert(lvs[k] == front[i]);
        assert(evs[k].id == h.ids[front[i] as int]);
    }
    assert forall|k: int, v: int|
        0 <= k < evs.len() && 0 <= v < h.len() && #[trigger] h.ids[v] == (
        #[trigger] evs[k]).id implies graph::in_cone(h.parents, front, v) by {
        let w = lvs[k] as int;
        assert(h.ids[w] == evs[k].id);
        if v < w {
            assert(h.ids[v] != h.ids[w]);
        } else if w < v {
            assert(h.ids[w] != h.ids[v]);
        }
        graph::lemma_dominators_cone(h.parents, lvs, front, v);
        assert(graph::reaches(h.parents, lvs[k] as int, v));
    }
}

/// What is not found is the first of the texts that names no event.
pub proof fn law_first_unnamed(h: Hist, ids: Seq<Seq<char>>, id: Seq<char>)
    requires
        remote_ops::first_unnamed(h, ids, id),
    ensures
        exists|i: int|
            {
                &&& 0 <= i < ids.len()
                &&& #[trigger] ids[i] == id
                &&& remote_ops::named_event(h, id) is None
                &&& forall|j: int|
                    0 <= j < i ==> remote_ops::named_event(h, #[trigger] ids[j]) is Some
            },
{
    let i = choose|i: int|
        0 <= i < ids.len() && #[trigger] ids[i] == id && remote_ops::named_event(h, id) is None
            && remote_ops::all_named(h, ids.take(i));
    assert forall|j: int| 0 <= j < i implies remote_ops::named_event(
        h,
        #[trigger] ids[j],
    ) is Some by {
        assert(ids.take(i)[j] == ids[j]);
    }
}

/// An agent that is the one with a name has that name, in the order of the agents.
pub proof fn law_agent_named(log: ListOpLog, agent_id: Option<AgentId>, name: Option<&str>)
    requires
        doc::agent_named(log, agent_id, name),
    ensures
        agent_id is Some <==> name is Some,
        agent_id matches Some(a) ==> a < log.names().len() && log.names()[a as int] == name->0@,
{
}

// ---- patches ----

/// Given replacements say what their texts state: the first two numbers of the range, and the
/// content as it is.
pub proof fn law_given(list: Seq<TextPatch>, i: int)
    requires
        0 <= i < list.len(),
        braid::range_in(list[i].range@) is Some,
    ensures
        braid::given(list).len() == list.len(),
        (braid::given(list)[i].start, braid::given(list)[i].end) == braid::range_in(
            list[i].range@,
        )->0,
        braid::given(list)[i].content == list[i].content@,
{
}

/// Patches of a text that is not too long, made one after the other, can be converted.
pub proof fn law_convertible(base_len: int, relative: Seq<Patch>)
    requires
        0 <= base_len < HUGE,
        patches::relative_fits(base_len, relative),
        patches::inserted_len(relative) <= usize::MAX / 2,
    ensures
        relative_to_absolute::convertible(relative),
{
    assert forall|k: int| 0 <= k < relative.len() implies 0 <= (#[trigger] relative[k]).start
        <= relative[k].end < patches::relative_len(HUGE as int, relative.take(k)) by {
        xf_absolute::lemma_relative_len(base_len, HUGE as int, relative.take(k));
    }
}

/// What it is to replace a range of a text, and to make patches one after the other.
pub proof fn law_apply_relative(base: Seq<char>, list: Seq<Patch>, p: Patch)
    requires
        0 <= p.start <= p.end <= patches::apply_relative(base, list).len(),
    ensures
        patches::apply_relative(base, Seq::empty()) == base,
        patches::apply_relative(base, list.push(p)) == patches::apply_relative(base, list).take(
            p.start,
        ) + p.content + patches::apply_relative(base, list).skip(p.end),
{
    let was = patches::apply_relative(base, list);
    assert(list.push(p).drop_last() =~= list);
    assert(patches::apply_relative(base, list.push(p)) =~= was.take(p.start) + p.content
        + was.skip(p.end));
}

/// How many characters patches insert: as many as their contents have together.
pub proof fn law_inserted_len(list: Seq<Patch>, p: Patch)
    ensures
        patches::inserted_len(Seq::empty()) == 0,
        patches::inserted_len(list.push(p)) == patches::inserted_len(list) + p.content.len(),
{
    assert(list.push(p).drop_last() =~= list);
}

proof fn lemma_relative_len(base: Seq<char>, list: Seq<Patch>)
    requires
        forall|k: int|
            0 <= k < list.len() ==> 0 <= (#[trigger] list[k]).start <= list[k].end
                <= patches::apply_relative(base, list.take(k)).len(),
    ensures
        patches::relative_len(base.len() as int, list) == patches::apply_relative(base, list).len(),
    decreases list.len(),
{
    if list.len() > 0 {
        let less = list.drop_last();
        let last = list.len() - 1;
        assert forall|k: int| 0 <= k < less.len() implies 0 <= (#[trigger] less[k]).start
            <= less[k].end <= patches::apply_relative(base, less.take(k)).len() by {
            assert(less[k] == list[k]);
            assert(less.take(k) =~= list.take(k));
        }
        lemma_relative_len(base, less);
        assert(list.take(last) =~= less);
        assert(list[last].end <= patches::apply_relative(base, less).len());
    }
}

proof fn lemma_fits_within(base: Seq<char>, list: Seq<Patch>, k: int)
    requires
        patches::relative_fits(base.len() as int, list),
        0 <= k <= list.len(),
    ensures
        patches::relative_len(base.len() as int, list.take(k)) == patches::apply_relative(
            base,
            list.take(k),
        ).len(),
    decreases k,
{
    let front = list.take(k);
    assert forall|j: int| 0 <= j < front.len() implies 0 <= (#[trigger] front[j]).start
        <= front[j].end <= patches::apply_relative(base, front.take(j)).len() by {
        lemma_fits_within(base, list, j);
        assert(front.take(j) =~= list.take(j));
        assert(front[j] == list[j]);
    }
    lemma_relative_len(base, front);
}

/// Patches find their place if each one lies within the text that those before it made.
pub proof fn law_relative_fits(base: Seq<char>, list: Seq<Patch>)
    ensures
        patches::relative_fits(base.len() as int, list) <==> forall|k: int|
            0 <= k < list.len() ==> 0 <= (#[trigger] list[k]).start <= list[k].end
                <= patches::apply_relative(base, list.take(k)).len(),
{
    if patches::relative_fits(base.len() as int, list) {
        assert forall|k: int| 0 <= k < list.len() implies 0 <= (#[trigger] list[k]).start
            <= list[k].end <= patches::apply_relative(base, list.take(k)).len() by {
            lemma_fits_within(base, list, k);
        }
    }
    if forall|k: int|
        0 <= k < list.len() ==> 0 <= (#[trigger] list[k]).start <= list[k].end
            <= patches::apply_relative(base, list.take(k)).len() {
        assert forall|k: int| 0 <= k < list.len() implies 0 <= (#[trigger] list[k]).start
            <= list[k].end <= patches::relative_len(base.len() as int, list.take(k)) by {
            let front = list.take(k);
            assert forall|j: int| 0 <= j < front.len() implies 0 <= (#[trigger] front[j]).start
                <= front[j].end <= patches::apply_relative(base, front.take(j)).len() by {
                assert(front[j] == list[j]);
                assert(front.take(j) =~= list.take(j));
            }
            lemma_relative_len(base, front);
        }
    }
}

/// Texts may be as long as a quarter of what can be counted.
pub proof fn law_huge()
    ensures
        HUGE == usize::MAX / 4,
{
}

// ---- what bytes make of a history ----

/// A version is one of a history if its newest events are.
pub proof fn law_known(g: graph::Parents, front: Seq<usize>)
    ensures
        graph::known(g, front) <==> forall|i: int|
            0 <= i < front.len() ==> (#[trigger] front[i]) < g.len(),
{
}

/// An event that is taken up and is new comes behind all others: with its author's name and
/// count, with what it does, and behind the events that it follows, in ascending order.
pub proof fn law_received_event(h: Hist, e: EventAbs)
    requires
        h.valid(),
        h.len() <= usize::MAX,
        forall|v: int| 0 <= v < h.len() ==> #[trigger] h.ids[v] != e.id,
        forall|k: int|
            0 <= k < e.parents.len() ==> events::has_id(h, #[trigger] e.parents[k]),
    ensures
        ({
            let now = events::received(h, e);
            let n = h.len() as int;
            let list = now.parents[n];
            &&& extension::prefix(h, now)
            &&& now.len() == n + 1
            &&& now.ids.len() == n + 1
            &&& now.ops.len() == n + 1
            &&& now.ids[n] == e.id
            &&& now.ops[n] == e.op
            &&& list.len() == e.parents.len()
            &&& forall|i: int, j: int| 0 <= i < j < list.len() ==> list[i] <= list[j]
            &&& forall|v: usize| #[trigger]
                list.contains(v) <==> v < n && exists|k: int|
                    0 <= k < e.parents.len() && #[trigger] e.parents[k] == h.ids[v as int]
        }),
{
    assert(!events::has_id(h, e.id));
    let told = events::places_as_named(h, e.parents);
    let list = events::places(h, e.parents);
    crate::sorting::lemma_sorted(told);
    assert forall|v: usize| #[trigger] list.contains(v) <==> v < h.len() && exists|k: int|
        0 <= k < e.parents.len() && #[trigger] e.parents[k] == h.ids[v as int] by {
        assert(list.contains(v) == told.contains(v));
        if told.contains(v) {
            let k = choose|k: int| 0 <= k < told.len() && told[k] == v;
            assert(events::has_id(h, e.parents[k]));
            let w = events::place(h, e.parents[k]);
            assert(0 <= w < h.len() && h.ids[w] == e.parents[k]);
            assert(told[k] == w as usize);
            assert(e.parents[k] == h.ids[v as int]);
        }
        if v < h.len() && exists|k: int|
            0 <= k < e.parents.len() && #[trigger] e.parents[k] == h.ids[v as int] {
            let k = choose|k: int|
                0 <= k < e.parents.len() && #[trigger] e.parents[k] == h.ids[v as int];
            events::lemma_place(h, v as int);
            assert(told[k] == v);
        }
    }
}

/// What comes of bytes: the events that they tell of are taken up, unless one of them follows
/// an event that is not known, or there are more events or agents than can be counted, or the
/// bytes are not those of anything.
pub proof fn law_decoded(h: Hist, agents: Seq<Seq<char>>, bytes: Seq<u8>)
    ensures
        ({
            let evs = decoding::events_told(bytes);
            match decoding::decoded(h, agents, bytes) {
                Ok(now) => {
                    &&& decoding::file_of(bytes) is Some
                    &&& events::receivable(h, evs)
                    &&& now == events::received_all(h, evs)
                },
                Err(ParseError::Malformed) => decoding::file_of(bytes) is None,
                Err(ParseError::BaseVersionUnknown) => !events::receivable(h, evs),
                Err(ParseError::TooLarge) => {
                    ||| h.len() + evs.len() > usize::MAX
                    ||| agents.len() + decoding::names_told(bytes).len() > AgentId::MAX
                },
            }
        }),
{
    let evs = decoding::events_told(bytes);
    if let Some(d) = decoding::file_of(bytes) {
        if h.len() + evs.len() <= usize::MAX {
            decoding::lemma_counted(h, evs);
        }
        lemma_names_len(agents, (d.0).1);
    }
}

} // verus!
