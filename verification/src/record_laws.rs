//! What holds of edits that are recorded.

use crate::events;
use crate::graph;
use crate::history;
use crate::history::Hist;
use crate::history_laws;
use crate::operation;
use crate::operation::{EvOp, ListOpKind, OpAbs};
use crate::oplog;
use crate::remote_ops;
use crate::remote_ops::RemoteOp;
use crate::sorting;
use vstd::prelude::*;

verus! {

// ---- operations ----

/// What the events of an operation do: an insert types its content from its start on, a
/// forward delete takes what comes to stand at its start each time, and a backward delete
/// goes from the end of its span to the start.
pub proof fn law_op_events(op: OpAbs, k: int)
    requires
        op.valid(),
        0 <= k < op.end - op.start,
    ensures
        op.events().len() == op.end - op.start,
        op.events()[k] == match op.kind {
            ListOpKind::Ins => EvOp::Ins { pos: op.start + k, ch: op.content->0[k] },
            ListOpKind::Del => if op.fwd {
                EvOp::Del { pos: op.start }
            } else {
                EvOp::Del { pos: op.end - 1 - k }
            },
        },
{
}

/// What an operation makes of a document: an insert puts its content at its start, and a
/// delete takes its span away.
pub proof fn law_after_op(doc: Seq<char>, op: OpAbs)
    requires
        op.valid(),
        op.start <= doc.len(),
        op.kind == ListOpKind::Del ==> op.end <= doc.len(),
    ensures
        operation::fits_all(doc, op.events()),
        operation::after_all(doc, op.events()) == match op.kind {
            ListOpKind::Ins => doc.take(op.start) + op.content->0 + doc.skip(op.start),
            ListOpKind::Del => doc.take(op.start) + doc.skip(op.end),
        },
{
    operation::law_op_is_its_events(doc, op);
    assert(operation::after_op(doc, op) =~= match op.kind {
        ListOpKind::Ins => doc.take(op.start) + op.content->0 + doc.skip(op.start),
        ListOpKind::Del => doc.take(op.start) + doc.skip(op.end),
    });
}

// ---- events behind others ----

/// Events that an author adds come behind all others. They are counted one after the other;
/// the first one follows what it is said to follow, and each other one the one before it.
pub proof fn law_extended(
    h: Hist,
    parents: Seq<usize>,
    name: Seq<char>,
    seq: int,
    evs: Seq<EvOp>,
)
    requires
        h.valid(),
        h.len() + evs.len() <= usize::MAX,
    ensures
        ({
            let now = oplog::extended(h, parents, name, seq, evs);
            let n = h.len() as int;
            &&& now.len() == n + evs.len()
            &&& now.ops.len() == now.len()
            &&& now.ids.len() == now.len()
            &&& forall|v: int|
                #![trigger now.ops[v]]
                #![trigger now.ids[v]]
                #![trigger now.parents[v]]
                0 <= v < n ==> now.ops[v] == h.ops[v] && now.ids[v] == h.ids[v] && now.parents[v]
                    == h.parents[v]
            &&& forall|v: int|
                #![trigger now.ops[v]]
                #![trigger now.ids[v]]
                #![trigger now.parents[v]]
                n <= v < n + evs.len() ==> {
                    &&& now.ops[v] == evs[v - n]
                    &&& now.ids[v] == (name, seq + (v - n))
                    &&& now.parents[v] == if v == n {
                        parents
                    } else {
                        seq![(v - 1) as usize]
                    }
                }
        }),
{
}

// ---- edits of peers ----

/// How many events an edit is: one for each character that it deletes, or else types.
pub open spec fn edit_len(op: RemoteOp) -> int {
    if op.del > 0 {
        op.del as int
    } else {
        match op.ins {
            Some(text) => text@.len() as int,
            None => 0,
        }
    }
}

proof fn lemma_skip(h: Hist, name: Seq<char>, from: int, to: int, end: int, known: bool)
    requires
        from <= to <= end,
        forall|c: int|
            from <= c < to ==> #[trigger] events::has_id(h, (name, c)) == known,
        to < end ==> events::has_id(h, (name, to)) != known,
    ensures
        remote_ops::skip_ids(h, name, from, end, known) == to,
    decreases to - from,
{
    if from < to {
        assert(events::has_id(h, (name, from)) == known);
        lemma_skip(h, name, from + 1, to, end, known);
    }
}

/// An edit of a peer of which the first `j` events are known and the others are not: the
/// others come behind all that is known, under the author's name and counts. The first of all
/// follows what the edit says that it follows, and each other one the one before it. They
/// type the text from the edit's position on, or delete its range from the last character to
/// the first.
#[verifier::rlimit(40)]
pub proof fn law_recorded(h: Hist, op: RemoteOp, j: int)
    requires
        h.valid(),
        h.len() + edit_len(op) <= usize::MAX,
        0 <= j <= edit_len(op),
        forall|k: int|
            0 <= k < j ==> exists|v: int|
                0 <= v < h.len() && h.ids[v] == (op.agent@, #[trigger] (op.seq + k)),
        forall|k: int, v: int|
            j <= k < edit_len(op) && 0 <= v < h.len() ==> #[trigger] h.ids[v] != (
                op.agent@,
                #[trigger] (op.seq + k),
            ),
    ensures
        ({
            let now = remote_ops::recorded(h, op);
            let n = h.len() as int;
            &&& now.len() == n + (edit_len(op) - j)
            &&& now.ops.len() == now.len()
            &&& now.ids.len() == now.len()
            &&& forall|v: int|
                #![trigger now.ops[v]]
                #![trigger now.ids[v]]
                #![trigger now.parents[v]]
                0 <= v < n ==> now.ops[v] == h.ops[v] && now.ids[v] == h.ids[v] && now.parents[v]
                    == h.parents[v]
            &&& forall|v: int|
                #![trigger now.ops[v]]
                #![trigger now.ids[v]]
                #![trigger now.parents[v]]
                n <= v < now.len() ==> {
                    let k = j + (v - n);
                    &&& now.ids[v] == (op.agent@, op.seq + k)
                    &&& now.ops[v] == if op.del > 0 {
                        EvOp::Del { pos: op.pos + op.del - 1 - k }
                    } else {
                        EvOp::Ins { pos: op.pos + k, ch: op.ins->0@[k] }
                    }
                    &&& v > n ==> now.parents[v] == seq![(v - 1) as usize]
                    &&& v == n && j == 0 ==> now.parents[v] == remote_ops::named_list(
                        h,
                        sorting::texts_of(op.parents@),
                    )
                    &&& v == n && j > 0 ==> now.parents[v].len() == 1 && now.parents[v][0] < n
                        && h.ids[now.parents[v][0] as int] == (op.agent@, op.seq + j - 1)
                }
        }),
{
    let evs = remote_ops::remote_events(op);
    let name = op.agent@;
    let seq = op.seq as int;
    let m = edit_len(op);
    assert(evs.len() == m);
    assert forall|c: int| seq <= c < seq + j implies #[trigger] events::has_id(h, (name, c)) by {
        let k = c - seq;
        let v = choose|v: int| 0 <= v < h.len() && h.ids[v] == (name, #[trigger] (op.seq + k));
        assert(h.ids[v] == (name, c));
    }
    assert forall|c: int| seq + j <= c < seq + m implies !#[trigger] events::has_id(
        h,
        (name, c),
    ) by {
        let k = c - seq;
        if events::has_id(h, (name, c)) {
            let v = choose|v: int| 0 <= v < h.ids.len() && #[trigger] h.ids[v] == (name, c);
            assert(h.ids[v] != (name, op.seq + k));
        }
    }
    if j < m {
        assert(!events::has_id(h, (name, seq + j)));
    }
    lemma_skip(h, name, seq, seq + j, seq + m, true);
    lemma_skip(h, name, seq + j, seq + m, seq + m, false);
    let new = evs.subrange(j, m);
    assert forall|i: int| 0 <= i < new.len() implies #[trigger] new[i] == evs[i + j] by {}
    if j < m {
        let parents = if j == 0 {
            remote_ops::named_list(h, sorting::texts_of(op.parents@))
        } else {
            seq![events::place(h, (name, seq + j - 1)) as usize]
        };
        law_extended(h, parents, name, seq + j, new);
        if j > 0 {
            assert(events::has_id(h, (name, seq + (j - 1))));
            let v = events::place(h, (name, seq + j - 1));
            assert(h.ids[v] == (name, seq + j - 1));
        }
    }
}

/// What the texts for what an edit follows come to: all events that one of them names, in
/// ascending order.
pub proof fn law_named_list(h: Hist, ids: Seq<Seq<char>>)
    requires
        h.valid(),
        h.len() <= usize::MAX,
    ensures
        ({
            let list = remote_ops::named_list(h, ids);
            &&& forall|i: int, j: int| 0 <= i < j < list.len() ==> list[i] <= list[j]
            &&& forall|v: usize| #[trigger]
                list.contains(v) <==> exists|i: int|
                    0 <= i < ids.len() && remote_ops::named_event(h, #[trigger] ids[i]) == Some(
                        v as int,
                    )
            &&& (forall|i: int|
                0 <= i < ids.len() ==> remote_ops::named_event(h, #[trigger] ids[i]) is Some)
                ==> list.len() == ids.len()
        }),
{
    let told = remote_ops::named_events(h, ids);
    let list = sorting::sorted(told);
    sorting::lemma_sorted(told);
    remote_ops::lemma_named_list(h, ids, list);
    lemma_named_events(h, ids);
}

proof fn lemma_named_events(h: Hist, ids: Seq<Seq<char>>)
    requires
        h.valid(),
        h.len() <= usize::MAX,
    ensures
        ({
            let told = remote_ops::named_events(h, ids);
            &&& forall|v: usize| #[trigger]
                told.contains(v) <==> exists|i: int|
                    0 <= i < ids.len() && remote_ops::named_event(h, #[trigger] ids[i]) == Some(
                        v as int,
                    )
            &&& (forall|i: int|
                0 <= i < ids.len() ==> remote_ops::named_event(h, #[trigger] ids[i]) is Some)
                ==> told.len() == ids.len()
        }),
    decreases ids.len(),
{
    let told = remote_ops::named_events(h, ids);
    if ids.len() > 0 {
        let less = ids.drop_last();
        let last = ids.len() - 1;
        let before = remote_ops::named_events(h, less);
        lemma_named_events(h, less);
        let found = remote_ops::named_event(h, ids[last]);
        if found is Some {
            assert(0 <= found->0 < h.len()) by {
                let id = remote_ops::named_id(ids[last])->0;
                assert(events::has_id(h, id));
            }
        }
        assert forall|v: usize| #[trigger] told.contains(v) <==> exists|i: int|
            0 <= i < ids.len() && remote_ops::named_event(h, #[trigger] ids[i]) == Some(
                v as int,
            ) by {
            if told.contains(v) {
                if before.contains(v) {
                    let i = choose|i: int|
                        0 <= i < less.len() && remote_ops::named_event(h, #[trigger] less[i])
                            == Some(v as int);
                    assert(ids[i] == less[i]);
                } else {
                    let k = choose|k: int| 0 <= k < told.len() && told[k] == v;
                    if k < before.len() {
                        assert(before[k] == v);
                    }
                    assert(found == Some(v as int));
                    assert(remote_ops::named_event(h, ids[last]) == Some(v as int));
                }
            }
            if exists|i: int|
                0 <= i < ids.len() && remote_ops::named_event(h, #[trigger] ids[i]) == Some(
                    v as int,
                ) {
                let i = choose|i: int|
                    0 <= i < ids.len() && remote_ops::named_event(h, #[trigger] ids[i]) == Some(
                        v as int,
                    );
                if i < last {
                    assert(less[i] == ids[i]);
                    assert(before.contains(v));
                    let k = choose|k: int| 0 <= k < before.len() && before[k] == v;
                    assert(told[k] == v);
                } else {
                    assert(told[before.len() as int] == v);
                }
            }
        }
        if forall|i: int|
            0 <= i < ids.len() ==> remote_ops::named_event(h, #[trigger] ids[i]) is Some {
            assert forall|i: int| 0 <= i < less.len() implies remote_ops::named_event(
                h,
                #[trigger] less[i],
            ) is Some by {
                assert(less[i] == ids[i]);
            }
        }
    }
}

/// Where the events of an edit have come to, one by one.
proof fn lemma_recorded_document(h: Hist, n: int, parents: Seq<usize>, evs: Seq<EvOp>, k: int)
    requires
        history::playable(h),
        h.len() == n + evs.len(),
        0 <= n,
        h.len() <= usize::MAX,
        0 < k <= evs.len(),
        forall|i: int|
            #![trigger evs[i]]
            0 <= i < evs.len() ==> {
                &&& h.ops[n + i] == evs[i]
                &&& h.parents[n + i] == if i == 0 {
                    parents
                } else {
                    seq![(n + i - 1) as usize]
                }
            },
    ensures
        history::document(h, h.version(seq![(n + k - 1) as usize])) == operation::after_all(
            history::document(h, h.version(parents)),
            evs.take(k),
        ),
    decreases k,
{
    let doc = history::document(h, h.version(parents));
    let v = n + k - 1;
    assert(evs[k - 1] == h.ops[v]);
    history_laws::law_event(h, v);
    assert(evs.take(k).last() == evs[k - 1]);
    assert(evs.take(k).drop_last() =~= evs.take(k - 1));
    if k == 1 {
        assert(evs.take(0) =~= Seq::<EvOp>::empty());
        assert(operation::after_all(doc, evs.take(0)) == doc);
    } else {
        lemma_recorded_document(h, n, parents, evs, k - 1);
    }
}

/// What a new edit of a peer makes of the document that it was positioned against: the text
/// stands at its position, or its range is gone.
#[verifier::rlimit(40)]
pub proof fn law_recorded_document(h: Hist, op: RemoteOp)
    requires
        h.valid(),
        h.len() + edit_len(op) <= usize::MAX,
        op.pos + edit_len(op) <= usize::MAX,
        0 < edit_len(op),
        forall|k: int, v: int|
            0 <= k < edit_len(op) && 0 <= v < h.len() ==> #[trigger] h.ids[v] != (
                op.agent@,
                #[trigger] (op.seq + k),
            ),
        history::playable(remote_ops::recorded(h, op)),
    ensures
        ({
            let now = remote_ops::recorded(h, op);
            let parents = remote_ops::named_list(h, sorting::texts_of(op.parents@));
            let doc = history::document(now, now.version(parents));
            let out = history::document(now, now.version(seq![(now.len() - 1) as usize]));
            if op.del > 0 {
                &&& op.pos + op.del <= doc.len()
                &&& out == doc.take(op.pos as int) + doc.skip(op.pos + op.del)
            } else {
                &&& op.pos <= doc.len()
                &&& out == doc.take(op.pos as int) + op.ins->0@ + doc.skip(op.pos as int)
            }
        }),
{
    let now = remote_ops::recorded(h, op);
    let n = h.len() as int;
    let m = edit_len(op);
    let parents = remote_ops::named_list(h, sorting::texts_of(op.parents@));
    let doc = history::document(now, now.version(parents));
    law_recorded(h, op, 0);
    let abs = if op.del > 0 {
        OpAbs {
            kind: ListOpKind::Del,
            start: op.pos as int,
            end: op.pos + op.del,
            fwd: false,
            content: None,
        }
    } else {
        operation::insert_abs(op.pos as int, op.ins->0@)
    };
    let evs = abs.events();
    assert forall|i: int|
        #![trigger evs[i]]
        0 <= i < evs.len() implies {
        &&& now.ops[n + i] == evs[i]
        &&& now.parents[n + i] == if i == 0 {
            parents
        } else {
            seq![(n + i - 1) as usize]
        }
    } by {
        let v = n + i;
        assert(now.ops[v] == evs[i]);
        assert(v > n ==> now.parents[v] == seq![(v - 1) as usize]);
    }
    history_laws::law_event(now, n);
    assert(now.ops[n] == evs[0]);
    lemma_recorded_document(now, n, parents, evs, m);
    assert(evs.take(m) =~= evs);
    law_after_op(doc, abs);
}

// ---- versions ----

/// The newest events of two versions together: no two are the same, none of them follows
/// another, and what they have seen is what either of the versions has seen.
pub proof fn law_merge_versions(
    g: graph::Parents,
    a: Seq<usize>,
    b: Seq<usize>,
    out: Seq<usize>,
    v: int,
)
    requires
        graph::causal(g),
        graph::known(g, a),
        graph::known(g, b),
        graph::is_dominators(g, a + b, out),
    ensures
        graph::in_cone(g, out, v) <==> graph::in_cone(g, a, v) || graph::in_cone(g, b, v),
        forall|i: int, j: int| 0 <= i < j < out.len() ==> out[i] < out[j],
        forall|i: int, j: int|
            0 <= i < out.len() && 0 <= j < out.len() && i != j ==> !#[trigger] graph::reaches(
                g,
                out[i] as int,
                out[j] as int,
            ),
        forall|x: usize| #[trigger] out.contains(x) ==> a.contains(x) || b.contains(x),
{
    let list = a + b;
    assert(graph::known(g, list)) by {
        assert forall|i: int| 0 <= i < list.len() implies (#[trigger] list[i]) < g.len() by {
            if i < a.len() {
                assert(list[i] == a[i]);
            } else {
                assert(list[i] == b[i - a.len()]);
            }
        }
    }
    graph::lemma_dominators_cone(g, list, out, v);
    if graph::in_cone(g, list, v) {
        let i = choose|i: int| 0 <= i < list.len() && #[trigger] graph::reaches(
            g,
            list[i] as int,
            v,
        );
        if i < a.len() {
            assert(graph::reaches(g, a[i] as int, v));
        } else {
            assert(graph::reaches(g, b[i - a.len()] as int, v));
        }
    }
    if graph::in_cone(g, a, v) {
        let i = choose|i: int| 0 <= i < a.len() && #[trigger] graph::reaches(g, a[i] as int, v);
        assert(graph::reaches(g, list[i] as int, v));
    }
    if graph::in_cone(g, b, v) {
        let i = choose|i: int| 0 <= i < b.len() && #[trigger] graph::reaches(g, b[i] as int, v);
        assert(graph::reaches(g, list[a.len() + i] as int, v));
    }
    assert forall|i: int, j: int|
        0 <= i < out.len() && 0 <= j < out.len() && i != j implies !#[trigger] graph::reaches(
        g,
        out[i] as int,
        out[j] as int,
    ) by {
        if graph::reaches(g, out[i] as int, out[j] as int) {
            assert(out.contains(out[i]));
            assert(out.contains(out[j]));
            let k = list.index_of(out[i]);
            assert(graph::reaches(g, list[k] as int, out[j] as int));
            if i < j {
                assert(out[i] < out[j]);
            } else {
                assert(out[j] < out[i]);
            }
            assert(graph::dominated(g, list, out[j]));
        }
    }
    assert forall|x: usize| #[trigger] out.contains(x) implies a.contains(x) || b.contains(x) by {
        assert(list.contains(x));
        let i = list.index_of(x);
        if i < a.len() {
            assert(a[i] == x);
        } else {
            assert(b[i - a.len()] == x);
        }
    }
}

/// A version has seen its newest events, and what each of these follows, and nothing else.
pub proof fn law_seen(g: graph::Parents, front: Seq<usize>, v: int)
    requires
        graph::causal(g),
        graph::known(g, front),
    ensures
        graph::in_cone(g, front, v) <==> exists|i: int|
            #![trigger front[i]]
            0 <= i < front.len() && (v == front[i] || graph::in_cone(g, g[front[i] as int], v)),
{
    if graph::in_cone(g, front, v) {
        let i = choose|i: int| 0 <= i < front.len() && #[trigger] graph::reaches(
            g,
            front[i] as int,
            v,
        );
        assert(front[i] < g.len());
        graph::lemma_parents_cone(g, front[i] as int, v);
        assert(v == front[i] || graph::in_cone(g, g[front[i] as int], v));
    }
    if exists|i: int|
        #![trigger front[i]]
        0 <= i < front.len() && (v == front[i] || graph::in_cone(g, g[front[i] as int], v)) {
        let i = choose|i: int|
            #![trigger front[i]]
            0 <= i < front.len() && (v == front[i] || graph::in_cone(g, g[front[i] as int], v));
        assert(front[i] < g.len());
        graph::lemma_parents_cone(g, front[i] as int, v);
        assert(graph::reaches(g, front[i] as int, v));
    }
}

} // verus!
