//! What is given and taken, in plain terms.

use crate::admission;
use crate::agent_assignment::{AgentId, ClientData, LV};
use crate::braid;
use crate::braid::{BraidUpdate, TextPatch};
use crate::decoding;
use crate::decoding::ParseError;
use crate::doc;
use crate::events;
use crate::full_range;
use crate::graph;
use crate::history;
use crate::history::Hist;
use crate::list_crdt;
use crate::merge;
use crate::observed_history;
use crate::observed_history::Update;
use crate::operation;
use crate::operation::{EvOp, ListOpKind, OpAbs, TextOperation};
use crate::oplog;
use crate::oplog::ListOpLog;
use crate::patches;
use crate::patches::Replacement;
use crate::plan;
use crate::range::DTRange;
use crate::record_laws;
use crate::remote_ops;
use crate::remote_ops::{RemoteOp, VersionNotFound};
use crate::rle;
use crate::rle::{RleVal, Runs};
use crate::smart_string;
use crate::travel;
use crate::update_texts;
use crate::xf_runs;
use vstd::prelude::*;
use vstd::utf8::*;

verus! {

// ---- updates ----

/// Whether an update is the events of a history from `first` on: as many as its span is long,
/// of one author, counted up to the last one, each following the one before it, and the first
/// one what the update follows. They type its content from the start of the span on, or delete
/// the span from the last character to the first.
pub open spec fn is_update(h: Hist, u: Update, first: int) -> bool {
    let n = u.pos_end - u.pos_start;
    &&& 0 < n
    &&& 0 <= first
    &&& first + n <= h.len()
    &&& h.parents[first] == u.parents@
    &&& forall|v: int|
        first <= v < first + n ==> #[trigger] h.ids[v] == (
            u.agent@,
            u.seq_end - (first + n - 1 - v),
        )
    &&& forall|v: int|
        first < v < first + n ==> #[trigger] h.parents[v] == seq![(v - 1) as usize]
    &&& match u.content {
        Some(c) => c@.len() == n && forall|v: int|
            first <= v < first + n ==> #[trigger] h.ops[v] == (EvOp::Ins {
                pos: u.pos_start + (v - first),
                ch: c@[v - first],
            }),
        None => forall|v: int|
            first <= v < first + n ==> #[trigger] h.ops[v] == (EvOp::Del {
                pos: u.pos_end - 1 - (v - first),
            }),
    }
}

/// The updates that are given are runs of events.
pub proof fn law_is_update(h: Hist, list: Seq<Update>, i: int)
    requires
        observed_history::updates_true(h, observed_history::updates_view(list)),
        0 <= i < list.len(),
    ensures
        exists|first: int| is_update(h, list[i], first),
{
    let u = list[i];
    let all = observed_history::updates_view(list);
    assert(all[i] == u@);
    assert(observed_history::update_true(h, all[i]));
    let op = observed_history::update_op(u@);
    let seq = u@.seq_end + 1 - (u@.pos_end - u@.pos_start);
    let first = choose|first: int| #[trigger]
        full_range::is_run(h, first, op, u@.parents, u@.name, seq);
    let n = u.pos_end - u.pos_start;
    assert(h.parents[first + 0] == u.parents@);
    assert forall|v: int| first <= v < first + n implies #[trigger] h.ids[v] == (
        u.agent@,
        u.seq_end - (first + n - 1 - v),
    ) by {
        assert(h.ids[first + (v - first)] == (u@.name, seq + (v - first)));
    }
    assert forall|v: int| first < v < first + n implies #[trigger] h.parents[v] == seq![
        (v - 1) as usize,
    ] by {
        assert(h.parents[first + (v - first)] == seq![(first + (v - first) - 1) as usize]);
    }
    match u.content {
        Some(c) => {
            assert forall|v: int| first <= v < first + n implies #[trigger] h.ops[v] == (
            EvOp::Ins { pos: u.pos_start + (v - first), ch: c@[v - first] }) by {
                assert(h.ops[first + (v - first)] == op.event(v - first));
            }
        },
        None => {
            assert forall|v: int| first <= v < first + n implies #[trigger] h.ops[v] == (
            EvOp::Del { pos: u.pos_end - 1 - (v - first) }) by {
                assert(h.ops[first + (v - first)] == op.event(v - first));
            }
        },
    }
    assert(is_update(h, u, first));
}

/// The names that are given; none if no version is.
pub open spec fn names_given(since: Option<&[String]>) -> Seq<Seq<char>> {
    match since {
        Some(ids) => ids@.map_values(|s: String| s@),
        None => Seq::empty(),
    }
}

/// The updates since a version that is given by names are the events that it has not seen. All
/// of the names are to be known; where none is given, all events are told.
pub proof fn law_updated(
    log: ListOpLog,
    since: Option<&[String]>,
    out: Result<Vec<BraidUpdate>, VersionNotFound>,
)
    requires
        log.inv(),
        doc::updated(log, braid::since_texts(since), out),
    ensures
        ({
            let h = log.hist();
            let texts = names_given(since);
            match out {
                Ok(list) => {
                    &&& forall|i: int|
                        0 <= i < texts.len() ==> remote_ops::named_event(
                            h,
                            #[trigger] texts[i],
                        ) is Some
                    &&& exists|spans: Seq<(int, int)>| #[trigger]
                        update_texts::tell(
                            h,
                            list@,
                            spans,
                            update_texts::unseen(h, remote_ops::named_list(h, texts)),
                        )
                },
                Err(e) => exists|i: int|
                    0 <= i < texts.len() && #[trigger] texts[i] == e.0@ && remote_ops::named_event(
                        h,
                        e.0@,
                    ) is None,
            }
        }),
{
    let h = log.hist();
    let texts = names_given(since);
    assert(texts =~= braid::since_texts(since));
    match out {
        Ok(list) => {
            update_texts::law_since_told(log, remote_ops::named_list(h, texts), list@);
        },
        Err(e) => {},
    }
}

/// The events that texts name are all that one of them names, in ascending order. Where one
/// names none, that is told, unless such ones are to be left out.
pub proof fn law_named(
    log: ListOpLog,
    texts: Seq<Seq<char>>,
    tolerant: bool,
    out: Result<Vec<LV>, VersionNotFound>,
)
    requires
        log.inv(),
        doc::named(log, texts, tolerant, out),
    ensures
        ({
            let h = log.hist();
            match out {
                Ok(list) => {
                    &&& tolerant || forall|i: int|
                        0 <= i < texts.len() ==> remote_ops::named_event(
                            h,
                            #[trigger] texts[i],
                        ) is Some
                    &&& forall|i: int, j: int| 0 <= i < j < list@.len() ==> list@[i] <= list@[j]
                    &&& forall|v: usize| #[trigger]
                        list@.contains(v) <==> exists|i: int|
                            0 <= i < texts.len() && remote_ops::named_event(h, #[trigger] texts[i])
                                == Some(v as int)
                },
                Err(e) => !tolerant && exists|i: int|
                    0 <= i < texts.len() && #[trigger] texts[i] == e.0@ && remote_ops::named_event(
                        h,
                        e.0@,
                    ) is None,
            }
        }),
{
    let h = log.hist();
    log.lemma_hist();
    if let Ok(list) = out {
        remote_ops::lemma_named_list(h, texts, list@);
        record_laws::law_named_list(h, texts);
    }
}

// ---- operations ----

/// What operations do, one after the other: what the first ones do, and then what the events
/// of the last one do.
pub proof fn law_events_of(ops: Seq<TextOperation>, op: TextOperation)
    ensures
        oplog::events_of(oplog::ops_view(Seq::empty())) == Seq::<EvOp>::empty(),
        oplog::events_of(oplog::ops_view(ops.push(op))) == oplog::events_of(oplog::ops_view(ops))
            + op@.events(),
{
    let none = Seq::<TextOperation>::empty();
    assert(oplog::ops_view(none) =~= Seq::<OpAbs>::empty());
    let all = oplog::ops_view(ops.push(op));
    assert(all.drop_last() =~= oplog::ops_view(ops));
    assert(all.last() == op@);
}

/// The operations since a version do what the events do that it has not seen, in their order.
pub proof fn law_ops_since(log: ListOpLog, version: Seq<usize>, ops: Seq<TextOperation>)
    requires
        log.inv(),
        oplog::events_of(oplog::ops_view(ops)) == braid::what_they_do(
            events::events_chosen(
                log.hist(),
                log.size(),
                |v: int| !graph::in_cone(log.cg.parents(), version, v),
            ),
        ),
    ensures
        exists|ws: Seq<int>|
            #![trigger ws.len()]
            {
                let evs = oplog::events_of(oplog::ops_view(ops));
                &&& ws.len() == evs.len()
                &&& forall|j: int|
                    0 <= j < ws.len() ==> 0 <= #[trigger] ws[j] < log.hist().len() && evs[j]
                        == log.hist().ops[ws[j]]
                &&& forall|j: int, k: int| 0 <= j < k < ws.len() ==> ws[j] < ws[k]
                &&& forall|v: int|
                    0 <= v < log.hist().len() ==> (ws.contains(v) <==> !#[trigger] graph::in_cone(
                        log.hist().parents,
                        version,
                        v,
                    ))
            },
{
    let h = log.hist();
    log.lemma_hist();
    let chosen = |v: int| !graph::in_cone(log.cg.parents(), version, v);
    update_texts::lemma_numbers(h, log.size(), chosen);
    let ws = update_texts::numbers(log.size(), chosen);
    let evs = oplog::events_of(oplog::ops_view(ops));
    assert(ws.len() == evs.len());
    assert forall|j: int| 0 <= j < ws.len() implies 0 <= #[trigger] ws[j] < h.len() && evs[j]
        == h.ops[ws[j]] by {
        assert(events::events_chosen(h, log.size(), chosen)[j] == events::event_of(h, ws[j]));
    }
    assert forall|v: int| 0 <= v < h.len() implies (ws.contains(v)
        <==> !#[trigger] graph::in_cone(h.parents, version, v)) by {
        assert(chosen(v) == !graph::in_cone(h.parents, version, v));
        if ws.contains(v) {
            let j = choose|j: int| 0 <= j < ws.len() && ws[j] == v;
            assert(chosen(ws[j]));
        }
    }
}

/// An insert types its text from its position on, and a delete of a span takes away what
/// stands at its start, as often as the span is long.
pub proof fn law_new_operations(pos: int, text: Seq<char>, span: DTRange, k: int)
    ensures
        operation::insert_abs(pos, text).events().len() == text.len(),
        0 <= k < text.len() ==> operation::insert_abs(pos, text).events()[k] == (EvOp::Ins {
            pos: pos + k,
            ch: text[k],
        }),
        span.start <= span.end ==> operation::delete_abs(span).events().len() == span.end
            - span.start,
        0 <= k < span.end - span.start ==> operation::delete_abs(span).events()[k] == (
        EvOp::Del { pos: span.start as int }),
        operation::delete_abs(span).fwd,
{
}

/// One operation continues another if what both do is a run of events, and it then is one
/// operation that does what both do.
pub proof fn law_continued(a: OpAbs, b: OpAbs)
    requires
        a.valid(),
        b.valid(),
    ensures
        a.continued_by(b) <==> exists|c: OpAbs|
            c.valid() && #[trigger] c.events() == a.events() + b.events(),
        a.continued_by(b) ==> a.with(b).valid() && a.with(b).events() == a.events() + b.events(),
{
    if a.continued_by(b) {
        operation::lemma_with(a, b);
    }
    let all = a.events() + b.events();
    if exists|c: OpAbs| c.valid() && #[trigger] c.events() == all {
        let c = choose|c: OpAbs| c.valid() && #[trigger] c.events() == all;
        let n = a.size();
        assert(c.events().len() == c.size());
        assert(all.len() == n + b.size());
        assert(c.events()[0] == a.events()[0] && a.events()[0] == a.event(0));
        assert(c.events()[n - 1] == a.events()[n - 1] && a.events()[n - 1] == a.event(n - 1));
        assert(c.events()[n] == b.events()[0] && b.events()[0] == b.event(0));
        assert(c.events()[c.size() - 1] == b.events()[b.size() - 1]);
        assert(b.events()[b.size() - 1] == b.event(b.size() - 1));
        assert(c.event(0) == a.event(0));
        assert(c.event(n - 1) == a.event(n - 1));
        assert(c.event(n) == b.event(0));
        assert(c.event(c.size() - 1) == b.event(b.size() - 1));
        assert(a.continued_by(b));
    }
}

/// Part of an operation does what the events of the part do, and the operation that stands
/// for one event does what the event does.
pub proof fn law_parts(a: OpAbs, from: int, to: int, ev: EvOp)
    requires
        a.valid(),
        0 <= from < to <= a.size(),
    ensures
        a.between(from, to).events() == a.events().subrange(from, to),
        operation::event_abs(ev).events() == seq![ev],
{
    operation::lemma_between(a, from, to);
    assert(operation::event_abs(ev).events() =~= seq![ev]);
}

/// Whether what two operations do is what one operation does.
pub open spec fn could_be_one(a: OpAbs, b: OpAbs) -> bool {
    exists|c: OpAbs| c.valid() && #[trigger] c.events() == a.events() + b.events()
}

/// Whether no stored operation could be one with the next.
pub open spec fn op_runs_apart(runs: Runs<OpAbs>) -> bool {
    forall|i: int, j: int|
        #![trigger runs[i], runs[j]]
        0 <= i && j == i + 1 && j < runs.len() ==> !could_be_one(runs[i].1, runs[j].1)
}

/// The stored operations are as few as can be, also with events behind them.
pub proof fn law_op_runs_apart(runs: Runs<OpAbs>, key: int, val: OpAbs)
    requires
        rle::packed::<TextOperation>(runs),
        rle::end::<TextOperation>(runs) == key,
        val.valid(),
        op_runs_apart(runs),
    ensures
        op_runs_apart(rle::pushed::<TextOperation>(runs, key, val)),
        op_runs_apart(Seq::empty()),
{
    let out = rle::pushed::<TextOperation>(runs, key, val);
    let n = runs.len() as int;
    assert forall|i: int, j: int|
        #![trigger out[i], out[j]]
        0 <= i && j == i + 1 && j < out.len() implies !could_be_one(out[i].1, out[j].1) by {
        let a = out[i].1;
        if j < n {
            let b = runs[j].1;
            assert(!could_be_one(runs[i].1, b));
            assert(TextOperation::valid(runs[i].1) && TextOperation::valid(runs[j].1));
            if out[j].1 != b && could_be_one(a, out[j].1) {
                law_continued(b, val);
                let c = choose|c: OpAbs|
                    c.valid() && #[trigger] c.events() == a.events() + out[j].1.events();
                assert(c.events().len() == c.size());
                let m = a.size() + b.size();
                operation::lemma_between(c, 0, m);
                assert(c.between(0, m).events() =~= a.events() + b.events());
                assert(could_be_one(a, b));
            }
        } else {
            assert(TextOperation::valid(runs[i].1));
            law_continued(a, val);
        }
    }
}

// ---- transformed operations ----

/// How many events the first `i` runs have.
spec fn before(runs: Seq<xf_runs::XfRun>, i: int) -> int {
    xf_runs::events_of_runs(runs.take(i)).len() as int
}

proof fn lemma_before(runs: Seq<xf_runs::XfRun>, n: int, j: int) -> (i: int)
    requires
        xf_runs::runs_ok(runs),
        0 <= n <= runs.len(),
        0 <= j < before(runs, n),
    ensures
        0 <= i < n,
        before(runs, i) <= j < before(runs, i) + (runs[i].end - runs[i].start),
    decreases n,
{
    if n == 0 {
        assert(runs.take(0) =~= Seq::<xf_runs::XfRun>::empty());
        0
    } else {
        assert(runs.take(n).drop_last() =~= runs.take(n - 1));
        assert(runs.take(n).last() == runs[n - 1]);
        assert(xf_runs::run_ok(runs[n - 1]));
        if before(runs, n - 1) <= j {
            n - 1
        } else {
            lemma_before(runs, n - 1, j)
        }
    }
}

proof fn lemma_run_at(runs: Seq<xf_runs::XfRun>, i: int, k: int)
    requires
        xf_runs::runs_ok(runs),
        0 <= i < runs.len(),
        0 <= k < runs[i].end - runs[i].start,
    ensures
        before(runs, i) + k < xf_runs::events_of_runs(runs).len(),
        xf_runs::events_of_runs(runs)[before(runs, i) + k] == xf_runs::event_of_run(runs[i], k),
    decreases runs.len(),
{
    let less = runs.drop_last();
    let last = runs.len() - 1;
    if i == last {
        assert(runs.take(i) =~= less);
    } else {
        assert forall|m: int| 0 <= m < less.len() implies xf_runs::run_ok(#[trigger] less[m]) by {
            assert(less[m] == runs[m]);
        }
        assert(less[i] == runs[i]);
        lemma_run_at(less, i, k);
        assert(less.take(i) =~= runs.take(i));
    }
}

proof fn lemma_due_at(h: Hist, from: Seq<usize>, to: Seq<usize>, k: int, v: int) -> (j: int)
    requires
        0 <= v < k,
        plan::due(h.parents, from, to, v),
    ensures
        0 <= j < merge::xf_to(h, from, to, k).len(),
        merge::xf_to(h, from, to, k)[j].lv == v,
    decreases k,
{
    if v == k - 1 {
        merge::xf_to(h, from, to, k).len() - 1
    } else {
        lemma_due_at(h, from, to, k - 1, v)
    }
}

proof fn lemma_due(h: Hist, from: Seq<usize>, to: Seq<usize>, k: int, j: int)
    requires
        0 <= j < merge::xf_to(h, from, to, k).len(),
        k <= h.len(),
    ensures
        ({
            let x = merge::xf_to(h, from, to, k)[j];
            &&& 0 <= x.lv < k
            &&& plan::due(h.parents, from, to, x.lv)
            &&& x == merge::xf_at(h, from, to, x.lv)
        }),
    decreases k,
{
    if k > 0 {
        let less = merge::xf_to(h, from, to, k - 1);
        if j < less.len() {
            lemma_due(h, from, to, k - 1, j);
        }
    }
}

/// The transformed operations that merge one version into another are those of all events that
/// the one has seen and the other has not: for each range of these what each event does in its
/// place, or nothing where it deletes what is gone.
#[verifier::rlimit(40)]
pub proof fn law_xf_list(
    log: ListOpLog,
    from: Seq<usize>,
    to: Seq<usize>,
    out: Seq<(DTRange, Option<TextOperation>)>,
)
    requires
        log.inv(),
        history::playable(log.hist()),
        xf_runs::runs_view(out) == xf_runs::xf_runs(log, from, to),
    ensures
        ({
            let h = log.hist();
            &&& forall|i: int, k: int|
                #![trigger out[i], h.ops[out[i].0.start + k]]
                0 <= i < out.len() && 0 <= k < out[i].0.end - out[i].0.start ==> {
                    let v = out[i].0.start + k;
                    &&& 0 <= v < h.len()
                    &&& graph::in_cone(h.parents, to, v)
                    &&& !graph::in_cone(h.parents, from, v)
                    &&& merge::xf_at(h, from, to, v).ev == match out[i].1 {
                        Some(op) => Some(op@.event(k)),
                        None => None,
                    }
                }
            &&& forall|v: int|
                0 <= v < h.len() && #[trigger] graph::in_cone(h.parents, to, v) && !graph::in_cone(
                    h.parents,
                    from,
                    v,
                ) ==> exists|i: int|
                    0 <= i < out.len() && (#[trigger] out[i]).0.start <= v < out[i].0.end
        }),
{
    let h = log.hist();
    let runs = xf_runs::xf_runs(log, from, to);
    log.lemma_hist();
    xf_runs::law_xf_runs(log, from, to);
    xf_runs::lemma_steps(log, from, to, log.size());
    let all = xf_runs::events_of_runs(runs);
    let n = h.len() as int;
    assert forall|i: int, k: int|
        #![trigger out[i], h.ops[out[i].0.start + k]]
        0 <= i < out.len() && 0 <= k < out[i].0.end - out[i].0.start implies {
        let v = out[i].0.start + k;
        &&& 0 <= v < h.len()
        &&& graph::in_cone(h.parents, to, v)
        &&& !graph::in_cone(h.parents, from, v)
        &&& merge::xf_at(h, from, to, v).ev == match out[i].1 {
            Some(op) => Some(op@.event(k)),
            None => None,
        }
    } by {
        assert(runs[i] == xf_runs::run_view(out[i]));
        lemma_run_at(runs, i, k);
        let j = before(runs, i) + k;
        lemma_due(h, from, to, n, j);
        assert(all[j] == xf_runs::event_of_run(runs[i], k));
    }
    assert forall|v: int|
        0 <= v < h.len() && #[trigger] graph::in_cone(h.parents, to, v) && !graph::in_cone(
            h.parents,
            from,
            v,
        ) implies exists|i: int|
        0 <= i < out.len() && (#[trigger] out[i]).0.start <= v < out[i].0.end by {
        assert(plan::due(h.parents, from, to, v));
        let j = lemma_due_at(h, from, to, n, v);
        assert(runs.take(runs.len() as int) =~= runs);
        let i = lemma_before(runs, runs.len() as int, j);
        let k = j - before(runs, i);
        lemma_run_at(runs, i, k);
        assert(all[j].lv == v);
        assert(runs[i] == xf_runs::run_view(out[i]));
        assert(out[i].0.start <= v < out[i].0.end);
    }
}

// ---- ties ----

/// Of two events that one comes first, by author, whose author's name comes first in
/// dictionary order; of two events of one author, the one with the smaller count.
pub proof fn law_lv_less(log: ListOpLog, a: LV, b: LV)
    requires
        log.inv(),
        a < log.size(),
        b < log.size(),
    ensures
        ({
            let x = log.hist().ids[a as int];
            let y = log.hist().ids[b as int];
            log.cg.agent_assignment.lv_less(a, b) <==> smart_string::text_less(x.0, y.0) || x.0
                == y.0 && x.1 < y.1
        }),
{
    log.lemma_hist();
    let aa = log.cg.agent_assignment;
    assert(0 <= aa.id_of(a as int).1 < usize::MAX);
    assert(0 <= aa.id_of(b as int).1 < usize::MAX);
}

/// Whether the first event of a run could be part of the run before it: it comes next, and
/// both delete what is gone, or what they do is what one operation does.
pub open spec fn could_join(p: xf_runs::XfRun, q: xf_runs::XfRun) -> bool {
    &&& p.end == q.start
    &&& match (p.op, q.op) {
        (None, None) => true,
        (Some(a), Some(b)) => exists|c: OpAbs|
            c.valid() && #[trigger] c.events() == a.events().push(b.event(0)),
        _ => false,
    }
}

spec fn none_joins(runs: Seq<xf_runs::XfRun>) -> bool {
    forall|i: int, j: int|
        #![trigger runs[i], runs[j]]
        0 <= i && j == i + 1 && j < runs.len() ==> !could_join(runs[i], runs[j])
}

proof fn lemma_none_joins(runs: Seq<xf_runs::XfRun>, x: xf_runs::Step)
    requires
        xf_runs::runs_ok(runs),
        xf_runs::step_ok(x),
        none_joins(runs),
    ensures
        none_joins(xf_runs::run_step(runs, x)),
{
    let out = xf_runs::run_step(runs, x);
    let n = runs.len() as int;
    if n > 0 {
        let last = runs[n - 1];
        assert(xf_runs::run_ok(last));
        if let (Some(a), Some(b)) = (last.op, x.op) {
            law_continued(a, b);
            assert(a.events() + b.events() =~= a.events().push(b.event(0)));
            if a.continued_by(b) {
                assert(a.with(b).events()[0] == a.events()[0]);
                assert(a.with(b).event(0) == a.event(0));
            }
        }
    }
    assert forall|i: int, j: int|
        #![trigger out[i], out[j]]
        0 <= i && j == i + 1 && j < out.len() implies !could_join(out[i], out[j]) by {
        if j < n {
            assert(!could_join(runs[i], runs[j]));
        }
    }
}

proof fn lemma_steps_apart(log: ListOpLog, from: Seq<usize>, to: Seq<usize>, k: int)
    requires
        log.inv(),
        history::playable(log.hist()),
        0 <= k <= log.size(),
    ensures
        none_joins(xf_runs::grouped(xf_runs::steps_to(log, from, to, k))),
    decreases k,
{
    if k > 0 {
        let v = k - 1;
        lemma_steps_apart(log, from, to, v);
        if plan::due(log.hist().parents, from, to, v) {
            let before = xf_runs::steps_to(log, from, to, v);
            let list = xf_runs::steps_to(log, from, to, k);
            assert(list.drop_last() =~= before);
            xf_runs::lemma_step_at(log, from, to, v);
            xf_runs::lemma_steps(log, from, to, v);
            lemma_none_joins(xf_runs::grouped(before), xf_runs::step_at(log, from, to, v));
        }
    }
}

/// The transformed operations are as long as can be: none begins with an event that could be
/// part of the one before it.
pub proof fn law_xf_runs_apart(log: ListOpLog, from: Seq<usize>, to: Seq<usize>, i: int)
    requires
        log.inv(),
        history::playable(log.hist()),
        0 <= i,
        i + 1 < xf_runs::xf_runs(log, from, to).len(),
    ensures
        !could_join(
            xf_runs::xf_runs(log, from, to)[i],
            xf_runs::xf_runs(log, from, to)[i + 1],
        ),
{
    log.lemma_hist();
    lemma_steps_apart(log, from, to, log.size());
}

// ---- undoing ----

/// The operation that undoes another one deletes what that one types, where it types it, or
/// types what it deletes, and makes the document again in which that one was made.
pub proof fn law_undone_op(doc: Seq<char>, op: OpAbs)
    requires
        op.valid(),
        op.start <= doc.len(),
        op.kind == ListOpKind::Del ==> op.end <= doc.len(),
    ensures
        ({
            let back = travel::undone_op(doc, op);
            let there = operation::after_all(doc, op.events());
            &&& back.kind != op.kind
            &&& back.fwd
            &&& back.start == op.start
            &&& back.size() == op.size()
            &&& op.kind == ListOpKind::Ins ==> back.content is None
            &&& op.kind == ListOpKind::Del ==> back.content == Some(
                doc.subrange(op.start, op.end),
            )
            &&& operation::after_all(there, back.events()) == doc
        }),
{
    let back = travel::undone_op(doc, op);
    let there = operation::after_all(doc, op.events());
    record_laws::law_after_op(doc, op);
    assert(back.valid());
    record_laws::law_after_op(there, back);
    assert(operation::after_all(there, back.events()) =~= doc);
}

/// Operations are undone from the last one to the first, those that do nothing left out; each
/// one that undoes another stands for the events that that one stands for.
pub proof fn law_undone_runs(doc: Seq<char>, runs: Seq<xf_runs::XfRun>, i: int)
    ensures
        ({
            let done = braid::applied(runs);
            let back = travel::undone(doc, runs);
            &&& back.len() == done.len()
            &&& 0 <= i < back.len() ==> {
                let run = done[back.len() - 1 - i];
                &&& back[i].start == run.start
                &&& back[i].end == run.end
                &&& back[i].op is Some
                &&& run.op is Some
                &&& back[i].op->0.kind != run.op->0.kind
                &&& back[i].op->0.start == run.op->0.start
            }
        }),
    decreases runs.len(),
{
    if runs.len() > 0 {
        law_undone_runs(
            doc,
            runs.drop_last(),
            if runs.last().op is Some {
                i - 1
            } else {
                i
            },
        );
    }
}

// ---- what can be done ----

/// Edits can be taken up if they can be counted, and the history stays one of documents with
/// each of them, as far as they can be recorded.
pub proof fn law_acceptable(log: ListOpLog, ops: Seq<RemoteOp>)
    requires
        list_crdt::room_for_all(log, ops),
        forall|k: int|
            0 <= k <= ops.len() ==> history::playable(
                list_crdt::recorded_all(log.hist(), #[trigger] ops.take(k)),
            ),
    ensures
        admission::acceptable(log, ops),
{
}

/// Replacements can be read if no number in them is too large; they are read up to the first
/// one that states no range, and that one is told.
pub proof fn law_read(list: Seq<TextPatch>, text: Seq<char>)
    ensures
        (forall|i: int| 0 <= i < list.len() ==> !braid::range_too_large((#[trigger] list[i]).range@))
            ==> braid::numbers_fit(list),
        braid::stated(list, list.len() as int) <==> forall|i: int|
            0 <= i < list.len() ==> braid::range_in((#[trigger] list[i]).range@) is Some,
        braid::first_bad(list, text) <==> exists|i: int|
            {
                &&& 0 <= i < list.len()
                &&& (#[trigger] list[i]).range@ == text
                &&& braid::range_in(text) is None
                &&& forall|j: int|
                    0 <= j < i ==> braid::range_in((#[trigger] list[j]).range@) is Some
            },
{
    if braid::first_bad(list, text) {
        let i = choose|i: int|
            0 <= i < list.len() && braid::stated(list, i) && text == (#[trigger] list[i]).range@
                && braid::range_in(text) is None;
        assert(list[i].range@ == text);
    }
    if exists|i: int|
        {
            &&& 0 <= i < list.len()
            &&& (#[trigger] list[i]).range@ == text
            &&& braid::range_in(text) is None
            &&& forall|j: int|
                0 <= j < i ==> braid::range_in((#[trigger] list[j]).range@) is Some
        } {
        let i = choose|i: int|
            {
                &&& 0 <= i < list.len()
                &&& (#[trigger] list[i]).range@ == text
                &&& braid::range_in(text) is None
                &&& forall|j: int|
                    0 <= j < i ==> braid::range_in((#[trigger] list[j]).range@) is Some
            };
        assert(braid::stated(list, i));
        assert(text == list[i].range@);
    }
}

/// What a list of replacements says, one by one.
pub proof fn law_patches_of(list: Seq<Replacement>, i: int)
    requires
        0 <= i < list.len(),
    ensures
        patches::patches_of(list).len() == list.len(),
        patches::patches_of(list)[i].start == list[i].range.start,
        patches::patches_of(list)[i].end == list[i].range.end,
        patches::patches_of(list)[i].content == list[i].content@,
{
}

// ---- agents ----

/// An agent, if one is to edit, can have every name of less than fifty bytes in UTF-8 but the
/// reserved one.
pub proof fn law_name_ok(name: Option<&str>)
    ensures
        doc::name_ok(name) <==> match name {
            Some(s) => s@ != seq!['R', 'O', 'O', 'T'] && encode_utf8(s@).len() < 50,
            None => true,
        },
        doc::own_names(name) == match name {
            Some(s) => seq![s@],
            None => Seq::empty(),
        },
        doc::own_agents(name) == doc::own_names(name).len(),
{
    if let Some(s) = name {
        crate::agent_assignment::law_name_fits(s@);
    }
}

/// A log that an agent joined has the same events, and the names that it had; behind them is
/// that of the agent, if it is new.
pub proof fn law_joined(was: ListOpLog, now: ListOpLog, name: Seq<char>)
    requires
        was.joined(now, name),
    ensures
        now.hist() == was.hist(),
        now.cg.version == was.cg.version,
        was.names().contains(name) ==> now.names() == was.names(),
        !was.names().contains(name) ==> now.names() == was.names().push(name),
{
}

/// Logs with the same agents, and logs that keep those of others, know them under the same
/// numbers.
pub proof fn law_same_agents(was: ListOpLog, now: ListOpLog)
    ensures
        now.same_agents(was) ==> now.names() == was.names(),
        now.keeps_agents(was) ==> now.names().len() >= was.names().len() && now.names().take(
            was.names().len() as int,
        ) == was.names(),
{
    let a = was.names();
    let b = now.names();
    if now.same_agents(was) {
        assert forall|i: int| 0 <= i < a.len() implies a[i] == b[i] by {
            assert(now.cg.agent_assignment.name_of(i) == was.cg.agent_assignment.name_of(i));
        }
        assert(a =~= b);
    }
    if now.keeps_agents(was) {
        assert forall|i: int| 0 <= i < a.len() implies a[i] == b[i] by {
            assert(now.cg.agent_assignment.name_of(i) == was.cg.agent_assignment.name_of(i));
        }
        assert(b.take(a.len() as int) =~= a);
    }
}

/// A document is opened with the history that bytes tell of, unless they cannot be read or its
/// agents cannot be counted.
pub proof fn law_opened(bytes: Seq<u8>, agent_name: Option<&str>)
    ensures
        ({
            let told = decoding::decoded(events::nothing(), Seq::empty(), bytes);
            match doc::opened(bytes, agent_name) {
                Ok(h) => told == Ok::<Hist, ParseError>(h),
                Err(e) => {
                    ||| told == Err::<Hist, ParseError>(e)
                    ||| e == ParseError::TooLarge && decoding::agents_told(bytes).len()
                        >= AgentId::MAX
                },
            }
        }),
{
}

/// The version that is given, or else that of the newest events.
pub proof fn law_given_or_tip(log: ListOpLog, given: Option<&[LV]>)
    ensures
        given matches Some(v) ==> doc::given_or_tip(log, given) == v@,
        given is None ==> doc::given_or_tip(log, given) == log.cg.version@,
{
}

/// The local versions that are found for a range of an author's counts: those of the counts
/// from the start of the range on, one by one, and no more than the range is long.
pub proof fn law_span_from(client: ClientData, asked: DTRange, span: DTRange)
    requires
        client.span_from(asked, span),
        client.knows(asked.start as int),
        asked.start < asked.end,
    ensures
        0 < span.end - span.start <= asked.end - asked.start,
        forall|k: int|
            #![trigger client.lv_of(asked.start + k)]
            0 <= k < span.end - span.start ==> client.knows(asked.start + k) && client.lv_of(
                asked.start + k,
            ) == span.start + k,
{
    let runs = client.lv_for_seq.runs();
    let i = crate::rle::run_of::<DTRange>(runs, asked.start as int);
    assert(crate::rle::covers::<DTRange>(runs, i, asked.start as int));
    assert forall|k: int|
        #![trigger client.lv_of(asked.start + k)]
        0 <= k < span.end - span.start implies client.knows(asked.start + k) && client.lv_of(
        asked.start + k,
    ) == span.start + k by {
        let c = asked.start + k;
        assert(client.knows(asked.start + k));
    }
}

} // verus!
