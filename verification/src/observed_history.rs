//! Reading the log back out as the updates that peers exchange.
//!
//! An update carries a document across a span of time: apply its operation to the
//! document at `parents`, and there is the document at its version. The log holds
//! such updates, as their authors produced them, in whatever shape its run-length
//! encoding gave them.
//!
//! The finest grain is one event. A run of events is summarized into one update where
//! nothing is lost by it: where the events are consecutive ones of one author, each
//! following the one before it alone, and one operation. Other updates name the events in
//! between in their own parents, so these must keep their meaning. A forward delete
//! deletes at one position over and over; written as one span it would read
//! back as deleting the span in the other direction, so each of its events stays an
//! update of its own.

use crate::agent_assignment::LV;
use crate::events;
use crate::events::EventAbs;
use crate::frontier::Frontier;
use crate::full_range;
use crate::full_range::Piece;
use crate::graph;
use crate::history::Hist;
use crate::operation;
use crate::operation::{EvOp, ListOpKind, OpAbs, TextOperation};
use crate::oplog::ListOpLog;
use crate::range::DTRange;
use crate::smart_string::SmartString;
use vstd::prelude::*;

verus! {

/// One event, or a run of events that is summarized.
#[derive(Debug, PartialEq, Eq)]
pub struct Update {
    pub agent: SmartString,
    /// The author's count of the last event. The counts of the earlier ones go back from
    /// it.
    pub seq_end: usize,
    /// What the first event follows.
    pub parents: Frontier,
    pub pos_start: usize,
    pub pos_end: usize,
    /// What is inserted at `pos_start`; none where `pos_start..pos_end` is deleted.
    pub content: Option<SmartString>,
}

/// What an [`Update`] says.
#[verifier::ext_equal]
pub struct UpdateAbs {
    pub name: Seq<char>,
    pub seq_end: int,
    pub parents: Seq<usize>,
    pub pos_start: int,
    pub pos_end: int,
    pub content: Option<Seq<char>>,
}

impl View for Update {
    type V = UpdateAbs;

    open spec fn view(&self) -> UpdateAbs {
        UpdateAbs {
            name: self.agent@,
            seq_end: self.seq_end as int,
            parents: self.parents@,
            pos_start: self.pos_start as int,
            pos_end: self.pos_end as int,
            content: match self.content {
                Some(c) => Some(c@),
                None => None,
            },
        }
    }
}

pub open spec fn updates_view(list: Seq<Update>) -> Seq<UpdateAbs> {
    list.map_values(|u: Update| u@)
}

impl Clone for Update {
    fn clone(&self) -> (out: Update)
        ensures
            out@ == self@,
    {
        Update {
            agent: self.agent.clone(),
            seq_end: self.seq_end,
            parents: self.parents.clone(),
            pos_start: self.pos_start,
            pos_end: self.pos_end,
            content: match &self.content {
                Some(c) => Some(c.clone()),
                None => None,
            },
        }
    }
}

/// A run of events that is gathered into one update.
#[derive(Debug)]
pub struct Run {
    pub op: TextOperation,
    pub agent: SmartString,
    pub seq_start: usize,
    pub parents: Frontier,
    pub last_lv: LV,
}

/// What a [`Run`] says.
#[verifier::ext_equal]
pub struct RunAbs {
    pub op: OpAbs,
    pub name: Seq<char>,
    pub seq_start: int,
    pub parents: Seq<usize>,
    pub last_lv: int,
}

impl View for Run {
    type V = RunAbs;

    open spec fn view(&self) -> RunAbs {
        RunAbs {
            op: self.op@,
            name: self.agent@,
            seq_start: self.seq_start as int,
            parents: self.parents@,
            last_lv: self.last_lv as int,
        }
    }
}

pub open spec fn is_fwd_del(op: OpAbs) -> bool {
    op.kind == ListOpKind::Del && op.fwd
}

/// Whether events join a run.
pub open spec fn joins_run(
    prev: RunAbs,
    name: Seq<char>,
    seq_start: int,
    parents: Seq<usize>,
    op: OpAbs,
) -> bool {
    &&& !is_fwd_del(op)
    &&& !is_fwd_del(prev.op)
    &&& prev.name == name
    &&& seq_start == prev.seq_start + prev.op.size()
    &&& parents == seq![prev.last_lv as usize]
    &&& prev.op.continued_by(op)
}

/// The event `k` of a forward delete as an update.
pub open spec fn single(run: RunAbs, k: int) -> UpdateAbs {
    UpdateAbs {
        name: run.name,
        seq_end: run.seq_start + k,
        parents: if k == 0 {
            run.parents
        } else {
            seq![(run.last_lv + 1 - run.op.size() + k - 1) as usize]
        },
        pos_start: run.op.start,
        pos_end: run.op.start + 1,
        content: None,
    }
}

/// A run as updates: one, or one per event for a forward delete.
pub open spec fn emitted(run: RunAbs) -> Seq<UpdateAbs> {
    if is_fwd_del(run.op) {
        Seq::new(run.op.size() as nat, |k: int| single(run, k))
    } else {
        seq![
            UpdateAbs {
                name: run.name,
                seq_end: run.seq_start + run.op.size() - 1,
                parents: run.parents,
                pos_start: run.op.start,
                pos_end: run.op.end,
                content: run.op.content,
            },
        ]
    }
}

/// Updates, and a run that may go on.
#[verifier::ext_equal]
pub struct Gather {
    pub out: Seq<UpdateAbs>,
    pub pending: Option<RunAbs>,
}

pub open spec fn run_of_piece(p: Piece) -> RunAbs {
    RunAbs {
        op: p.op,
        name: p.name,
        seq_start: p.seq,
        parents: p.parents,
        last_lv: p.end - 1,
    }
}

/// The updates where no run goes on.
pub open spec fn flushed(g: Gather) -> Seq<UpdateAbs> {
    match g.pending {
        Some(run) => g.out + emitted(run),
        None => g.out,
    }
}

/// The updates with more events.
pub open spec fn gather_step(g: Gather, p: Piece) -> Gather {
    match g.pending {
        Some(run) if joins_run(run, p.name, p.seq, p.parents, p.op) => Gather {
            out: g.out,
            pending: Some(RunAbs { op: run.op.with(p.op), last_lv: p.end - 1, ..run }),
        },
        _ => Gather { out: flushed(g), pending: Some(run_of_piece(p)) },
    }
}

/// Events as updates behind others.
pub open spec fn gather(out: Seq<UpdateAbs>, list: Seq<Piece>) -> Gather
    decreases list.len(),
{
    if list.len() == 0 {
        Gather { out, pending: None }
    } else {
        gather_step(gather(out, list.drop_last()), list.last())
    }
}

/// The updates for ranges of events, in order; runs never go on from one to the next.
pub open spec fn ranges_updates(log: ListOpLog, ranges: Seq<DTRange>) -> Seq<UpdateAbs>
    decreases ranges.len(),
{
    if ranges.len() == 0 {
        Seq::empty()
    } else {
        let r = ranges.last();
        flushed(
            gather(
                ranges_updates(log, ranges.drop_last()),
                full_range::pieces(log, r.start as int, r.end as int),
            ),
        )
    }
}

/// The updates that a version has not seen.
pub open spec fn updates_from(log: ListOpLog, version: Seq<usize>) -> Seq<UpdateAbs> {
    ranges_updates(
        log,
        graph::ranges_below(
            log.size(),
            |v: int| !graph::in_cone(log.cg.parents(), version, v),
        ),
    )
}

// ---- what updates tell ----

/// What event `k` of an update reads as: an insert types its content from the start
/// of the span on, a delete goes from the end of the span to its start.
pub open spec fn told_event(h: Hist, u: UpdateAbs, k: int) -> EventAbs {
    let seq = u.seq_end + 1 - (u.pos_end - u.pos_start) + k;
    EventAbs {
        id: (u.name, seq),
        parents: if k == 0 {
            events::ids_of(h, u.parents)
        } else {
            seq![(u.name, seq - 1)]
        },
        op: match u.content {
            Some(c) => EvOp::Ins { pos: u.pos_start + k, ch: c[k] },
            None => EvOp::Del { pos: u.pos_end - 1 - k },
        },
    }
}

/// The events that an update reads as.
pub open spec fn told(h: Hist, u: UpdateAbs) -> Seq<EventAbs> {
    Seq::new((u.pos_end - u.pos_start) as nat, |k: int| told_event(h, u, k))
}

/// The events that updates read as.
pub open spec fn told_all(h: Hist, list: Seq<UpdateAbs>) -> Seq<EventAbs>
    decreases list.len(),
{
    if list.len() == 0 {
        Seq::empty()
    } else {
        told_all(h, list.drop_last()) + told(h, list.last())
    }
}

pub proof fn lemma_told_concat(h: Hist, a: Seq<UpdateAbs>, b: Seq<UpdateAbs>)
    ensures
        told_all(h, a + b) == told_all(h, a) + told_all(h, b),
    decreases b.len(),
{
    if b.len() == 0 {
        assert(a + b =~= a);
        assert(told_all(h, a + b) =~= told_all(h, a) + told_all(h, b));
    } else {
        lemma_told_concat(h, a, b.drop_last());
        assert((a + b).drop_last() =~= a + b.drop_last());
        assert(told_all(h, a + b) =~= told_all(h, a) + told_all(h, b));
    }
}

/// Whether a run is a run of events of the history.
pub open spec fn run_holds(h: Hist, run: RunAbs) -> bool {
    full_range::is_run(
        h,
        run.last_lv + 1 - run.op.size(),
        run.op,
        run.parents,
        run.name,
        run.seq_start,
    )
}

proof fn lemma_single(h: Hist, run: RunAbs, k: int)
    requires
        run_holds(h, run),
        is_fwd_del(run.op),
        0 <= k < run.op.size(),
    ensures
        told(h, single(run, k)) == seq![events::event_of(h, run.last_lv + 1 - run.op.size() + k)],
{
    let first = run.last_lv + 1 - run.op.size();
    let u = single(run, k);
    assert(h.ops[first + k] == run.op.event(k));
    assert(told_event(h, u, 0).parents =~= events::event_of(h, first + k).parents);
    assert(told(h, u) =~= seq![events::event_of(h, first + k)]);
}

proof fn lemma_singles(h: Hist, run: RunAbs, k: int)
    requires
        run_holds(h, run),
        is_fwd_del(run.op),
        0 <= k <= run.op.size(),
    ensures
        ({
            let first = run.last_lv + 1 - run.op.size();
            told_all(h, emitted(run).take(k)) == events::events_between(h, first, first + k)
        }),
    decreases k,
{
    let first = run.last_lv + 1 - run.op.size();
    let all = emitted(run);
    if k == 0 {
        assert(told_all(h, all.take(0)) =~= events::events_between(h, first, first));
    } else {
        lemma_singles(h, run, k - 1);
        lemma_single(h, run, k - 1);
        assert(all.take(k).drop_last() =~= all.take(k - 1));
        assert(all.take(k).last() == single(run, k - 1));
        assert(told_all(h, all.take(k)) =~= events::events_between(h, first, first + k));
    }
}

/// The updates for a run read as its events.
pub proof fn lemma_emitted(h: Hist, run: RunAbs)
    requires
        run_holds(h, run),
    ensures
        told_all(h, emitted(run)) == events::events_between(
            h,
            run.last_lv + 1 - run.op.size(),
            run.last_lv + 1,
        ),
{
    let n = run.op.size();
    let first = run.last_lv + 1 - n;
    let all = emitted(run);
    if is_fwd_del(run.op) {
        lemma_singles(h, run, n);
        assert(all.take(n) =~= all);
    } else {
        let u = all[0];
        assert forall|k: int| 0 <= k < n implies #[trigger] told_event(h, u, k) == events::event_of(
            h,
            first + k,
        ) by {
            assert(h.ops[first + k] == run.op.event(k));
            if k > 0 {
                assert(h.ops[first + (k - 1)] == run.op.event(k - 1));
                assert(h.ids[first + (k - 1)] == (run.name, run.seq_start + (k - 1)));
                let before = (first + k - 1) as usize;
                assert(h.parents[first + k] == seq![before]);
                assert(events::ids_of(h, seq![before]) =~= seq![h.ids[before as int]]);
            }
        }
        assert(told(h, u) =~= events::events_between(h, first, first + n));
        assert(all.drop_last() =~= Seq::<UpdateAbs>::empty());
        assert(told_all(h, all.drop_last()) =~= Seq::<EventAbs>::empty());
        assert(told_all(h, all) =~= events::events_between(h, first, first + n));
    }
}

/// Whether a part is what its events are.
pub open spec fn piece_holds(h: Hist, p: Piece) -> bool {
    &&& p.op.size() == p.end - p.start
    &&& full_range::is_run(h, p.start, p.op, p.parents, p.name, p.seq)
}

/// Whether parts stand one behind the other from `from` on.
pub open spec fn in_a_row(h: Hist, list: Seq<Piece>, from: int) -> bool {
    &&& forall|i: int| 0 <= i < list.len() ==> piece_holds(h, #[trigger] list[i])
    &&& forall|i: int|
        0 <= i < list.len() ==> (#[trigger] list[i]).start == row_end(list.take(i), from)
}

/// Where parts that stand one behind the other from `from` on end.
pub open spec fn row_end(list: Seq<Piece>, from: int) -> int {
    if list.len() == 0 {
        from
    } else {
        list.last().end
    }
}

proof fn lemma_row_front(h: Hist, p: Piece, rest: Seq<Piece>)
    requires
        piece_holds(h, p),
        in_a_row(h, rest, p.end),
    ensures
        in_a_row(h, seq![p] + rest, p.start),
        row_end(seq![p] + rest, p.start) == row_end(rest, p.end),
{
    let all = seq![p] + rest;
    assert forall|i: int| 0 <= i < all.len() implies piece_holds(h, #[trigger] all[i]) by {
        if i > 0 {
            assert(all[i] == rest[i - 1]);
        }
    }
    assert forall|i: int| 0 <= i < all.len() implies (#[trigger] all[i]).start == row_end(
        all.take(i),
        p.start,
    ) by {
        if i > 0 {
            assert(all[i] == rest[i - 1]);
            assert(rest[i - 1].start == row_end(rest.take(i - 1), p.end));
            if i > 1 {
                assert(all.take(i).last() == rest[i - 2]);
                assert(rest.take(i - 1).last() == rest[i - 2]);
            } else {
                assert(all.take(i).last() == p);
            }
        }
    }
}

pub proof fn lemma_pieces(log: ListOpLog, from: int, to: int)
    requires
        log.inv(),
        0 <= from <= to <= log.size(),
    ensures
        in_a_row(log.hist(), full_range::pieces(log, from, to), from),
        row_end(full_range::pieces(log, from, to), from) == to,
    decreases to - from,
{
    if from < to {
        full_range::lemma_piece(log, from, to);
        let next = full_range::piece_end(log, from, to);
        lemma_pieces(log, next, to);
        lemma_row_front(
            log.hist(),
            full_range::piece_of(log, from, next),
            full_range::pieces(log, next, to),
        );
    }
}

/// Whether updates and a run that may go on read as the events `told` and behind
/// them those up to `at`.
pub open spec fn gathered(h: Hist, g: Gather, before: Seq<EventAbs>, from: int, at: int) -> bool {
    match g.pending {
        Some(run) => {
            &&& run_holds(h, run)
            &&& run.last_lv + 1 == at
            &&& from <= at - run.op.size()
            &&& told_all(h, g.out) == before + events::events_between(h, from, at - run.op.size())
        },
        None => from == at && told_all(h, g.out) == before,
    }
}

proof fn lemma_joined(h: Hist, run: RunAbs, p: Piece)
    requires
        run_holds(h, run),
        piece_holds(h, p),
        p.start == run.last_lv + 1,
        joins_run(run, p.name, p.seq, p.parents, p.op),
    ensures
        run_holds(h, RunAbs { op: run.op.with(p.op), last_lv: p.end - 1, ..run }),
        run.op.with(p.op).size() == run.op.size() + p.op.size(),
{
    let both = run.op.with(p.op);
    let n = run.op.size();
    let first = run.last_lv + 1 - n;
    operation::lemma_with(run.op, p.op);
    assert(both.events().len() == n + p.op.size());
    assert forall|k: int|
        #![trigger h.ops[first + k]]
        #![trigger h.ids[first + k]]
        #![trigger h.parents[first + k]]
        0 <= k < both.size() implies {
        &&& h.ops[first + k] == both.event(k)
        &&& h.ids[first + k] == (run.name, run.seq_start + k)
        &&& h.parents[first + k] == if k == 0 {
            run.parents
        } else {
            seq![(first + k - 1) as usize]
        }
    } by {
        assert(both.events()[k] == both.event(k));
        if k < n {
            assert(h.ops[first + k] == run.op.event(k));
            assert(run.op.events()[k] == run.op.event(k));
        } else {
            let j = k - n;
            assert(first + k == p.start + j);
            assert(h.ops[p.start + j] == p.op.event(j));
            assert(p.op.events()[j] == p.op.event(j));
        }
    }
}

/// Updates with more events read as these behind what they read as before.
pub proof fn lemma_gather_step(
    h: Hist,
    g: Gather,
    p: Piece,
    before: Seq<EventAbs>,
    from: int,
)
    requires
        gathered(h, g, before, from, p.start),
        piece_holds(h, p),
    ensures
        gathered(h, gather_step(g, p), before, from, p.end),
{
    match g.pending {
        Some(run) => {
            let n = run.op.size();
            if joins_run(run, p.name, p.seq, p.parents, p.op) {
                lemma_joined(h, run, p);
            } else {
                lemma_emitted(h, run);
                lemma_told_concat(h, g.out, emitted(run));
                assert(before + events::events_between(h, from, p.start - n) + events::events_between(
                    h,
                    p.start - n,
                    p.start,
                ) =~= before + events::events_between(h, from, p.start));
            }
        },
        None => {
            assert(before + events::events_between(h, from, p.start) =~= before);
        },
    }
}

pub proof fn lemma_gather(h: Hist, out: Seq<UpdateAbs>, list: Seq<Piece>, from: int)
    requires
        in_a_row(h, list, from),
    ensures
        gathered(h, gather(out, list), told_all(h, out), from, row_end(list, from)),
    decreases list.len(),
{
    if list.len() > 0 {
        let less = list.drop_last();
        assert forall|i: int| 0 <= i < less.len() implies piece_holds(h, #[trigger] less[i]) by {
            assert(less[i] == list[i]);
        }
        assert forall|i: int| 0 <= i < less.len() implies (#[trigger] less[i]).start == row_end(
            less.take(i),
            from,
        ) by {
            assert(less[i] == list[i]);
            assert(less.take(i) =~= list.take(i));
        }
        lemma_gather(h, out, less, from);
        let k = list.len() - 1;
        assert(list.take(k) =~= less);
        assert(list[k].start == row_end(less, from));
        assert(piece_holds(h, list[k]));
        lemma_gather_step(h, gather(out, less), list[k], told_all(h, out), from);
    }
}

proof fn lemma_flushed(h: Hist, g: Gather, before: Seq<EventAbs>, from: int, at: int)
    requires
        gathered(h, g, before, from, at),
    ensures
        told_all(h, flushed(g)) == before + events::events_between(h, from, at),
{
    match g.pending {
        Some(run) => {
            lemma_emitted(h, run);
            lemma_told_concat(h, g.out, emitted(run));
            let n = run.op.size();
            assert(before + events::events_between(h, from, at - n) + events::events_between(h, at - n, at)
                =~= before + events::events_between(h, from, at));
        },
        None => {
            assert(before + events::events_between(h, from, at) =~= before);
        },
    }
}

/// The updates for a span of events read as these events.
pub proof fn law_span_updates(log: ListOpLog, out: Seq<UpdateAbs>, from: int, to: int)
    requires
        log.inv(),
        0 <= from <= to <= log.size(),
    ensures
        told_all(
            log.hist(),
            flushed(gather(out, full_range::pieces(log, from, to))),
        ) == told_all(log.hist(), out) + events::events_between(log.hist(), from, to),
{
    let h = log.hist();
    let list = full_range::pieces(log, from, to);
    lemma_pieces(log, from, to);
    lemma_gather(h, out, list, from);
    lemma_flushed(h, gather(out, list), told_all(h, out), from, to);
}

/// The updates for adjacent spans read together as those for the span over both.
pub proof fn law_spans_tile(log: ListOpLog, from: int, mid: int, to: int)
    requires
        log.inv(),
        0 <= from <= mid <= to <= log.size(),
    ensures
        ({
            let h = log.hist();
            let none = Seq::<UpdateAbs>::empty();
            told_all(h, flushed(gather(none, full_range::pieces(log, from, mid)))) + told_all(
                h,
                flushed(gather(none, full_range::pieces(log, mid, to))),
            ) == told_all(h, flushed(gather(none, full_range::pieces(log, from, to))))
        }),
{
    let h = log.hist();
    let none = Seq::<UpdateAbs>::empty();
    law_span_updates(log, none, from, mid);
    law_span_updates(log, none, mid, to);
    law_span_updates(log, none, from, to);
    assert(told_all(h, none) =~= Seq::<EventAbs>::empty());
    assert(events::events_between(h, from, mid) + events::events_between(h, mid, to) =~= events::events_between(
        h,
        from,
        to,
    ));
}

/// The updates for the ranges of events that are chosen read as the events that are chosen.
proof fn lemma_ranges_updates(log: ListOpLog, n: int, chosen: spec_fn(int) -> bool)
    requires
        log.inv(),
        0 <= n <= log.size(),
    ensures
        told_all(log.hist(), ranges_updates(log, graph::ranges_below(n, chosen)))
            == events::events_chosen(log.hist(), n, chosen),
        ({
            let ranges = graph::ranges_below(n, chosen);
            ranges.len() > 0 ==> 0 <= ranges.last().start < ranges.last().end <= n
        }),
    decreases n,
{
    let h = log.hist();
    log.lemma_hist();
    if n > 0 {
        let before = graph::ranges_below(n - 1, chosen);
        let ranges = graph::ranges_below(n, chosen);
        lemma_ranges_updates(log, n - 1, chosen);
        if chosen(n - 1) {
            let r = ranges.last();
            let front = ranges.drop_last();
            law_span_updates(log, ranges_updates(log, front), r.start as int, r.end as int);
            if ranges.len() > before.len() {
                assert(front =~= before);
                assert(events::events_between(h, n - 1, n) =~= seq![events::event_of(h, n - 1)]);
            } else {
                assert(front =~= before.drop_last());
                let s = before.last();
                law_span_updates(log, ranges_updates(log, front), s.start as int, s.end as int);
                assert(events::events_between(h, r.start as int, n) =~= events::events_between(
                    h,
                    s.start as int,
                    n - 1,
                ).push(events::event_of(h, n - 1)));
            }
            assert(told_all(h, ranges_updates(log, ranges)) =~= events::events_chosen(h, n, chosen));
        }
    }
}

/// Nothing is lost: the updates that a version has not seen read as the events outside of
/// it, each with its author, what it follows and what it does, in the order of
/// the log, in which every event comes behind those that it follows.
pub proof fn law_updates_since(log: ListOpLog, version: Seq<usize>)
    requires
        log.inv(),
    ensures
        told_all(log.hist(), updates_from(log, version)) == events::events_chosen(
            log.hist(),
            log.size(),
            |v: int| !graph::in_cone(log.cg.parents(), version, v),
        ),
{
    log.lemma_hist();
    lemma_ranges_updates(
        log,
        log.size(),
        |v: int| !graph::in_cone(log.cg.parents(), version, v),
    );
}

// ---- what updates are like ----

/// Whether an update follows known events, and its events can be counted back.
pub open spec fn update_ok(h: Hist, u: UpdateAbs) -> bool {
    &&& graph::known(h.parents, u.parents)
    &&& 0 <= u.pos_start < u.pos_end
    &&& u.pos_end - u.pos_start <= u.seq_end + 1
    &&& u.seq_end < usize::MAX
}

pub open spec fn updates_ok(h: Hist, list: Seq<UpdateAbs>) -> bool {
    forall|i: int| 0 <= i < list.len() ==> update_ok(h, #[trigger] list[i])
}

/// The operation that an update is.
pub open spec fn update_op(u: UpdateAbs) -> OpAbs {
    OpAbs {
        kind: if u.content is Some {
            ListOpKind::Ins
        } else {
            ListOpKind::Del
        },
        start: u.pos_start,
        end: u.pos_end,
        fwd: u.content is Some,
        content: u.content,
    }
}

/// Whether an update is a run of events of the history.
pub open spec fn update_true(h: Hist, u: UpdateAbs) -> bool {
    &&& update_ok(h, u)
    &&& exists|first: int|
        #[trigger] full_range::is_run(
            h,
            first,
            update_op(u),
            u.parents,
            u.name,
            u.seq_end + 1 - (u.pos_end - u.pos_start),
        )
}

pub open spec fn updates_true(h: Hist, list: Seq<UpdateAbs>) -> bool {
    forall|i: int| 0 <= i < list.len() ==> update_true(h, #[trigger] list[i])
}

#[verifier::rlimit(40)]
proof fn lemma_emitted_ok(h: Hist, run: RunAbs)
    requires
        h.valid(),
        run_holds(h, run),
    ensures
        updates_true(h, emitted(run)),
{
    let n = run.op.size();
    let first = run.last_lv + 1 - n;
    assert(h.parents[first + 0] == run.parents);
    assert(graph::known(h.parents, run.parents)) by {
        assert forall|i: int| 0 <= i < run.parents.len() implies (#[trigger] run.parents[i])
            < h.parents.len() by {
            assert(h.parents[first][i] < first);
        }
    }
    let all = emitted(run);
    assert forall|k: int| 0 <= k < all.len() implies update_true(h, #[trigger] all[k]) by {
        let u = all[k];
        if is_fwd_del(run.op) {
            assert(u == single(run, k));
            assert(h.ops[first + k] == run.op.event(k));
            let op = update_op(u);
            assert forall|j: int|
                #![trigger h.ops[first + k + j]]
                #![trigger h.ids[first + k + j]]
                #![trigger h.parents[first + k + j]]
                0 <= j < op.size() implies {
                &&& h.ops[first + k + j] == op.event(j)
                &&& h.ids[first + k + j] == (u.name, u.seq_end + j)
                &&& h.parents[first + k + j] == if j == 0 {
                    u.parents
                } else {
                    seq![(first + k + j - 1) as usize]
                }
            } by {
                assert(j == 0);
                if k > 0 {
                    assert(h.parents[first + k] == seq![(first + k - 1) as usize]);
                }
            }
            let seq = u.seq_end + 1 - (u.pos_end - u.pos_start);
            assert(full_range::is_run(h, first + k, op, u.parents, u.name, seq));
            if k > 0 {
                assert(u.parents[0] < h.parents.len());
            }
        } else {
            assert(update_op(u) =~= run.op);
            let seq = u.seq_end + 1 - (u.pos_end - u.pos_start);
            assert(full_range::is_run(h, first, update_op(u), u.parents, u.name, seq));
        }
    }
}

proof fn lemma_concat_ok(h: Hist, a: Seq<UpdateAbs>, b: Seq<UpdateAbs>)
    requires
        updates_true(h, a),
        updates_true(h, b),
    ensures
        updates_true(h, a + b),
{
    let all = a + b;
    assert forall|i: int| 0 <= i < all.len() implies update_true(h, #[trigger] all[i]) by {
        if i < a.len() {
            assert(all[i] == a[i]);
        } else {
            assert(all[i] == b[i - a.len()]);
        }
    }
}

proof fn lemma_flushed_ok(h: Hist, g: Gather)
    requires
        h.valid(),
        updates_true(h, g.out),
        g.pending matches Some(run) ==> run_holds(h, run),
    ensures
        updates_true(h, flushed(g)),
{
    if let Some(run) = g.pending {
        lemma_emitted_ok(h, run);
        lemma_concat_ok(h, g.out, emitted(run));
    }
}

proof fn lemma_gather_ok(h: Hist, out: Seq<UpdateAbs>, list: Seq<Piece>, from: int)
    requires
        h.valid(),
        updates_true(h, out),
        in_a_row(h, list, from),
    ensures
        updates_true(h, gather(out, list).out),
    decreases list.len(),
{
    if list.len() > 0 {
        let less = list.drop_last();
        assert forall|i: int| 0 <= i < less.len() implies piece_holds(h, #[trigger] less[i]) by {
            assert(less[i] == list[i]);
        }
        assert forall|i: int| 0 <= i < less.len() implies (#[trigger] less[i]).start == row_end(
            less.take(i),
            from,
        ) by {
            assert(less[i] == list[i]);
            assert(less.take(i) =~= list.take(i));
        }
        lemma_gather_ok(h, out, less, from);
        lemma_gather(h, out, less, from);
        lemma_flushed_ok(h, gather(out, less));
    }
}

/// The updates for a span of events are as they should be.
pub proof fn lemma_span_ok(log: ListOpLog, out: Seq<UpdateAbs>, from: int, to: int)
    requires
        log.inv(),
        updates_true(log.hist(), out),
        0 <= from <= to <= log.size(),
    ensures
        updates_true(log.hist(), flushed(gather(out, full_range::pieces(log, from, to)))),
{
    let h = log.hist();
    let list = full_range::pieces(log, from, to);
    log.lemma_hist();
    lemma_pieces(log, from, to);
    lemma_gather_ok(h, out, list, from);
    lemma_gather(h, out, list, from);
    lemma_flushed_ok(h, gather(out, list));
}

proof fn lemma_ranges_ok(log: ListOpLog, ranges: Seq<DTRange>)
    requires
        log.inv(),
        forall|i: int|
            0 <= i < ranges.len() ==> (#[trigger] ranges[i]).start <= ranges[i].end <= log.size(),
    ensures
        updates_true(log.hist(), ranges_updates(log, ranges)),
    decreases ranges.len(),
{
    if ranges.len() > 0 {
        let less = ranges.drop_last();
        assert forall|i: int| 0 <= i < less.len() implies (#[trigger] less[i]).start
            <= less[i].end <= log.size() by {
            assert(less[i] == ranges[i]);
        }
        lemma_ranges_ok(log, less);
        let r = ranges[ranges.len() - 1];
        lemma_span_ok(log, ranges_updates(log, less), r.start as int, r.end as int);
    }
}

/// The updates that a version has not seen are runs of events.
pub proof fn lemma_updates_true(log: ListOpLog, version: Seq<usize>)
    requires
        log.inv(),
    ensures
        updates_true(log.hist(), updates_from(log, version)),
{
    let chosen = |v: int| !graph::in_cone(log.cg.parents(), version, v);
    graph::lemma_ranges_within(log.size(), chosen);
    lemma_ranges_ok(log, graph::ranges_below(log.size(), chosen));
}

// ---- gathering ----

/// Whether events join a run.
pub fn chains(
    prev: &Run,
    agent: &str,
    seq_start: usize,
    parents: &Frontier,
    op: &TextOperation,
) -> (out: bool)
    requires
        prev.op@.valid(),
        op@.valid(),
        prev.seq_start + prev.op@.size() <= usize::MAX,
    ensures
        out == joins_run(prev@, agent@, seq_start as int, parents@, op@),
{
    // Forward deletes stay at event grain.
    if op.kind == ListOpKind::Del && op.loc.fwd {
        return false;
    }
    if prev.op.kind == ListOpKind::Del && prev.op.loc.fwd {
        return false;
    }
    prev.agent.is_text(agent) && seq_start == prev.seq_start + prev.op.len() && parents.is_1(
        prev.last_lv,
    ) && prev.op.can_append(op)
}

/// Adds the updates for a run.
#[verifier::rlimit(50)]
fn emit(run: Run, out: &mut Vec<Update>)
    requires
        run.op@.valid(),
        run.seq_start + run.op@.size() <= usize::MAX,
        run.last_lv < usize::MAX,
        run.op@.size() <= run.last_lv + 1,
    ensures
        updates_view(final(out)@) == updates_view(old(out)@) + emitted(run@),
{
    let ghost was = updates_view(out@);
    let ghost told = run@;
    let len = run.op.len();
    if run.op.kind == ListOpKind::Del && run.op.loc.fwd {
        // One update per event, each following the one before it.
        let pos = run.op.loc.span.start;
        let first_lv = run.last_lv + 1 - len;
        let mut parents = run.parents;
        let mut k: usize = 0;
        assert(updates_view(out@) =~= was + emitted(told).take(0));
        while k < len
            invariant
                k <= len,
                told == run@,
                told.op.valid(),
                is_fwd_del(told.op),
                len == told.op.size(),
                pos == told.op.start,
                first_lv == told.last_lv + 1 - len,
                run.seq_start == told.seq_start,
                run.agent@ == told.name,
                run.seq_start + len <= usize::MAX,
                told.last_lv < usize::MAX,
                k < len ==> parents@ == single(told, k as int).parents,
                updates_view(out@) == was + emitted(told).take(k as int),
            decreases len - k,
        {
            let ghost before = updates_view(out@);
            let next = Frontier::new_1(first_lv + k);
            let u = Update {
                agent: run.agent.clone(),
                seq_end: run.seq_start + k,
                parents,
                pos_start: pos,
                pos_end: pos + 1,
                content: None,
            };
            assert(u@ =~= single(told, k as int));
            out.push(u);
            proof {
                assert(updates_view(out@) =~= before.push(single(told, k as int)));
                assert(updates_view(out@) =~= was + emitted(told).take(k + 1));
            }
            parents = next;
            k += 1;
        }
        assert(emitted(told).take(k as int) =~= emitted(told));
    } else {
        let u = Update {
            agent: run.agent,
            seq_end: run.seq_start + (len - 1),
            parents: run.parents,
            pos_start: run.op.loc.span.start,
            pos_end: run.op.loc.span.end,
            content: run.op.content,
        };
        assert(u@ =~= emitted(told)[0]);
        out.push(u);
        assert(updates_view(out@) =~= was + emitted(told));
    }
}

spec fn pending_view(pending: Option<Run>) -> Option<RunAbs> {
    match pending {
        Some(run) => Some(run@),
        None => None,
    }
}

impl ListOpLog {
    /// Adds the updates for a range of events.
    #[verifier::rlimit(50)]
    fn push_updates(&self, range: DTRange, out: &mut Vec<Update>)
        requires
            self.inv(),
            range.start <= range.end <= self.size(),
        ensures
            updates_view(final(out)@) == flushed(
                gather(
                    updates_view(old(out)@),
                    full_range::pieces(*self, range.start as int, range.end as int),
                ),
            ),
    {
        let ghost h = self.hist();
        let ghost was = updates_view(out@);
        let ghost from = range.start as int;
        let list = self.iter_full_range(range);
        let ghost all = full_range::pieces_view(list@);
        let mut pending: Option<Run> = None;
        let mut i: usize = 0;
        proof {
            self.lemma_hist();
            lemma_pieces(*self, from, range.end as int);
            assert(all.take(0) =~= Seq::<Piece>::empty());
        }
        while i < list.len()
            invariant
                self.inv(),
                h == self.hist(),
                h.len() <= usize::MAX,
                all == full_range::pieces_view(list@),
                in_a_row(h, all, from),
                forall|j: int|
                    0 <= j < list@.len() ==> {
                        &&& (#[trigger] list@[j]).1.span.start < list@[j].1.span.end
                        &&& list@[j].2.1.size() == list@[j].0@.size()
                    },
                i <= list@.len(),
                updates_view(out@) == gather(was, all.take(i as int)).out,
                pending_view(pending) == gather(was, all.take(i as int)).pending,
                gathered(
                    h,
                    gather(was, all.take(i as int)),
                    told_all(h, was),
                    from,
                    row_end(all.take(i as int), from),
                ),
            decreases list@.len() - i,
        {
            let ghost g = gather(was, all.take(i as int));
            let ghost p = all[i as int];
            proof {
                assert(p == full_range::piece_view(list@[i as int]));
                assert(piece_holds(h, p));
                assert(p.start == row_end(all.take(i as int), from));
                assert(all.take(i + 1).drop_last() =~= all.take(i as int));
                assert(all.take(i + 1).last() == p);
                lemma_gather_step(h, g, p, told_all(h, was), from);
            }
            let (op, entry, ids) = &list[i];
            let can_chain = match &pending {
                Some(run) => chains(run, ids.0, ids.1.start, &entry.parents, op),
                None => false,
            };
            pending = match pending {
                Some(mut run) => if can_chain {
                    run.last_lv = entry.span.last();
                    run.op.append(op.clone());
                    Some(run)
                } else {
                    emit(run, out);
                    None
                },
                None => None,
            };
            if !can_chain {
                let run = Run {
                    last_lv: entry.span.last(),
                    op: op.clone(),
                    agent: SmartString::from_text(ids.0),
                    seq_start: ids.1.start,
                    parents: entry.parents.clone(),
                };
                assert(run@ =~= run_of_piece(p));
                pending = Some(run);
            }
            i += 1;
        }
        assert(all.take(i as int) =~= all);
        if let Some(run) = pending {
            emit(run, out);
        }
    }

    /// The updates that `version` has not seen: all that the log holds outside of it, in
    /// causal order, with runs summarized where nothing is lost by it.
    pub fn updates_since(&self, version: &[LV]) -> (out: Vec<Update>)
        requires
            self.inv(),
            graph::known(self.cg.parents(), version@),
        ensures
            updates_view(out@) == updates_from(*self, version@),
            updates_true(self.hist(), updates_view(out@)),
    {
        let ranges = self.cg.diff_since(version);
        let mut out: Vec<Update> = Vec::new();
        let mut i: usize = 0;
        proof {
            assert(ranges@.take(0) =~= Seq::<DTRange>::empty());
            assert(updates_view(out@) =~= ranges_updates(*self, ranges@.take(0)));
        }
        while i < ranges.len()
            invariant
                self.inv(),
                i <= ranges@.len(),
                forall|j: int|
                    0 <= j < ranges@.len() ==> (#[trigger] ranges@[j]).start < ranges@[j].end
                        <= self.size(),
                updates_view(out@) == ranges_updates(*self, ranges@.take(i as int)),
            decreases ranges@.len() - i,
        {
            proof {
                assert(ranges@.take(i + 1).drop_last() =~= ranges@.take(i as int));
                assert(ranges@.take(i + 1).last() == ranges@[i as int]);
            }
            self.push_updates(ranges[i], &mut out);
            i += 1;
        }
        assert(ranges@.take(i as int) =~= ranges@);
        proof {
            lemma_ranges_ok(*self, ranges@);
        }
        out
    }

    /// The updates for a range of local versions, which is a slice of the document's
    /// past. Adjacent ranges tile.
    pub fn updates_in_span(&self, range: DTRange) -> (out: Vec<Update>)
        requires
            self.inv(),
            range.start <= range.end <= self.size(),
        ensures
            updates_view(out@) == flushed(
                gather(
                    Seq::empty(),
                    full_range::pieces(*self, range.start as int, range.end as int),
                ),
            ),
            updates_true(self.hist(), updates_view(out@)),
    {
        let mut out: Vec<Update> = Vec::new();
        assert(updates_view(out@) =~= Seq::<UpdateAbs>::empty());
        self.push_updates(range, &mut out);
        proof {
            lemma_span_ok(*self, Seq::empty(), range.start as int, range.end as int);
        }
        out
    }
}

} // verus!
