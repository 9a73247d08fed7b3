//! Transformed events as operations: runs of events that continue each other.

use crate::agent_assignment::LV;
use crate::causal_graph;
use crate::graph;
use crate::history;
use crate::merge;
use crate::merge::{RawAbs, TransformedResultRaw, Xf};
use crate::operation;
use crate::operation::{OpAbs, TextOperation};
use crate::oplog;
use crate::oplog::ListOpLog;
use crate::plan;
use crate::plan::M1PlanAction;
use crate::range::DTRange;
use crate::rle;
use crate::rle::RleVal;
use crate::tracker::replay;
use vstd::prelude::*;

verus! {

/// An event as an operation of its own, in its place in the document that it finds.
#[verifier::ext_equal]
pub struct Step {
    pub lv: int,
    pub op: Option<OpAbs>,
}

/// Consecutive events as one operation; none if they delete what is gone.
#[verifier::ext_equal]
pub struct XfRun {
    pub start: int,
    pub end: int,
    pub op: Option<OpAbs>,
}

/// Event `v` as an operation of its own, in its place in the document that it finds.
pub open spec fn step_at(log: ListOpLog, from: Seq<usize>, merging: Seq<usize>, v: int) -> Step {
    Step {
        lv: v,
        op: match merge::xf_at(log.hist(), from, merging, v).ev {
            Some(ev) => Some(
                merge::moved_to(
                    rle::piece::<TextOperation>(log.operations.runs(), v, v + 1),
                    merge::pos_of(ev),
                ),
            ),
            None => None,
        },
    }
}

/// The events before `k` that are due, each as an operation of its own.
pub open spec fn steps_to(
    log: ListOpLog,
    from: Seq<usize>,
    merging: Seq<usize>,
    k: int,
) -> Seq<Step>
    decreases k,
{
    if k <= 0 {
        Seq::empty()
    } else {
        let before = steps_to(log, from, merging, k - 1);
        if plan::due(log.hist().parents, from, merging, k - 1) {
            before.push(step_at(log, from, merging, k - 1))
        } else {
            before
        }
    }
}

/// The runs with one more event: part of the last run if it continues it.
pub open spec fn run_step(runs: Seq<XfRun>, x: Step) -> Seq<XfRun> {
    let alone = runs.push(XfRun { start: x.lv, end: x.lv + 1, op: x.op });
    let last = runs.last();
    if runs.len() == 0 || last.end != x.lv {
        alone
    } else {
        match (last.op, x.op) {
            (None, None) => runs.drop_last().push(XfRun { end: x.lv + 1, ..last }),
            (Some(a), Some(b)) => if a.continued_by(b) {
                runs.drop_last().push(XfRun { end: x.lv + 1, op: Some(a.with(b)), ..last })
            } else {
                alone
            },
            _ => alone,
        }
    }
}

/// Events as runs.
pub open spec fn grouped(list: Seq<Step>) -> Seq<XfRun>
    decreases list.len(),
{
    if list.len() == 0 {
        Seq::empty()
    } else {
        run_step(grouped(list.drop_last()), list.last())
    }
}

/// The transformed operations that bring the document at one version up to another.
pub open spec fn xf_runs(log: ListOpLog, from: Seq<usize>, merging: Seq<usize>) -> Seq<XfRun> {
    grouped(steps_to(log, from, merging, log.size()))
}

/// What a list of transformed operations says.
pub open spec fn runs_view(list: Seq<(DTRange, Option<TextOperation>)>) -> Seq<XfRun> {
    list.map_values(|r: (DTRange, Option<TextOperation>)| run_view(r))
}

pub open spec fn run_view(r: (DTRange, Option<TextOperation>)) -> XfRun {
    XfRun {
        start: r.0.start as int,
        end: r.0.end as int,
        op: match r.1 {
            Some(op) => Some(op@),
            None => None,
        },
    }
}

/// Event `k` of a run.
pub open spec fn event_of_run(run: XfRun, k: int) -> Xf {
    Xf {
        lv: run.start + k,
        ev: match run.op {
            Some(op) => Some(op.event(k)),
            None => None,
        },
    }
}

/// The events of a run.
pub open spec fn events_of_run(run: XfRun) -> Seq<Xf> {
    Seq::new((run.end - run.start) as nat, |k: int| event_of_run(run, k))
}

/// The events of runs.
pub open spec fn events_of_runs(runs: Seq<XfRun>) -> Seq<Xf>
    decreases runs.len(),
{
    if runs.len() == 0 {
        Seq::empty()
    } else {
        events_of_runs(runs.drop_last()) + events_of_run(runs.last())
    }
}

/// Whether a run has one event per key.
pub open spec fn run_ok(run: XfRun) -> bool {
    &&& 0 <= run.start < run.end <= usize::MAX
    &&& run.op matches Some(op) ==> op.valid() && op.size() == run.end - run.start
}

pub open spec fn runs_ok(runs: Seq<XfRun>) -> bool {
    forall|i: int| 0 <= i < runs.len() ==> run_ok(#[trigger] runs[i])
}

pub open spec fn step_ok(x: Step) -> bool {
    &&& 0 <= x.lv < usize::MAX
    &&& x.op matches Some(op) ==> op.valid() && op.size() == 1
}

pub open spec fn event_of_step(x: Step) -> Xf {
    Xf {
        lv: x.lv,
        ev: match x.op {
            Some(op) => Some(op.event(0)),
            None => None,
        },
    }
}

pub proof fn lemma_run_step(runs: Seq<XfRun>, x: Step)
    requires
        runs_ok(runs),
        step_ok(x),
    ensures
        runs_ok(run_step(runs, x)),
        events_of_runs(run_step(runs, x)) == events_of_runs(runs).push(event_of_step(x)),
{
    let out = run_step(runs, x);
    let ev = event_of_step(x);
    if out.len() > runs.len() {
        let one = out.last();
        assert(out.drop_last() =~= runs);
        assert forall|i: int| 0 <= i < out.len() implies run_ok(#[trigger] out[i]) by {
            if i < runs.len() {
                assert(out[i] == runs[i]);
            }
        }
        assert(events_of_run(one) =~= seq![ev]);
        assert(events_of_runs(out) =~= events_of_runs(runs).push(ev));
    } else {
        let last = runs.last();
        let now = out.last();
        assert(last == runs[runs.len() - 1]);
        assert(run_ok(last));
        assert(out.drop_last() =~= runs.drop_last());
        if let (Some(a), Some(b)) = (last.op, x.op) {
            operation::lemma_with(a, b);
            assert forall|k: int| 0 <= k < now.end - now.start implies #[trigger] event_of_run(
                now,
                k,
            ) == events_of_run(last).push(ev)[k] by {
                assert(a.with(b).events()[k] == (a.events() + b.events())[k]);
                if k < a.size() {
                    assert(events_of_run(last)[k] == event_of_run(last, k));
                    assert(a.events()[k] == a.event(k));
                } else {
                    assert(b.events()[0] == b.event(0));
                }
            }
        }
        assert(events_of_run(now) =~= events_of_run(last).push(ev));
        assert forall|i: int| 0 <= i < out.len() implies run_ok(#[trigger] out[i]) by {
            if i < runs.len() - 1 {
                assert(out[i] == runs[i]);
            }
        }
        assert(events_of_runs(out) =~= events_of_runs(runs).push(ev));
    }
}

/// Each event that is due, as an operation of its own, is one event.
pub proof fn lemma_step_at(log: ListOpLog, from: Seq<usize>, merging: Seq<usize>, v: int)
    requires
        log.inv(),
        history::playable(log.hist()),
        0 <= v < log.size(),
        plan::due(log.hist().parents, from, merging, v),
    ensures
        step_ok(step_at(log, from, merging, v)),
        event_of_step(step_at(log, from, merging, v)) == merge::xf_at(
            log.hist(),
            from,
            merging,
            v,
        ),
{
    let h = log.hist();
    let runs = log.operations.runs();
    let x = merge::xf_at(h, from, merging, v);
    log.lemma_hist();
    rle::lemma_packed::<TextOperation>(runs, v);
    let i = rle::run_of::<TextOperation>(runs, v);
    assert(rle::covers::<TextOperation>(runs, i, v));
    rle::lemma_piece::<TextOperation>(runs, v, v + 1);
    let op = rle::piece::<TextOperation>(runs, v, v + 1);
    assert(TextOperation::item(op, v, 0) == rle::at::<TextOperation>(runs, v));
    reveal(oplog::op_at);
    assert(op.event(0) == h.ops[v]);
    if let Some(ev) = x.ev {
        merge::lemma_place_bound(h, from, merging, v);
        let m = merge::moved_to(op, merge::pos_of(ev));
        assert(m.event(0) == ev);
    }
}

pub proof fn lemma_steps(log: ListOpLog, from: Seq<usize>, merging: Seq<usize>, k: int)
    requires
        log.inv(),
        history::playable(log.hist()),
        0 <= k <= log.size(),
    ensures
        runs_ok(grouped(steps_to(log, from, merging, k))),
        events_of_runs(grouped(steps_to(log, from, merging, k))) == merge::xf_to(
            log.hist(),
            from,
            merging,
            k,
        ),
    decreases k,
{
    if k > 0 {
        let v = k - 1;
        lemma_steps(log, from, merging, v);
        if plan::due(log.hist().parents, from, merging, v) {
            let before = steps_to(log, from, merging, v);
            let list = steps_to(log, from, merging, k);
            assert(list.drop_last() =~= before);
            lemma_step_at(log, from, merging, v);
            lemma_run_step(grouped(before), step_at(log, from, merging, v));
        }
    }
}

/// Runs hold no other events than there are.
pub proof fn lemma_runs_within(log: ListOpLog, from: Seq<usize>, merging: Seq<usize>, k: int)
    requires
        0 <= k,
    ensures
        forall|i: int|
            0 <= i < grouped(steps_to(log, from, merging, k)).len() ==> (#[trigger] grouped(
                steps_to(log, from, merging, k),
            )[i]).end <= k,
    decreases k,
{
    if k > 0 {
        lemma_runs_within(log, from, merging, k - 1);
        let list = steps_to(log, from, merging, k);
        let before = grouped(steps_to(log, from, merging, k - 1));
        let out = grouped(list);
        if plan::due(log.hist().parents, from, merging, k - 1) {
            assert(list.drop_last() =~= steps_to(log, from, merging, k - 1));
            assert forall|i: int| 0 <= i < out.len() implies (#[trigger] out[i]).end <= k by {
                if i < out.len() - 1 {
                    assert(out[i] == before[i]);
                }
            }
        }
    }
}

/// The transformed operations stand for the events that are due, each in its place.
pub proof fn law_xf_runs(log: ListOpLog, from: Seq<usize>, merging: Seq<usize>)
    requires
        log.inv(),
        history::playable(log.hist()),
    ensures
        events_of_runs(xf_runs(log, from, merging)) == merge::xf_ops(log.hist(), from, merging),
{
    log.lemma_hist();
    lemma_steps(log, from, merging, log.size());
}

// ---- from results ----

/// Event `v` as the log has it.
pub open spec fn step_as_is(log: ListOpLog, v: int) -> Step {
    Step { lv: v, op: Some(rle::piece::<TextOperation>(log.operations.runs(), v, v + 1)) }
}

/// The events of a result, each as an operation of its own.
pub open spec fn steps_of(log: ListOpLog, raw: RawAbs) -> Seq<Step> {
    match raw {
        RawAbs::FF { start, end } => Seq::new(
            (end - start) as nat,
            |k: int| step_as_is(log, start + k),
        ),
        RawAbs::Apply { lv, xf_pos, op } => seq![
            Step { lv, op: Some(merge::moved_to(op, xf_pos)) },
        ],
        RawAbs::Gone { start, end } => Seq::new(
            (end - start) as nat,
            |k: int| Step { lv: start + k, op: None },
        ),
    }
}

/// The events of results, each as an operation of its own.
pub open spec fn steps_of_all(log: ListOpLog, raws: Seq<RawAbs>) -> Seq<Step>
    decreases raws.len(),
{
    if raws.len() == 0 {
        Seq::empty()
    } else {
        steps_of_all(log, raws.drop_last()) + steps_of(log, raws.last())
    }
}

/// Whether a result has its keys in order, and below `n`.
pub open spec fn raw_ok(raw: RawAbs, n: int) -> bool {
    match raw {
        RawAbs::FF { start, end } => 0 <= start < end <= n,
        RawAbs::Apply { lv, xf_pos, op } => 0 <= lv < n && 0 <= xf_pos < n && op.valid() && op.size()
            == 1,
        RawAbs::Gone { start, end } => 0 <= start < end <= n,
    }
}

pub open spec fn raws_ok(raws: Seq<RawAbs>, n: int) -> bool {
    forall|i: int| 0 <= i < raws.len() ==> raw_ok(#[trigger] raws[i], n)
}

pub proof fn lemma_steps_of_raws(
    log: ListOpLog,
    from: Seq<usize>,
    merging: Seq<usize>,
    allow_ff: bool,
    k: int,
)
    requires
        log.inv(),
        history::playable(log.hist()),
        0 <= k <= log.size(),
    ensures
        raws_ok(merge::raws_to(log, from, merging, allow_ff, k), log.size()),
        steps_of_all(log, merge::raws_to(log, from, merging, allow_ff, k)) == steps_to(
            log,
            from,
            merging,
            k,
        ),
    decreases k,
{
    let h = log.hist();
    log.lemma_hist();
    if k > 0 {
        let v = k - 1;
        lemma_steps_of_raws(log, from, merging, allow_ff, v);
        if plan::due(h.parents, from, merging, v) {
            let ff = allow_ff && plan::fast(h.parents, from, merging, v);
            let ev = merge::xf_at(h, from, merging, v).ev;
            let before = merge::raws_to(log, from, merging, allow_ff, v);
            let out = merge::raws_to(log, from, merging, allow_ff, k);
            let x = step_at(log, from, merging, v);
            lemma_step_at(log, from, merging, v);
            merge::lemma_place_bound(h, from, merging, v);
            if before.len() > 0 {
                assert(raw_ok(before[before.len() - 1], log.size()));
            }
            if ff {
                merge::law_fast(h, from, merging, v);
                let op = rle::piece::<TextOperation>(log.operations.runs(), v, v + 1);
                lemma_piece_at(log, v);
                assert(op.event(0) == h.ops[v]);
                assert(merge::moved_to(op, merge::pos_of(h.ops[v])) =~= op);
                assert(x =~= step_as_is(log, v));
            }
            lemma_piece_at(log, v);
            if out.len() > before.len() {
                assert(out.drop_last() =~= before);
                assert(steps_of(log, out.last()) =~= seq![x]);
            } else {
                assert(out.drop_last() =~= before.drop_last());
                assert(steps_of(log, out.last()) =~= steps_of(log, before.last()).push(x));
            }
            assert(steps_of_all(log, out) =~= steps_of_all(log, before).push(x));
            assert forall|i: int| 0 <= i < out.len() implies raw_ok(
                #[trigger] out[i],
                log.size(),
            ) by {
                if i < out.len() - 1 {
                    assert(out[i] == before[i]);
                }
            }
        }
    }
}

proof fn lemma_piece_at(log: ListOpLog, v: int)
    requires
        log.inv(),
        0 <= v < log.size(),
    ensures
        ({
            let runs = log.operations.runs();
            let op = rle::piece::<TextOperation>(runs, v, v + 1);
            &&& op.valid()
            &&& op.size() == 1
            &&& op.event(0) == log.hist().ops[v]
            &&& rle::has::<TextOperation>(runs, v)
            &&& v + 1 <= rle::break_after::<TextOperation>(runs, v, v + 1)
        }),
{
    let runs = log.operations.runs();
    log.lemma_hist();
    rle::lemma_packed::<TextOperation>(runs, v);
    let i = rle::run_of::<TextOperation>(runs, v);
    assert(rle::covers::<TextOperation>(runs, i, v));
    rle::lemma_piece::<TextOperation>(runs, v, v + 1);
    let op = rle::piece::<TextOperation>(runs, v, v + 1);
    assert(TextOperation::item(op, v, 0) == rle::at::<TextOperation>(runs, v));
    reveal(oplog::op_at);
}

/// Adds one event to the runs.
#[verifier::rlimit(40)]
fn push_run(out: &mut Vec<(DTRange, Option<TextOperation>)>, lv: usize, op: Option<TextOperation>)
    requires
        lv < usize::MAX,
        runs_ok(runs_view(old(out)@)),
        op matches Some(o) ==> o@.valid() && o@.size() == 1,
    ensures
        runs_ok(runs_view(final(out)@)),
        runs_view(final(out)@) == run_step(
            runs_view(old(out)@),
            Step {
                lv: lv as int,
                op: match op {
                    Some(o) => Some(o@),
                    None => None,
                },
            },
        ),
{
    let ghost x = step_of(lv, op);
    let ghost runs = runs_view(out@);
    proof {
        lemma_run_step(runs, x);
    }
    let alone = match out.pop() {
        None => true,
        Some((range, last)) => {
            proof {
                assert(runs[runs.len() - 1] == run_view((range, last)));
                assert(run_ok(runs[runs.len() - 1]));
                assert(runs_view(out@) =~= runs.drop_last());
            }
            let more = DTRange { start: range.start, end: lv + 1 };
            if range.end != lv {
                out.push((range, last));
                true
            } else {
                match (last, &op) {
                    (None, None) => {
                        out.push((more, None));
                        false
                    },
                    (Some(a), Some(b)) => {
                        if a.can_append(b) {
                            let mut a = a;
                            a.append(b.clone());
                            out.push((more, Some(a)));
                            false
                        } else {
                            out.push((range, Some(a)));
                            true
                        }
                    },
                    (Some(a), None) => {
                        out.push((range, Some(a)));
                        true
                    },
                    (None, Some(_)) => {
                        out.push((range, None));
                        true
                    },
                }
            }
        },
    };
    if alone {
        proof {
            assert(runs_view(out@) =~= runs);
        }
        out.push((DTRange { start: lv, end: lv + 1 }, op));
    }
    assert(runs_view(out@) =~= run_step(runs, x));
}

spec fn step_of(lv: usize, op: Option<TextOperation>) -> Step {
    Step {
        lv: lv as int,
        op: match op {
            Some(o) => Some(o@),
            None => None,
        },
    }
}

proof fn lemma_grouped_push(list: Seq<Step>, x: Step)
    ensures
        grouped(list.push(x)) == run_step(grouped(list), x),
{
    assert(list.push(x).drop_last() =~= list);
}

impl ListOpLog {
    /// Adds the events of a result to the runs.
    #[verifier::rlimit(50)]
    fn push_result(
        &self,
        out: &mut Vec<(DTRange, Option<TextOperation>)>,
        raw: &TransformedResultRaw,
        Ghost(done): Ghost<Seq<Step>>,
    )
        requires
            self.inv(),
            runs_ok(runs_view(old(out)@)),
            raw_ok(raw@, self.size()),
            runs_view(old(out)@) == grouped(done),
        ensures
            runs_ok(runs_view(final(out)@)),
            runs_view(final(out)@) == grouped(done + steps_of(*self, raw@)),
    {
        let ghost more = steps_of(*self, raw@);
        proof {
            self.lemma_hist();
        }
        match raw {
            TransformedResultRaw::FF(r) => {
                let mut v: usize = r.start;
                assert(done + more.take(0) =~= done);
                while v < r.end
                    invariant
                        self.inv(),
                        r.start <= v <= r.end,
                        0 <= r.start < r.end <= self.size() <= usize::MAX,
                        more == steps_of(*self, raw@),
                        raw@ == (RawAbs::FF { start: r.start as int, end: r.end as int }),
                        runs_ok(runs_view(out@)),
                        runs_view(out@) == grouped(done + more.take(v - r.start)),
                    decreases r.end - v,
                {
                    proof {
                        lemma_piece_at(*self, v as int);
                    }
                    let op = self.operations.piece_at(v, v + 1);
                    proof {
                        let k = v - r.start;
                        assert(more[k] == step_as_is(*self, v as int));
                        assert(done + more.take(k + 1) =~= (done + more.take(k)).push(more[k]));
                        lemma_grouped_push(done + more.take(k), more[k]);
                    }
                    push_run(out, v, Some(op));
                    v += 1;
                }
                assert(more.take(r.end - r.start) =~= more);
            },
            TransformedResultRaw::Apply { xf_pos, op } => {
                let mut moved = op.1.clone();
                let len = moved.len();
                moved.loc.span = DTRange { start: *xf_pos, end: *xf_pos + len };
                proof {
                    assert(moved@ =~= merge::moved_to(op.1@, *xf_pos as int));
                    assert(more =~= seq![Step { lv: op.0 as int, op: Some(moved@) }]);
                    assert(done + more =~= done.push(more[0]));
                    lemma_grouped_push(done, more[0]);
                }
                push_run(out, op.0, Some(moved));
            },
            TransformedResultRaw::DeleteAlreadyHappened(r) => {
                let mut v: usize = r.start;
                assert(done + more.take(0) =~= done);
                while v < r.end
                    invariant
                        r.start <= v <= r.end,
                        0 <= r.start < r.end <= self.size() <= usize::MAX,
                        more == steps_of(*self, raw@),
                        raw@ == (RawAbs::Gone { start: r.start as int, end: r.end as int }),
                        runs_ok(runs_view(out@)),
                        runs_view(out@) == grouped(done + more.take(v - r.start)),
                    decreases r.end - v,
                {
                    proof {
                        let k = v - r.start;
                        assert(more[k] == (Step { lv: v as int, op: None }));
                        assert(done + more.take(k + 1) =~= (done + more.take(k)).push(more[k]));
                        lemma_grouped_push(done + more.take(k), more[k]);
                    }
                    push_run(out, v, None);
                    v += 1;
                }
                assert(more.take(r.end - r.start) =~= more);
            },
        }
    }

    fn runs_from(&self, from: &[LV], merging: &[LV], allow_ff: bool) -> (out: Vec<
        (DTRange, Option<TextOperation>),
    >)
        requires
            self.inv(),
            history::playable(self.hist()),
            graph::known(self.cg.parents(), from@),
            graph::known(self.cg.parents(), merging@),
        ensures
            runs_view(out@) == xf_runs(*self, from@, merging@),
            runs_ok(runs_view(out@)),
    {
        proof {
            self.lemma_hist();
            lemma_steps_of_raws(*self, from@, merging@, allow_ff, self.size());
        }
        let raws = self.transform(from, merging, allow_ff);
        let ghost all = merge::raws_view(raws@);
        let mut out: Vec<(DTRange, Option<TextOperation>)> = Vec::new();
        let mut i: usize = 0;
        proof {
            assert(all.take(0) =~= Seq::<RawAbs>::empty());
            assert(steps_of_all(*self, all.take(0)) =~= Seq::<Step>::empty());
            assert(runs_view(out@) =~= grouped(steps_of_all(*self, all.take(0))));
        }
        while i < raws.len()
            invariant
                self.inv(),
                all == merge::raws_view(raws@),
                raws_ok(all, self.size()),
                i <= raws@.len(),
                runs_ok(runs_view(out@)),
                runs_view(out@) == grouped(steps_of_all(*self, all.take(i as int))),
            decreases raws@.len() - i,
        {
            proof {
                assert(all[i as int] == raws@[i as int]@);
                assert(all.take(i + 1).drop_last() =~= all.take(i as int));
                assert(all.take(i + 1).last() == raws@[i as int]@);
            }
            self.push_result(&mut out, &raws[i], Ghost(steps_of_all(*self, all.take(i as int))));
            i += 1;
        }
        assert(all.take(i as int) =~= all);
        out
    }

    /// Makes the plan for merging everything into an empty document, and drops it.
    pub fn dbg_bench_make_plan(&self)
        requires
            self.inv(),
    {
        let root: Vec<LV> = Vec::new();
        let _plan = self.cg.graph.make_m1_plan(root.as_slice(), self.cg.version.as_ref(), false);
    }

    /// The results that bring the document at one version up to another.
    pub fn get_xf_operations_full(&self, from: &[LV], merging: &[LV]) -> (out: Vec<
        TransformedResultRaw,
    >)
        requires
            self.inv(),
            history::playable(self.hist()),
            graph::known(self.cg.parents(), from@),
            graph::known(self.cg.parents(), merging@),
        ensures
            merge::raws_view(out@) == merge::raws_to(*self, from@, merging@, true, self.size()),
    {
        self.transform(from, merging, true)
    }

    /// The transformed operations from one version to another: the changes that, made
    /// one after the other, bring the document at `from` up to date with `merging`.
    /// The log holds every change as it was when it was made; these are positioned
    /// against the document that each one finds. A range without an operation
    /// deletes what is gone already.
    pub fn iter_xf_operations_from(&self, from: &[LV], merging: &[LV]) -> (out: Vec<
        (DTRange, Option<TextOperation>),
    >)
        requires
            self.inv(),
            history::playable(self.hist()),
            graph::known(self.cg.parents(), from@),
            graph::known(self.cg.parents(), merging@),
        ensures
            runs_view(out@) == xf_runs(*self, from@, merging@),
            runs_ok(runs_view(out@)),
    {
        self.runs_from(from, merging, true)
    }

    /// All transformed operations from the start of time.
    pub fn iter_xf_operations(&self) -> (out: Vec<(DTRange, Option<TextOperation>)>)
        requires
            self.inv(),
            history::playable(self.hist()),
        ensures
            runs_view(out@) == xf_runs(*self, Seq::empty(), self.cg.version@),
            runs_ok(runs_view(out@)),
    {
        let root: Vec<LV> = Vec::new();
        assert(root@ =~= Seq::<usize>::empty());
        self.iter_xf_operations_from(root.as_slice(), self.cg.version.as_ref())
    }

    /// All transformed operations from the start of time, worked out without taking any
    /// event as it is. They are the same.
    pub fn dbg_iter_xf_operations_no_ff(&self) -> (out: Vec<(DTRange, Option<TextOperation>)>)
        requires
            self.inv(),
            history::playable(self.hist()),
        ensures
            runs_view(out@) == xf_runs(*self, Seq::empty(), self.cg.version@),
            runs_ok(runs_view(out@)),
    {
        let root: Vec<LV> = Vec::new();
        assert(root@ =~= Seq::<usize>::empty());
        self.runs_from(root.as_slice(), self.cg.version.as_ref(), false)
    }

    /// Whether events inserted at the same place without knowledge of each other.
    pub fn has_conflicts_when_merging(&self) -> (out: bool)
        requires
            self.inv(),
            history::playable(self.hist()),
        ensures
            out == exists|v: int| 0 <= v < self.size() && #[trigger] history::collides(
                self.hist(),
                v,
            ),
    {
        replay(self).unwrap().collided
    }

    /// Whether every event finds its place in the document that its author saw.
    pub fn is_playable(&self) -> (out: bool)
        requires
            self.inv(),
        ensures
            out == history::playable(self.hist()),
    {
        replay(self).is_some()
    }

    /// Of the plan for merging everything into an empty document: how often it
    /// clears, how many events it transforms, and how many it takes as they are.
    #[verifier::rlimit(40)]
    pub fn get_ff_stats(&self) -> (out: (usize, usize, usize))
        requires
            self.inv(),
        ensures
            ({
                let plan = plan::plan_to(
                    self.cg.parents(),
                    Seq::empty(),
                    self.cg.version@,
                    true,
                    self.size(),
                );
                &&& out.0 == plan::clears(plan)
                &&& out.1 == plan::advances(plan, false)
                &&& out.2 == plan::advances(plan, true)
            }),
    {
        let root: Vec<LV> = Vec::new();
        assert(root@ =~= Seq::<usize>::empty());
        let plan = self.cg.graph.make_m1_plan(root.as_slice(), self.cg.version.as_ref(), true);
        let ghost all = plan.0@;
        let n = self.len();
        let mut cleared: usize = 0;
        let mut normal_advances: usize = 0;
        let mut ff: usize = 0;
        let mut i: usize = 0;
        proof {
            assert(all.take(0) =~= Seq::<M1PlanAction>::empty());
            plan::lemma_plan_bound(
                self.cg.parents(),
                Seq::empty(),
                self.cg.version@,
                true,
                self.size(),
            );
        }
        while i < plan.0.len()
            invariant
                all == plan.0@,
                i <= all.len(),
                plan::plan_ok(all),
                cleared == plan::clears(all.take(i as int)),
                normal_advances == plan::advances(all.take(i as int), false),
                ff == plan::advances(all.take(i as int), true),
                cleared <= i,
                plan::advances(all, false) + plan::advances(all, true) <= n,
            decreases all.len() - i,
        {
            proof {
                assert(all.take(i + 1).drop_last() =~= all.take(i as int));
                assert(all.take(i + 1).last() == all[i as int]);
                plan::lemma_advances(all, i + 1, false);
                plan::lemma_advances(all, i + 1, true);
            }
            match plan.0[i] {
                M1PlanAction::Apply(span) => {
                    normal_advances += span.len();
                },
                M1PlanAction::Clear => {
                    cleared += 1;
                },
                M1PlanAction::FF(span) => {
                    ff += span.len();
                },
            }
            i += 1;
        }
        assert(all.take(i as int) =~= all);
        (cleared, normal_advances, ff)
    }
}

proof fn lemma_all_due(log: ListOpLog, allow_ff: bool, k: int)
    requires
        log.inv(),
        0 <= k <= log.size(),
    ensures
        plan::due_to(log.cg.parents(), Seq::empty(), log.cg.version@, allow_ff, k).len() == k,
    decreases k,
{
    if k > 0 {
        lemma_all_due(log, allow_ff, k - 1);
        log.lemma_hist();
        causal_graph::lemma_tips_cone(log.cg.parents(), log.cg.version@, k - 1);
        assert(plan::due(log.cg.parents(), Seq::empty(), log.cg.version@, k - 1));
    }
}

/// What is transformed and what is taken as it is when everything is merged into an empty
/// document add up to all events.
pub proof fn law_ff_stats(log: ListOpLog)
    requires
        log.inv(),
    ensures
        ({
            let plan = plan::plan_to(
                log.cg.parents(),
                Seq::empty(),
                log.cg.version@,
                true,
                log.size(),
            );
            plan::advances(plan, false) + plan::advances(plan, true) == log.size()
        }),
{
    log.lemma_hist();
    plan::law_plan_adds_up(
        log.cg.parents(),
        Seq::empty(),
        log.cg.version@,
        true,
        log.size(),
    );
    lemma_all_due(log, true, log.size());
}

} // verus!
