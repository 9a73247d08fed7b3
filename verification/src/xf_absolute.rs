//! What has happened since a version, as replacements in the text of that version.

use crate::agent_assignment::LV;
use crate::branch;
use crate::graph;
use crate::history;
use crate::history_laws;
use crate::lengths;
use crate::merge;
use crate::merge::Xf;
use crate::operation;
use crate::operation::{EvOp, ListOpKind, OpAbs, TextOperation};
use crate::oplog::ListOpLog;
use crate::patch_laws;
use crate::patches;
use crate::patches::{Patch, Replacement};
use crate::range::DTRange;
use crate::relative_to_absolute;
use crate::relative_to_absolute::relative_to_absolute_patches;
use crate::segments::HUGE;
use crate::smart_string::SmartString;
use crate::travel;
use crate::xf_runs;
use crate::xf_runs::XfRun;
use vstd::prelude::*;

verus! {

/// An operation as a replacement: an insert replaces nothing, a delete puts nothing.
pub open spec fn patch_of(op: OpAbs) -> Patch {
    match op.kind {
        ListOpKind::Ins => Patch {
            start: op.start,
            end: op.start,
            content: match op.content {
                Some(c) => c,
                None => Seq::empty(),
            },
        },
        ListOpKind::Del => Patch { start: op.start, end: op.end, content: Seq::empty() },
    }
}

/// Transformed operations as replacements, without those that do nothing.
pub open spec fn run_patches(runs: Seq<XfRun>) -> Seq<Patch>
    decreases runs.len(),
{
    if runs.len() == 0 {
        Seq::empty()
    } else {
        let before = run_patches(runs.drop_last());
        match runs.last().op {
            Some(op) => before.push(patch_of(op)),
            None => before,
        }
    }
}

/// The events of an operation, made one after the other behind others.
proof fn lemma_after_run(doc: Seq<char>, list: Seq<Xf>, run: XfRun, k: int)
    requires
        xf_runs::run_ok(run),
        0 <= k <= run.end - run.start,
    ensures
        ({
            let more = xf_runs::events_of_run(run).take(k);
            let mid = merge::after_xf(doc, list);
            match run.op {
                Some(op) => {
                    &&& merge::after_xf(doc, list + more) == operation::after_all(
                        mid,
                        op.events().take(k),
                    )
                    &&& merge::xf_fits(doc, list + more) == (merge::xf_fits(doc, list)
                        && operation::fits_all(mid, op.events().take(k)))
                },
                None => {
                    &&& merge::after_xf(doc, list + more) == mid
                    &&& merge::xf_fits(doc, list + more) == merge::xf_fits(doc, list)
                },
            }
        }),
    decreases k,
{
    let more = xf_runs::events_of_run(run).take(k);
    if k == 0 {
        assert(list + more =~= list);
        if let Some(op) = run.op {
            assert(op.events().take(0) =~= Seq::<EvOp>::empty());
        }
    } else {
        lemma_after_run(doc, list, run, k - 1);
        let less = xf_runs::events_of_run(run).take(k - 1);
        assert((list + more).drop_last() =~= list + less);
        assert((list + more).last() == xf_runs::event_of_run(run, k - 1));
        if let Some(op) = run.op {
            assert(op.events().take(k).drop_last() =~= op.events().take(k - 1));
            assert(op.events().take(k).last() == op.event(k - 1));
        }
    }
}

/// Runs of events do as replacements what their events do.
proof fn lemma_run_patches(doc: Seq<char>, runs: Seq<XfRun>)
    requires
        xf_runs::runs_ok(runs),
        merge::xf_fits(doc, xf_runs::events_of_runs(runs)),
    ensures
        ({
            let rel = run_patches(runs);
            let evs = xf_runs::events_of_runs(runs);
            &&& patches::apply_relative(doc, rel) == merge::after_xf(doc, evs)
            &&& patches::relative_fits(doc.len() as int, rel)
            &&& patches::relative_len(doc.len() as int, rel) == merge::after_xf(doc, evs).len()
            &&& patches::inserted_len(rel) <= evs.len()
            &&& rel.len() <= runs.len()
        }),
    decreases runs.len(),
{
    let rel = run_patches(runs);
    let n = doc.len() as int;
    if runs.len() > 0 {
        let before = runs.drop_last();
        let run = runs.last();
        let evs = xf_runs::events_of_runs(before);
        let more = xf_runs::events_of_run(run);
        assert(xf_runs::run_ok(runs[runs.len() - 1]));
        assert forall|i: int| 0 <= i < before.len() implies xf_runs::run_ok(
            #[trigger] before[i],
        ) by {
            assert(before[i] == runs[i]);
        }
        lemma_after_run(doc, evs, run, run.end - run.start);
        assert(more.take(run.end - run.start) =~= more);
        let mid = merge::after_xf(doc, evs);
        match run.op {
            Some(op) => {
                assert(op.events().take(op.size()) =~= op.events());
                lemma_run_patches(doc, before);
                operation::law_op_is_its_events(mid, op);
                let p = patch_of(op);
                let was = run_patches(before);
                assert(rel.drop_last() =~= was);
                assert(patches::splice(mid, p.start, p.end, p.content) =~= operation::after_op(
                    mid,
                    op,
                ));
                assert forall|k: int| 0 <= k < rel.len() implies 0 <= (#[trigger] rel[k]).start
                    <= rel[k].end <= patches::relative_len(n, rel.take(k)) by {
                    if k < was.len() {
                        assert(rel[k] == was[k]);
                        assert(rel.take(k) =~= was.take(k));
                    } else {
                        assert(rel.take(k) =~= was);
                    }
                }
            },
            None => {
                lemma_run_patches(doc, before);
            },
        }
    }
}

/// The length that a base of another length would lead to.
pub proof fn lemma_relative_len(a: int, b: int, rel: Seq<Patch>)
    ensures
        patches::relative_len(b, rel) == patches::relative_len(a, rel) + (b - a),
    decreases rel.len(),
{
    if rel.len() > 0 {
        lemma_relative_len(a, b, rel.drop_last());
    }
}

/// A document has no more characters than there are events.
pub proof fn lemma_document_len(h: history::Hist, s: Set<int>)
    requires
        history::playable(h),
    ensures
        history::document(h, s).len() <= h.len(),
{
    let t = history::whole(h);
    history_laws::lemma_track(h, h.len() as int);
    merge::lemma_few_items(h, t);
    history::lemma_kept_len(t.items, history::shows(t, s), t.items.len() as int);
}

fn to_patch(op: &TextOperation) -> (out: Replacement)
    ensures
        out@ == patch_of(op@),
{
    let start = op.loc.span.start;
    match op.kind {
        ListOpKind::Ins => Replacement {
            range: DTRange { start, end: start },
            content: match &op.content {
                Some(c) => c.clone(),
                None => SmartString::new(),
            },
        },
        ListOpKind::Del => Replacement { range: op.loc.span, content: SmartString::new() },
    }
}

impl ListOpLog {
    /// The transformed changes since `frontier`, as replacements in absolute coordinates
    /// of the text at `frontier`.
    pub fn xf_absolute_since(&self, frontier: &[LV]) -> (out: Vec<Replacement>)
        requires
            self.inv(),
            self.size() < HUGE,
            history::playable(self.hist()),
            graph::known(self.cg.parents(), frontier@),
        ensures
            patches::patches_of(out@) == patches::absolute(
                run_patches(xf_runs::xf_runs(*self, frontier@, self.cg.version@)),
            ),
    {
        let runs = self.iter_xf_operations_from(frontier, self.cg.version.as_ref());
        let ghost all = xf_runs::runs_view(runs@);
        let mut rel: Vec<Replacement> = Vec::new();
        let mut i: usize = 0;
        proof {
            assert(all.take(0) =~= Seq::<XfRun>::empty());
            assert(patches::patches_of(rel@) =~= run_patches(all.take(0)));
        }
        while i < runs.len()
            invariant
                all == xf_runs::runs_view(runs@),
                i <= runs@.len(),
                patches::patches_of(rel@) == run_patches(all.take(i as int)),
            decreases runs@.len() - i,
        {
            proof {
                assert(all[i as int] == xf_runs::run_view(runs@[i as int]));
                assert(all.take(i + 1).drop_last() =~= all.take(i as int));
                assert(all.take(i + 1).last() == all[i as int]);
            }
            let ghost was = patches::patches_of(rel@);
            if let Some(op) = &runs[i].1 {
                let p = to_patch(op);
                rel.push(p);
                assert(patches::patches_of(rel@) =~= was.push(patch_of(op@)));
            }
            i += 1;
        }
        proof {
            assert(all.take(i as int) =~= all);
            lemma_convertible(*self, frontier@);
        }
        relative_to_absolute_patches(rel.as_slice())
    }
}

proof fn lemma_convertible(log: ListOpLog, frontier: Seq<usize>)
    requires
        log.inv(),
        log.size() < HUGE,
        history::playable(log.hist()),
        graph::known(log.cg.parents(), frontier),
    ensures
        relative_to_absolute::convertible(
            run_patches(xf_runs::xf_runs(log, frontier, log.cg.version@)),
        ),
{
    let h = log.hist();
    let tip = log.cg.version@;
    let runs = xf_runs::xf_runs(log, frontier, tip);
    let rel = run_patches(runs);
    let doc = history::document(h, h.version(frontier));
    let n = doc.len() as int;
    log.lemma_hist();
    xf_runs::lemma_steps(log, frontier, tip, log.size());
    merge::law_xf(h, frontier, tip);
    lemma_run_patches(doc, runs);
    lemma_document_len(h, h.version(frontier));
    lengths::lemma_xf_len(h, frontier, tip, log.size());
    assert forall|k: int| 0 <= k < rel.len() implies 0 <= (#[trigger] rel[k]).start <= rel[k].end
        < patches::relative_len(HUGE as int, rel.take(k)) by {
        lemma_relative_len(n, HUGE as int, rel.take(k));
    }
}

/// The transformed operations between two versions, made one after the other in the
/// document at the one, make the document with the other merged in. Each one finds its
/// place in the document that those before it make.
pub proof fn law_xf_merges(log: ListOpLog, from: Seq<usize>, to: Seq<usize>)
    requires
        log.inv(),
        history::playable(log.hist()),
        graph::known(log.cg.parents(), from),
        graph::known(log.cg.parents(), to),
    ensures
        ({
            let h = log.hist();
            let doc = history::document(h, h.version(from));
            let list = run_patches(xf_runs::xf_runs(log, from, to));
            &&& patches::relative_fits(doc.len() as int, list)
            &&& patches::apply_relative(doc, list) == history::document(
                h,
                h.version(from).union(h.version(to)),
            )
            &&& h.version(from).subset_of(h.version(to)) ==> patches::apply_relative(doc, list)
                == history::document(h, h.version(to))
        }),
{
    let h = log.hist();
    log.lemma_hist();
    if h.version(from).subset_of(h.version(to)) {
        assert(h.version(from).union(h.version(to)) =~= h.version(to));
    }
    xf_runs::lemma_steps(log, from, to, log.size());
    merge::law_xf(h, from, to);
    lemma_run_patches(history::document(h, h.version(from)), xf_runs::xf_runs(log, from, to));
}

/// The replacements since a version, each made in the text at that version, make the text
/// with all events of it. They stand in ascending order, within that text, and
/// with at least one of its characters between any two of them. Since the newest version
/// there are none.
pub proof fn law_absolute_since(log: ListOpLog, frontier: Seq<usize>)
    requires
        log.inv(),
        history::playable(log.hist()),
        graph::known(log.cg.parents(), frontier),
    ensures
        ({
            let h = log.hist();
            let doc = history::document(h, h.version(frontier));
            let out = patches::absolute(
                run_patches(xf_runs::xf_runs(log, frontier, log.cg.version@)),
            );
            &&& patches::apply_absolute(doc, out) == history::document(
                h,
                Set::new(|v: int| 0 <= v < log.size()),
            )
            &&& patches::separated(out)
            &&& patches::within(out, doc.len() as int)
            &&& h.version(frontier) == Set::new(|v: int| 0 <= v < log.size()) ==> out.len() == 0
        }),
{
    let h = log.hist();
    let tip = log.cg.version@;
    let runs = xf_runs::xf_runs(log, frontier, tip);
    let doc = history::document(h, h.version(frontier));
    log.lemma_hist();
    xf_runs::lemma_steps(log, frontier, tip, log.size());
    merge::law_xf(h, frontier, tip);
    lemma_run_patches(doc, runs);
    patch_laws::law_absolute_applies(doc, run_patches(runs));
    patch_laws::law_absolute_separated(doc.len(), run_patches(runs));
    branch::law_tip(log);
    let all = Set::new(|v: int| 0 <= v < log.size());
    assert(h.version(frontier).union(h.version(tip)) =~= all) by {
        assert forall|v: int| #[trigger] h.version(frontier).contains(v) implies all.contains(
            v,
        ) by {
            graph::lemma_cone_order(h.parents, frontier, v);
        }
    }
    if h.version(frontier) == all {
        travel::lemma_no_steps(log, frontier, tip, log.size());
    }
}

} // verus!
