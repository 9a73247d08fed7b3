//! From one version of a document to another: what only the other one has is made, and
//! what only the one has is undone.

use crate::agent_assignment::LV;
use crate::braid;
use crate::braid::XfOp;
use crate::graph;
use crate::history;
use crate::history::Hist;
use crate::operation;
use crate::operation::{ListOpKind, OpAbs, TextOperation};
use crate::oplog::ListOpLog;
use crate::patches;
use crate::patches::Patch;
use crate::plan;
use crate::text_buffer::TextBuffer;
use crate::xf_absolute;
use crate::xf_runs;
use crate::xf_runs::XfRun;
use vstd::prelude::*;

verus! {

// ---- undoing replacements ----

/// What puts back what a patch of `doc` replaced.
pub open spec fn undone_patch(doc: Seq<char>, p: Patch) -> Patch {
    Patch {
        start: p.start,
        end: p.start + p.content.len(),
        content: doc.subrange(p.start, p.end),
    }
}

/// What puts back what patches made one after the other in `doc` replaced, the last
/// of them first.
pub open spec fn undone_patches(doc: Seq<char>, list: Seq<Patch>) -> Seq<Patch>
    decreases list.len(),
{
    if list.len() == 0 {
        Seq::empty()
    } else {
        let before = list.drop_last();
        seq![undone_patch(patches::apply_relative(doc, before), list.last())] + undone_patches(
            doc,
            before,
        )
    }
}

proof fn lemma_fits_front(n: int, list: Seq<Patch>)
    requires
        list.len() > 0,
        patches::relative_fits(n, list),
    ensures
        patches::relative_fits(n, list.drop_last()),
        0 <= list.last().start <= list.last().end <= patches::relative_len(n, list.drop_last()),
{
    let front = list.drop_last();
    let k = list.len() - 1;
    assert(list.take(k) =~= front);
    assert(list[k] == list.last());
    assert forall|j: int| 0 <= j < front.len() implies 0 <= (#[trigger] front[j]).start
        <= front[j].end <= patches::relative_len(n, front.take(j)) by {
        assert(front[j] == list[j]);
        assert(front.take(j) =~= list.take(j));
    }
}

/// Patches have the length that they lead to.
pub proof fn lemma_applied_len(doc: Seq<char>, list: Seq<Patch>)
    requires
        patches::relative_fits(doc.len() as int, list),
    ensures
        patches::apply_relative(doc, list).len() == patches::relative_len(doc.len() as int, list),
    decreases list.len(),
{
    if list.len() > 0 {
        lemma_fits_front(doc.len() as int, list);
        lemma_applied_len(doc, list.drop_last());
    }
}

/// Patches made behind others.
pub proof fn lemma_applied_behind(doc: Seq<char>, a: Seq<Patch>, b: Seq<Patch>)
    requires
        patches::relative_fits(doc.len() as int, a),
        patches::relative_fits(patches::relative_len(doc.len() as int, a), b),
    ensures
        patches::relative_fits(doc.len() as int, a + b),
        patches::relative_len(doc.len() as int, a + b) == patches::relative_len(
            patches::relative_len(doc.len() as int, a),
            b,
        ),
        patches::apply_relative(doc, a + b) == patches::apply_relative(
            patches::apply_relative(doc, a),
            b,
        ),
    decreases b.len(),
{
    let n = doc.len() as int;
    let all = a + b;
    if b.len() == 0 {
        assert(all =~= a);
    } else {
        let less = b.drop_last();
        let mid = patches::relative_len(n, a);
        lemma_fits_front(mid, b);
        lemma_applied_behind(doc, a, less);
        assert(all.drop_last() =~= a + less);
        assert(all.last() == b.last());
        assert forall|k: int| 0 <= k < all.len() implies 0 <= (#[trigger] all[k]).start
            <= all[k].end <= patches::relative_len(n, all.take(k)) by {
            if k < all.len() - 1 {
                assert(all[k] == (a + less)[k]);
                assert(all.take(k) =~= (a + less).take(k));
            } else {
                assert(all.take(k) =~= a + less);
            }
        }
    }
}

/// Undoing patches gives back the text that they were made in.
pub proof fn law_undone(doc: Seq<char>, list: Seq<Patch>)
    requires
        patches::relative_fits(doc.len() as int, list),
    ensures
        ({
            let after = patches::apply_relative(doc, list);
            let back = undone_patches(doc, list);
            &&& patches::relative_fits(after.len() as int, back)
            &&& patches::apply_relative(after, back) == doc
        }),
    decreases list.len(),
{
    if list.len() > 0 {
        let before = list.drop_last();
        let p = list.last();
        let mid = patches::apply_relative(doc, before);
        let after = patches::apply_relative(doc, list);
        let first = seq![undone_patch(mid, p)];
        lemma_fits_front(doc.len() as int, list);
        lemma_applied_len(doc, before);
        law_undone(doc, before);
        assert(first.drop_last() =~= Seq::<Patch>::empty());
        assert(patches::apply_relative(after, first.drop_last()) == after);
        assert(patches::apply_relative(after, first) =~= mid);
        assert(patches::relative_len(after.len() as int, first.drop_last()) == after.len());
        assert forall|k: int| 0 <= k < first.len() implies 0 <= (#[trigger] first[k]).start
            <= first[k].end <= patches::relative_len(after.len() as int, first.take(k)) by {
            assert(first.take(k) =~= first.drop_last());
        }
        lemma_applied_len(after, first);
        lemma_applied_behind(after, first, undone_patches(doc, before));
    }
}

// ---- undoing operations ----

/// The operation that undoes another one, which was made in `doc`.
pub open spec fn undone_op(doc: Seq<char>, op: OpAbs) -> OpAbs {
    match op.kind {
        ListOpKind::Ins => OpAbs {
            kind: ListOpKind::Del,
            start: op.start,
            end: op.end,
            fwd: true,
            content: None,
        },
        ListOpKind::Del => operation::insert_abs(op.start, doc.subrange(op.start, op.end)),
    }
}

/// The operations that undo others, which were made one after the other in `doc`: the last
/// of them first. Each stands for the events that it undoes.
pub open spec fn undone(doc: Seq<char>, runs: Seq<XfRun>) -> Seq<XfRun>
    decreases runs.len(),
{
    if runs.len() == 0 {
        Seq::empty()
    } else {
        let before = runs.drop_last();
        let last = runs.last();
        match last.op {
            Some(op) => seq![
                XfRun {
                    op: Some(
                        undone_op(
                            patches::apply_relative(doc, xf_absolute::run_patches(before)),
                            op,
                        ),
                    ),
                    ..last
                },
            ] + undone(doc, before),
            None => undone(doc, before),
        }
    }
}

/// The operations that turn the document at `from` into the one at `to`: first those that
/// merge `to` into it, and then what takes away again what `to` does not have.
pub open spec fn travel(log: ListOpLog, from: Seq<usize>, to: Seq<usize>) -> Seq<XfRun> {
    let h = log.hist();
    braid::applied(xf_runs::xf_runs(log, from, to)) + undone(
        history::document(h, h.version(to)),
        xf_runs::xf_runs(log, to, from),
    )
}

/// What an operation does to a text.
pub open spec fn op_patch(x: XfOp) -> Patch {
    if x.kind@ == "Ins"@ {
        Patch { start: x.start as int, end: x.start as int, content: x.content@ }
    } else {
        Patch { start: x.start as int, end: x.end as int, content: Seq::empty() }
    }
}

pub open spec fn op_patches(list: Seq<XfOp>) -> Seq<Patch> {
    list.map_values(|x: XfOp| op_patch(x))
}

/// Whether operations are those of the given runs, one by one.
pub open spec fn say_runs(h: Hist, out: Seq<XfOp>, list: Seq<XfRun>) -> bool {
    &&& out.len() == list.len()
    &&& forall|i: int| 0 <= i < out.len() ==> braid::says_run(h, #[trigger] out[i], list[i])
}

/// Whether operations, made one after the other in the document of one set of events, make
/// that of another; each one finds its place in the document that those before it make.
pub open spec fn leads(h: Hist, from: Set<int>, to: Set<int>, out: Seq<XfOp>) -> bool {
    let doc = history::document(h, from);
    &&& patches::relative_fits(doc.len() as int, op_patches(out))
    &&& patches::apply_relative(doc, op_patches(out)) == history::document(h, to)
}

proof fn lemma_patches_behind(a: Seq<XfRun>, b: Seq<XfRun>)
    ensures
        xf_absolute::run_patches(a + b) == xf_absolute::run_patches(a) + xf_absolute::run_patches(
            b,
        ),
    decreases b.len(),
{
    if b.len() == 0 {
        assert(a + b =~= a);
        assert(xf_absolute::run_patches(a + b) =~= xf_absolute::run_patches(a)
            + xf_absolute::run_patches(b));
    } else {
        lemma_patches_behind(a, b.drop_last());
        assert((a + b).drop_last() =~= a + b.drop_last());
        assert(xf_absolute::run_patches(a + b) =~= xf_absolute::run_patches(a)
            + xf_absolute::run_patches(b));
    }
}

/// Undoing operations is undoing what they replace.
proof fn lemma_undone_patches(doc: Seq<char>, runs: Seq<XfRun>)
    requires
        xf_runs::runs_ok(runs),
        patches::relative_fits(doc.len() as int, xf_absolute::run_patches(runs)),
    ensures
        xf_absolute::run_patches(undone(doc, runs)) == undone_patches(
            doc,
            xf_absolute::run_patches(runs),
        ),
    decreases runs.len(),
{
    let list = xf_absolute::run_patches(runs);
    if runs.len() > 0 {
        let before = runs.drop_last();
        let last = runs.last();
        assert(xf_runs::run_ok(runs[runs.len() - 1]));
        assert forall|i: int| 0 <= i < before.len() implies xf_runs::run_ok(
            #[trigger] before[i],
        ) by {
            assert(before[i] == runs[i]);
        }
        if let Some(op) = last.op {
            let was = xf_absolute::run_patches(before);
            assert(list.drop_last() =~= was);
            lemma_fits_front(doc.len() as int, list);
            lemma_undone_patches(doc, before);
            lemma_applied_len(doc, was);
            let mid = patches::apply_relative(doc, was);
            let x = undone_op(mid, op);
            let one = seq![XfRun { op: Some(x), ..last }];
            lemma_patches_behind(one, undone(doc, before));
            assert(one.drop_last() =~= Seq::<XfRun>::empty());
            assert(xf_absolute::run_patches(one.drop_last()) =~= Seq::<Patch>::empty());
            assert(one.last().op == Some(x));
            assert(xf_absolute::run_patches(one) =~= seq![xf_absolute::patch_of(x)]);
            assert(xf_absolute::patch_of(x) =~= undone_patch(mid, list.last()));
        } else {
            lemma_undone_patches(doc, before);
        }
    }
}

proof fn lemma_applied_patches(runs: Seq<XfRun>)
    ensures
        xf_absolute::run_patches(braid::applied(runs)) == xf_absolute::run_patches(runs),
    decreases runs.len(),
{
    if runs.len() > 0 {
        let less = runs.drop_last();
        lemma_applied_patches(less);
        if runs.last().op is Some {
            assert(braid::applied(runs).drop_last() =~= braid::applied(less));
        }
    }
}

proof fn lemma_say_patches(h: Hist, out: Seq<XfOp>, list: Seq<XfRun>)
    requires
        say_runs(h, out, list),
    ensures
        op_patches(out) == xf_absolute::run_patches(list),
    decreases list.len(),
{
    if list.len() == 0 {
        assert(op_patches(out) =~= xf_absolute::run_patches(list));
    } else {
        let k = out.len() - 1;
        let less = list.drop_last();
        let front = out.drop_last();
        assert forall|i: int| 0 <= i < front.len() implies braid::says_run(
            h,
            #[trigger] front[i],
            less[i],
        ) by {
            assert(front[i] == out[i]);
        }
        lemma_say_patches(h, front, less);
        assert(braid::says_run(h, out[k], list[k]));
        reveal_strlit("Ins");
        reveal_strlit("Del");
        assert("Ins"@[0] != "Del"@[0]);
        assert(op_patch(out[k]) =~= xf_absolute::patch_of(list.last().op->0));
        assert(op_patches(out) =~= op_patches(front).push(op_patch(out[k])));
    }
}

/// The operations from one version to another, made one after the other in the document at
/// the one, make the document at the other. Each one finds its place in the document that
/// those before it make.
pub proof fn law_travel(log: ListOpLog, from: Seq<usize>, to: Seq<usize>, out: Seq<XfOp>)
    requires
        log.inv(),
        history::playable(log.hist()),
        graph::known(log.cg.parents(), from),
        graph::known(log.cg.parents(), to),
        say_runs(log.hist(), out, travel(log, from, to)),
    ensures
        leads(log.hist(), log.hist().version(from), log.hist().version(to), out),
{
    let h = log.hist();
    let doc = history::document(h, h.version(from));
    let there = history::document(h, h.version(to));
    let go = xf_runs::xf_runs(log, from, to);
    let back = xf_runs::xf_runs(log, to, from);
    let a = xf_absolute::run_patches(go);
    let b = xf_absolute::run_patches(back);
    xf_absolute::law_xf_merges(log, from, to);
    xf_absolute::law_xf_merges(log, to, from);
    assert(h.version(from).union(h.version(to)) =~= h.version(to).union(h.version(from)));
    xf_runs::lemma_steps(log, to, from, log.size());
    lemma_undone_patches(there, back);
    lemma_applied_patches(go);
    lemma_patches_behind(braid::applied(go), undone(there, back));
    law_undone(there, b);
    lemma_applied_len(doc, a);
    lemma_applied_behind(doc, a, undone_patches(there, b));
    lemma_say_patches(h, out, travel(log, from, to));
}

/// The operations that take away from the document with `from` merged into `to` what
/// `to` does not have.
#[verifier::rlimit(50)]
pub(crate) fn undo_ops(oplog: &ListOpLog, from: &[LV], to: &[LV]) -> (out: Vec<XfOp>)
    requires
        oplog.inv(),
        history::playable(oplog.hist()),
        graph::known(oplog.cg.parents(), from@),
        graph::known(oplog.cg.parents(), to@),
    ensures
        say_runs(
            oplog.hist(),
            out@,
            undone(
                history::document(oplog.hist(), oplog.hist().version(to@)),
                xf_runs::xf_runs(*oplog, to@, from@),
            ),
        ),
{
    let ghost h = oplog.hist();
    let ghost doc = history::document(h, h.version(to@));
    let runs = oplog.iter_xf_operations_from(to, from);
    let ghost all = xf_runs::runs_view(runs@);
    let mut out: Vec<XfOp> = Vec::new();
    if runs.len() == 0 {
        assert(undone(doc, all) =~= Seq::<XfRun>::empty());
        return out;
    }
    let mut text = oplog.checkout(to).content;
    let mut back: Vec<XfOp> = Vec::new();
    let mut i: usize = 0;
    proof {
        oplog.lemma_hist();
        xf_absolute::law_xf_merges(*oplog, to@, from@);
        xf_runs::lemma_runs_within(*oplog, to@, from@, oplog.size());
        assert(all.take(0) =~= Seq::<XfRun>::empty());
    }
    while i < runs.len()
        invariant
            oplog.inv(),
            h == oplog.hist(),
            all == xf_runs::runs_view(runs@),
            xf_runs::runs_ok(all),
            forall|j: int| 0 <= j < all.len() ==> (#[trigger] all[j]).end <= oplog.size(),
            patches::relative_fits(doc.len() as int, xf_absolute::run_patches(all)),
            i <= runs@.len(),
            text@ == patches::apply_relative(doc, xf_absolute::run_patches(all.take(i as int))),
            say_runs(h, back@.reverse(), undone(doc, all.take(i as int))),
        decreases runs@.len() - i,
    {
        let ghost done = all.take(i as int);
        let ghost before = back@;
        proof {
            oplog.lemma_hist();
            assert(all[i as int] == xf_runs::run_view(runs@[i as int]));
            assert(xf_runs::run_ok(all[i as int]));
            assert(all.take(i + 1).drop_last() =~= done);
            assert(all.take(i + 1).last() == all[i as int]);
        }
        let (range, op) = &runs[i];
        if let Some(op) = op {
            proof {
                lemma_next_fits(doc, all, i as int);
            }
            let agent = String::from_str(
                oplog.cg.agent_assignment.local_to_remote_version(range.start).0,
            );
            let x = undo_op(&mut text, op, agent);
            back.push(x);
            proof {
                let list = undone(doc, all.take(i + 1));
                assert(back@.reverse() =~= seq![x] + before.reverse());
                assert forall|j: int| 0 <= j < back@.len() implies braid::says_run(
                    h,
                    #[trigger] back@.reverse()[j],
                    list[j],
                ) by {
                    if j > 0 {
                        assert(back@.reverse()[j] == before.reverse()[j - 1]);
                        assert(list[j] == undone(doc, done)[j - 1]);
                    }
                }
                let more = xf_absolute::run_patches(all.take(i + 1));
                assert(more.drop_last() =~= xf_absolute::run_patches(done));
                assert(text@ == patches::apply_relative(doc, more));
            }
        }
        i += 1;
    }
    proof {
        assert(all.take(i as int) =~= all);
    }
    let ghost list = undone(doc, all);
    let ghost total = back@;
    while back.len() > 0
        invariant
            say_runs(h, total.reverse(), list),
            back@.len() <= total.len(),
            back@ == total.take(back@.len() as int),
            out@ == total.reverse().take(total.len() - back@.len()),
        decreases back@.len(),
    {
        let ghost n = back@.len() as int;
        let x = back.pop().unwrap();
        out.push(x);
        proof {
            assert(back@ =~= total.take(n - 1));
            assert(out@ =~= total.reverse().take(total.len() - (n - 1)));
        }
    }
    assert(out@ =~= total.reverse());
    out
}

/// A run that comes next finds its place in the document that those before it make.
proof fn lemma_next_fits(doc: Seq<char>, all: Seq<XfRun>, i: int)
    requires
        0 <= i < all.len(),
        all[i].op is Some,
        patches::relative_fits(doc.len() as int, xf_absolute::run_patches(all)),
    ensures
        ({
            let p = xf_absolute::patch_of(all[i].op->0);
            0 <= p.start <= p.end <= patches::apply_relative(
                doc,
                xf_absolute::run_patches(all.take(i)),
            ).len()
        }),
    decreases all.len() - i,
{
    let n = doc.len() as int;
    if i == all.len() - 1 {
        let list = xf_absolute::run_patches(all);
        assert(all.take(i) =~= all.drop_last());
        assert(list.drop_last() =~= xf_absolute::run_patches(all.take(i)));
        lemma_fits_front(n, list);
        lemma_applied_len(doc, list.drop_last());
    } else {
        let less = all.drop_last();
        let list = xf_absolute::run_patches(all);
        if all.last().op is Some {
            assert(list.drop_last() =~= xf_absolute::run_patches(less));
            lemma_fits_front(n, list);
        }
        lemma_next_fits(doc, less, i);
        assert(less.take(i) =~= all.take(i));
    }
}

/// Makes an operation in a text. Gives the operation that undoes it.
fn undo_op(text: &mut TextBuffer, op: &TextOperation, agent: String) -> (out: XfOp)
    requires
        op@.valid(),
        ({
            let p = xf_absolute::patch_of(op@);
            0 <= p.start <= p.end <= old(text)@.len()
        }),
    ensures
        ({
            let p = xf_absolute::patch_of(op@);
            final(text)@ == patches::splice(old(text)@, p.start, p.end, p.content)
        }),
        out.agent == agent,
        forall|h: Hist, run: XfRun|
            run.op == Some(undone_op(old(text)@, op@)) && h.ids[run.start].0 == agent@
                ==> #[trigger] braid::says_run(h, out, run),
{
    let span = op.loc.span;
    match op.kind {
        ListOpKind::Ins => {
            if let Some(content) = op.content_as_str() {
                text.insert(span.start, content);
            }
            XfOp {
                agent,
                kind: "Del",
                start: span.start,
                end: span.end,
                fwd: true,
                content: String::new(),
            }
        },
        ListOpKind::Del => {
            let content = text.slice(span);
            text.remove(span);
            assert(text@ =~= patches::splice(
                old(text)@,
                span.start as int,
                span.end as int,
                Seq::empty(),
            ));
            XfOp { agent, kind: "Ins", start: span.start, end: span.end, fwd: true, content }
        },
    }
}

/// From a version to one that contains it, there is nothing to undo.
pub proof fn law_travel_on(log: ListOpLog, from: Seq<usize>, to: Seq<usize>)
    requires
        log.inv(),
        log.hist().version(from).subset_of(log.hist().version(to)),
    ensures
        travel(log, from, to) == braid::applied(xf_runs::xf_runs(log, from, to)),
{
    lemma_no_steps(log, to, from, log.size());
    assert(travel(log, from, to) =~= braid::applied(xf_runs::xf_runs(log, from, to)));
}

/// Where all of a version is there already, nothing is due.
pub proof fn lemma_no_steps(log: ListOpLog, from: Seq<usize>, merging: Seq<usize>, k: int)
    requires
        log.hist().version(merging).subset_of(log.hist().version(from)),
    ensures
        xf_runs::steps_to(log, from, merging, k) == Seq::<xf_runs::Step>::empty(),
    decreases k,
{
    if k > 0 {
        lemma_no_steps(log, from, merging, k - 1);
        let h = log.hist();
        if graph::in_cone(h.parents, merging, k - 1) {
            assert(h.version(merging).contains(k - 1));
            assert(h.version(from).contains(k - 1));
        }
        assert(!plan::due(h.parents, from, merging, k - 1));
    }
}

} // verus!
