//! The document at a version of a log.

use crate::agent_assignment::LV;
use crate::causal_graph;
use crate::frontier;
use crate::frontier::Frontier;
use crate::graph;
use crate::history;
use crate::history::Hist;
use crate::lengths;
use crate::merge;
use crate::merge::{RawAbs, TransformedResultRaw, Xf};
use crate::operation;
use crate::operation::{EvOp, ListOpKind, OpAbs, TextOperation};
use crate::oplog;
use crate::oplog::ListOpLog;
use crate::range::DTRange;
use crate::text_buffer::TextBuffer;
use crate::xf_runs;
use vstd::prelude::*;

verus! {

/// The document at a version.
#[derive(Debug)]
pub struct ListBranch {
    pub version: Frontier,
    pub content: TextBuffer,
}

// ---- events in their places ----

proof fn lemma_after_concat(doc: Seq<char>, a: Seq<EvOp>, b: Seq<EvOp>)
    ensures
        operation::after_all(doc, a + b) == operation::after_all(operation::after_all(doc, a), b),
        operation::fits_all(doc, a + b) == (operation::fits_all(doc, a) && operation::fits_all(
            operation::after_all(doc, a),
            b,
        )),
    decreases b.len(),
{
    if b.len() == 0 {
        assert(a + b =~= a);
    } else {
        lemma_after_concat(doc, a, b.drop_last());
        assert((a + b).drop_last() =~= a + b.drop_last());
    }
}

/// Events that all have a place do what they do as they are.
proof fn lemma_after_xf(doc: Seq<char>, list: Seq<Xf>, more: Seq<Xf>, evs: Seq<EvOp>)
    requires
        more.len() == evs.len(),
        forall|i: int| 0 <= i < more.len() ==> (#[trigger] more[i]).ev == Some(evs[i]),
    ensures
        merge::after_xf(doc, list + more) == operation::after_all(merge::after_xf(doc, list), evs),
        merge::xf_fits(doc, list + more) == (merge::xf_fits(doc, list) && operation::fits_all(
            merge::after_xf(doc, list),
            evs,
        )),
    decreases more.len(),
{
    if more.len() == 0 {
        assert(list + more =~= list);
    } else {
        let k = more.len() - 1;
        assert(more[k].ev == Some(evs[k]));
        lemma_after_xf(doc, list, more.drop_last(), evs.drop_last());
        assert((list + more).drop_last() =~= list + more.drop_last());
    }
}

/// Events that have no place do nothing.
proof fn lemma_after_none(doc: Seq<char>, list: Seq<Xf>, more: Seq<Xf>)
    requires
        forall|i: int| 0 <= i < more.len() ==> (#[trigger] more[i]).ev is None,
    ensures
        merge::after_xf(doc, list + more) == merge::after_xf(doc, list),
    decreases more.len(),
{
    if more.len() == 0 {
        assert(list + more =~= list);
    } else {
        assert(more[more.len() - 1].ev is None);
        lemma_after_none(doc, list, more.drop_last());
        assert((list + more).drop_last() =~= list + more.drop_last());
    }
}

/// The events of the first results find their place if those of all do.
proof fn lemma_fits_prefix(h: Hist, doc: Seq<char>, raws: Seq<RawAbs>, k: int)
    requires
        0 <= k <= raws.len(),
        merge::xf_fits(doc, merge::xfs_all(h, raws)),
    ensures
        merge::xf_fits(doc, merge::xfs_all(h, raws.take(k))),
    decreases raws.len() - k,
{
    if k == raws.len() {
        assert(raws.take(k) =~= raws);
    } else {
        lemma_fits_prefix(h, doc, raws, k + 1);
        let next = raws.take(k + 1);
        assert(next.drop_last() =~= raws.take(k));
        lemma_fits_front(
            doc,
            merge::xfs_all(h, raws.take(k)),
            merge::xfs_of(h, next.last()),
        );
    }
}

proof fn lemma_fits_front(doc: Seq<char>, a: Seq<Xf>, b: Seq<Xf>)
    requires
        merge::xf_fits(doc, a + b),
    ensures
        merge::xf_fits(doc, a),
    decreases b.len(),
{
    if b.len() == 0 {
        assert(a + b =~= a);
    } else {
        assert((a + b).drop_last() =~= a + b.drop_last());
        lemma_fits_front(doc, a, b.drop_last());
    }
}

/// Two lists of newest events together hold what each one holds.
pub proof fn lemma_union_version(h: Hist, a: Seq<usize>, b: Seq<usize>, out: Seq<usize>)
    requires
        graph::known(h.parents, a),
        graph::known(h.parents, b),
        graph::is_dominators(h.parents, a + b, out),
    ensures
        h.version(out) == h.version(a).union(h.version(b)),
{
    let list = a + b;
    assert(graph::known(h.parents, list));
    assert forall|x: int| #[trigger] h.version(out).contains(x) == h.version(a).union(
        h.version(b),
    ).contains(x) by {
        graph::lemma_dominators_cone(h.parents, list, out, x);
        if graph::in_cone(h.parents, list, x) {
            let i = choose|i: int|
                0 <= i < list.len() && #[trigger] graph::reaches(h.parents, list[i] as int, x);
            if i < a.len() {
                assert(graph::reaches(h.parents, a[i] as int, x));
            } else {
                assert(graph::reaches(h.parents, b[i - a.len()] as int, x));
            }
        }
        if graph::in_cone(h.parents, a, x) {
            let i = choose|i: int|
                0 <= i < a.len() && #[trigger] graph::reaches(h.parents, a[i] as int, x);
            assert(graph::reaches(h.parents, list[i] as int, x));
        }
        if graph::in_cone(h.parents, b, x) {
            let i = choose|i: int|
                0 <= i < b.len() && #[trigger] graph::reaches(h.parents, b[i] as int, x);
            assert(graph::reaches(h.parents, list[a.len() + i] as int, x));
        }
    }
    assert(h.version(out) =~= h.version(a).union(h.version(b)));
}

/// Merging two versions one after the other comes to the same in either order: `ab` is
/// where `from` ends up by way of `a`, and `ba` by way of `b`.
pub proof fn law_merge_order(
    h: Hist,
    from: Seq<usize>,
    a: Seq<usize>,
    b: Seq<usize>,
    with_a: Seq<usize>,
    ab: Seq<usize>,
    with_b: Seq<usize>,
    ba: Seq<usize>,
)
    requires
        graph::known(h.parents, from),
        graph::known(h.parents, a),
        graph::known(h.parents, b),
        graph::is_dominators(h.parents, from + a, with_a),
        graph::is_dominators(h.parents, with_a + b, ab),
        graph::is_dominators(h.parents, from + b, with_b),
        graph::is_dominators(h.parents, with_b + a, ba),
    ensures
        ab == ba,
        history::document(h, h.version(with_a).union(h.version(b))) == history::document(
            h,
            h.version(with_b).union(h.version(a)),
        ),
{
    let g = h.parents;
    assert(graph::known(g, from + a));
    assert(graph::known(g, from + b));
    graph::lemma_dominators_known(g, from + a, with_a);
    graph::lemma_dominators_known(g, from + b, with_b);
    assert(graph::known(g, with_a + b));
    assert(graph::known(g, with_b + a));
    lemma_union_version(h, from, a, with_a);
    lemma_union_version(h, from, b, with_b);
    lemma_union_version(h, with_a, b, ab);
    lemma_union_version(h, with_b, a, ba);
    assert(h.version(with_a).union(h.version(b)) =~= h.version(with_b).union(h.version(a)));
    assert forall|v: int| #[trigger] graph::in_cone(g, ab, v) == graph::in_cone(g, ba, v) by {
        assert(h.version(ab).contains(v) == h.version(ba).contains(v));
    }
    graph::lemma_dominators_unique(g, with_a + b, with_b + a, ab, ba);
}

/// Merging what is part of a version already changes nothing.
#[verifier::rlimit(40)]
pub proof fn law_merge_again(h: Hist, from: Seq<usize>, a: Seq<usize>, with_a: Seq<usize>)
    requires
        graph::known(h.parents, from),
        graph::known(h.parents, a),
        graph::is_dominators(h.parents, from + a, with_a),
    ensures
        graph::is_dominators(h.parents, with_a + a, with_a),
        h.version(with_a).union(h.version(a)) == h.version(with_a),
{
    let g = h.parents;
    assert(graph::known(g, from + a));
    graph::lemma_dominators_known(g, from + a, with_a);
    lemma_union_version(h, from, a, with_a);
    assert(h.version(with_a).union(h.version(a)) =~= h.version(with_a));
    let list = with_a + a;
    assert forall|x: usize| #[trigger] with_a.contains(x) <==> list.contains(x)
        && !graph::dominated(g, list, x) by {
        if with_a.contains(x) {
            let i = with_a.index_of(x);
            assert(list[i] == x);
            if graph::dominated(g, list, x) {
                let j = choose|j: int|
                    0 <= j < list.len() && list[j] != x && #[trigger] graph::reaches(
                        g,
                        list[j] as int,
                        x as int,
                    );
                let y = list[j];
                assert(y < g.len());
                assert(graph::reaches(g, y as int, y as int));
                assert(h.version(with_a).contains(y as int)) by {
                    if j < with_a.len() {
                        assert(graph::reaches(g, with_a[j] as int, y as int));
                    } else {
                        assert(graph::reaches(g, a[j - with_a.len()] as int, y as int));
                        assert(h.version(a).contains(y as int));
                    }
                }
                graph::lemma_dominator_newest(g, from + a, with_a, x, y as int);
            }
        } else if list.contains(x) {
            let j = list.index_of(x);
            assert(list[j] < g.len());
            if j < with_a.len() {
                assert(with_a[j] == x);
            } else {
                assert(a[j - with_a.len()] == x);
                assert(graph::reaches(g, x as int, x as int));
                assert(graph::reaches(g, a[j - with_a.len()] as int, x as int));
                assert(h.version(a).contains(x as int));
                assert(h.version(with_a).contains(x as int));
                let i = choose|i: int|
                    0 <= i < with_a.len() && #[trigger] graph::reaches(
                        g,
                        with_a[i] as int,
                        x as int,
                    );
                assert(with_a.contains(with_a[i]));
                assert(list[i] == with_a[i]);
                assert(graph::reaches(g, list[i] as int, x as int));
                assert(graph::dominated(g, list, x));
            }
        }
    }
}

/// The newest events of a log make up the version that holds all of its events.
pub proof fn law_tip(log: ListOpLog)
    requires
        log.inv(),
    ensures
        log.hist().version(log.cg.version@) == Set::new(|a: int| 0 <= a < log.size()),
{
    let h = log.hist();
    log.lemma_hist();
    let tip = log.cg.version@;
    assert forall|a: int| #[trigger] h.version(tip).contains(a) == (0 <= a < log.size()) by {
        if h.version(tip).contains(a) {
            graph::lemma_cone_order(h.parents, tip, a);
        }
        if 0 <= a < log.size() {
            causal_graph::lemma_tips_cone(h.parents, tip, a);
        }
    }
    assert(h.version(tip) =~= Set::new(|a: int| 0 <= a < log.size()));
}

impl ListBranch {
    /// Whether this is the document at its version of the log.
    pub open spec fn is_of(&self, log: ListOpLog) -> bool {
        &&& graph::known(log.cg.parents(), self.version@)
        &&& self.content@ == history::document(log.hist(), log.hist().version(self.version@))
    }

    /// The document before the first event.
    pub fn new() -> (out: ListBranch)
        ensures
            out.version@ == Seq::<usize>::empty(),
            out.content@ == Seq::<char>::empty(),
            forall|log: ListOpLog| #[trigger] out.is_of(log),
    {
        let out = ListBranch { version: Frontier::root(), content: TextBuffer::new() };
        proof {
            assert(out.version@ =~= Seq::<usize>::empty());
            assert forall|log: ListOpLog| #[trigger] out.is_of(log) by {
                lengths::lemma_empty_document(log.hist());
            }
        }
        out
    }

    pub fn len(&self) -> (out: usize)
        ensures
            out == self.content@.len(),
    {
        self.content.len_chars()
    }

    pub fn is_empty(&self) -> (out: bool)
        ensures
            out == (self.content@.len() == 0),
    {
        self.content.len_chars() == 0
    }

    pub fn content(&self) -> (out: &TextBuffer)
        ensures
            *out == self.content,
    {
        &self.content
    }

    pub fn local_frontier_ref(&self) -> (out: &[LV])
        ensures
            out@ == self.version@,
    {
        self.version.as_ref()
    }

    pub fn local_frontier(&self) -> (out: Frontier)
        ensures
            out@ == self.version@,
    {
        self.version.clone()
    }

    /// Makes a whole operation, where it stands.
    fn apply_op_at(&mut self, op: &TextOperation)
        requires
            operation::op_fits(old(self).content@, op@),
            op@.kind == ListOpKind::Ins ==> op@.content is Some,
        ensures
            final(self).version == old(self).version,
            final(self).content@ == operation::after_op(old(self).content@, op@),
    {
        match op.kind {
            ListOpKind::Ins => {
                if let Some(content) = &op.content {
                    if op.loc.fwd {
                        self.content.insert(op.loc.span.start, content.as_str());
                    } else {
                        // The content is in the reverse of the order in which it stands.
                        self.content.insert_reversed(op.loc.span.start, content.as_str());
                    }
                }
            },
            ListOpKind::Del => {
                self.content.remove(op.loc.span);
            },
        }
    }

    /// Makes operations one after the other, where they stand.
    fn apply_ops(&mut self, ops: &Vec<TextOperation>)
        requires
            forall|i: int| 0 <= i < ops@.len() ==> (#[trigger] ops@[i])@.valid(),
            operation::fits_all(old(self).content@, oplog::events_of(oplog::ops_view(ops@))),
        ensures
            final(self).version == old(self).version,
            final(self).content@ == operation::after_all(
                old(self).content@,
                oplog::events_of(oplog::ops_view(ops@)),
            ),
    {
        let ghost doc = self.content@;
        let ghost all = oplog::ops_view(ops@);
        let mut i: usize = 0;
        proof {
            assert(all.take(0) =~= Seq::<OpAbs>::empty());
        }
        while i < ops.len()
            invariant
                all == oplog::ops_view(ops@),
                i <= ops@.len(),
                forall|j: int| 0 <= j < ops@.len() ==> (#[trigger] ops@[j])@.valid(),
                operation::fits_all(doc, oplog::events_of(all)),
                self.version == old(self).version,
                self.content@ == operation::after_all(
                    doc,
                    oplog::events_of(all.take(i as int)),
                ),
            decreases ops@.len() - i,
        {
            proof {
                let done = oplog::events_of(all.take(i as int));
                let op = ops@[i as int]@;
                assert(all[i as int] == op);
                assert(all.take(i + 1).drop_last() =~= all.take(i as int));
                assert(all.take(i + 1).last() == op);
                oplog::lemma_events_concat(all.take(i + 1), all.skip(i + 1));
                assert(all.take(i + 1) + all.skip(i + 1) =~= all);
                lemma_after_concat(
                    doc,
                    oplog::events_of(all.take(i + 1)),
                    oplog::events_of(all.skip(i + 1)),
                );
                lemma_after_concat(doc, done, op.events());
                operation::law_op_is_its_events(self.content@, op);
            }
            self.apply_op_at(&ops[i]);
            i += 1;
        }
        assert(all.take(i as int) =~= all);
    }

    /// Merges a version of the log into this one.
    ///
    /// Events that were made on the very document that they find are taken as they
    /// are, whole operations at a time; the others are moved to their place.
    #[verifier::rlimit(50)]
    pub fn merge(&mut self, oplog: &ListOpLog, merge_frontier: &[LV])
        requires
            oplog.inv(),
            history::playable(oplog.hist()),
            old(self).is_of(*oplog),
            graph::known(oplog.cg.parents(), merge_frontier@),
        ensures
            final(self).is_of(*oplog),
            graph::is_dominators(
                oplog.cg.parents(),
                old(self).version@ + merge_frontier@,
                final(self).version@,
            ),
            final(self).content@ == history::document(
                oplog.hist(),
                oplog.hist().version(old(self).version@).union(
                    oplog.hist().version(merge_frontier@),
                ),
            ),
    {
        let ghost h = oplog.hist();
        let ghost doc = self.content@;
        let ghost from = self.version@;
        let raws = oplog.transform(self.version.as_ref(), merge_frontier, true);
        let ghost all = merge::raws_view(raws@);
        let mut i: usize = 0;
        proof {
            oplog.lemma_hist();
            xf_runs::lemma_steps_of_raws(*oplog, from, merge_frontier@, true, oplog.size());
            merge::law_raws(*oplog, from, merge_frontier@, true);
            merge::law_xf(h, from, merge_frontier@);
            assert(all.take(0) =~= Seq::<RawAbs>::empty());
        }
        while i < raws.len()
            invariant
                oplog.inv(),
                h == oplog.hist(),
                h.valid(),
                h.len() == oplog.size(),
                all == merge::raws_view(raws@),
                xf_runs::raws_ok(all, oplog.size()),
                merge::xf_fits(doc, merge::xfs_all(h, all)),
                i <= raws@.len(),
                self.version@ == from,
                self.content@ == merge::after_xf(doc, merge::xfs_all(h, all.take(i as int))),
            decreases raws@.len() - i,
        {
            let ghost done = merge::xfs_all(h, all.take(i as int));
            let ghost more = merge::xfs_of(h, raws@[i as int]@);
            proof {
                assert(all[i as int] == raws@[i as int]@);
                assert(all.take(i + 1).drop_last() =~= all.take(i as int));
                assert(all.take(i + 1).last() == raws@[i as int]@);
                lemma_fits_prefix(h, doc, all, i + 1);
            }
            match &raws[i] {
                TransformedResultRaw::Apply { xf_pos, op } => {
                    let mut moved = op.1.clone();
                    let len = moved.len();
                    proof {
                        assert(len == 1);
                        assert(*xf_pos < oplog.size());
                    }
                    moved.loc.span = DTRange { start: *xf_pos, end: *xf_pos + len };
                    proof {
                        assert(moved@ =~= merge::moved_to(op.1@, *xf_pos as int));
                        lemma_after_xf(doc, done, more, moved@.events());
                        operation::law_op_is_its_events(self.content@, moved@);
                    }
                    self.apply_op_at(&moved);
                },
                TransformedResultRaw::FF(range) => {
                    let ops = oplog.ops_in_range(*range);
                    proof {
                        let evs = h.ops.subrange(range.start as int, range.end as int);
                        lemma_after_xf(doc, done, more, evs);
                    }
                    self.apply_ops(&ops);
                },
                TransformedResultRaw::DeleteAlreadyHappened(_) => {
                    proof {
                        lemma_after_none(doc, done, more);
                    }
                },
            }
            i += 1;
        }
        proof {
            assert(all.take(i as int) =~= all);
        }
        let version = oplog.cg.graph.find_dominators_2(self.version.as_ref(), merge_frontier);
        proof {
            lemma_union_version(h, from, merge_frontier@, version@);
        }
        self.version = version;
    }
}

impl Clone for ListBranch {
    fn clone(&self) -> (out: ListBranch)
        ensures
            out.version@ == self.version@,
            out.content@ == self.content@,
    {
        ListBranch { version: self.version.clone(), content: self.content.clone() }
    }
}

impl ListOpLog {
    /// The document at a version.
    pub fn checkout(&self, version: &[LV]) -> (out: ListBranch)
        requires
            self.inv(),
            history::playable(self.hist()),
            graph::known(self.cg.parents(), version@),
        ensures
            out.is_of(*self),
            graph::is_dominators(self.cg.parents(), version@, out.version@),
            out.content@ == history::document(self.hist(), self.hist().version(version@)),
    {
        let mut out = ListBranch::new();
        proof {
            let h = self.hist();
            assert(out.version@ + version@ =~= version@);
            assert(out.is_of(*self));
            assert forall|a: int| !#[trigger] h.version(out.version@).contains(a) by {
                assert(!graph::in_cone(h.parents, Seq::<usize>::empty(), a));
            }
            assert(h.version(out.version@).union(h.version(version@)) =~= h.version(version@));
        }
        out.merge(self, version);
        out
    }

    /// The document with all events.
    pub fn checkout_tip(&self) -> (out: ListBranch)
        requires
            self.inv(),
            history::playable(self.hist()),
        ensures
            out.is_of(*self),
            out.version@ == self.cg.version@,
            out.content@ == history::document(
                self.hist(),
                Set::new(|a: int| 0 <= a < self.size()),
            ),
    {
        let out = self.checkout(self.cg.version.as_ref());
        proof {
            law_tip(*self);
            lemma_own_dominators(self.cg.parents(), self.cg.version@, out.version@);
        }
        out
    }
}

/// Newest events of which none follows another stay as they are.
pub proof fn lemma_own_dominators(g: graph::Parents, tips: Seq<usize>, out: Seq<usize>)
    requires
        graph::causal(g),
        causal_graph::is_tips(g, tips),
        graph::is_dominators(g, tips, out),
    ensures
        out == tips,
{
    assert forall|x: usize| #[trigger] tips.contains(x) implies !graph::dominated(g, tips, x) by {
        if graph::dominated(g, tips, x) {
            let i = choose|i: int|
                0 <= i < tips.len() && tips[i] != x && #[trigger] graph::reaches(
                    g,
                    tips[i] as int,
                    x as int,
                );
            lemma_child_of(g, tips[i] as int, x as int);
        }
    }
    assert forall|x: usize| #[trigger] out.contains(x) == tips.contains(x) by {}
    frontier::lemma_ascending_same(out, tips);
}

/// Together with events of the log, the newest events of all stay as they are.
pub proof fn lemma_tip_dominators(
    g: graph::Parents,
    front: Seq<usize>,
    tips: Seq<usize>,
    out: Seq<usize>,
)
    requires
        graph::causal(g),
        g.len() <= usize::MAX,
        graph::known(g, front),
        causal_graph::is_tips(g, tips),
        graph::is_dominators(g, front + tips, out),
    ensures
        out == tips,
{
    let list = front + tips;
    assert forall|x: usize| #[trigger] out.contains(x) == tips.contains(x) by {
        if tips.contains(x) {
            let k = tips.index_of(x);
            assert(list[front.len() + k] == x);
            if graph::dominated(g, list, x) {
                let i = choose|i: int|
                    0 <= i < list.len() && list[i] != x && #[trigger] graph::reaches(
                        g,
                        list[i] as int,
                        x as int,
                    );
                lemma_child_of(g, list[i] as int, x as int);
            }
        } else if list.contains(x) {
            let k = list.index_of(x);
            if k >= front.len() {
                assert(tips[k - front.len()] == x);
            }
            assert(front[k] == x);
            causal_graph::lemma_tips_cone(g, tips, x as int);
            let i = choose|i: int|
                #![trigger tips[i]]
                0 <= i < tips.len() && graph::reaches(g, tips[i] as int, x as int);
            assert(list[front.len() + i] == tips[i]);
            assert(tips.contains(tips[i]));
            assert(graph::dominated(g, list, x));
        }
    }
    frontier::lemma_ascending_same(out, tips);
}

/// An event that another one follows has one that follows it directly.
proof fn lemma_child_of(g: graph::Parents, v: int, a: int)
    requires
        graph::reaches(g, v, a),
        v != a,
        0 <= a <= usize::MAX,
    ensures
        causal_graph::has_child(g, a),
    decreases v,
{
    let i = choose|i: int|
        #![trigger g[v][i]]
        0 <= i < g[v].len() && g[v][i] < v && graph::reaches(g, g[v][i] as int, a);
    if g[v][i] == a {
        assert(g[v].contains(a as usize));
    } else {
        lemma_child_of(g, g[v][i] as int, a);
    }
}

} // verus!
