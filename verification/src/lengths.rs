//! How long a document is, told from its events without making it.

use crate::agent_assignment::LV;
use crate::graph;
use crate::history;
use crate::history::Hist;
use crate::merge;
use crate::merge::{RawAbs, TransformedResultRaw, Xf};
use crate::operation::{EvOp, ListOpKind, OpAbs, TextOperation};
use crate::oplog;
use crate::oplog::ListOpLog;
use crate::xf_runs;
use vstd::prelude::*;

verus! {

/// Whether an event inserts, or deletes.
pub open spec fn kind_of(ev: EvOp) -> ListOpKind {
    match ev {
        EvOp::Ins { .. } => ListOpKind::Ins,
        EvOp::Del { .. } => ListOpKind::Del,
    }
}

/// How many of the events insert, or delete.
pub open spec fn count(evs: Seq<EvOp>, kind: ListOpKind) -> int
    decreases evs.len(),
{
    if evs.len() == 0 {
        0
    } else {
        count(evs.drop_last(), kind) + if kind_of(evs.last()) == kind {
            1int
        } else {
            0
        }
    }
}

/// How many of the events insert, or delete what is not gone yet.
pub open spec fn xf_count(list: Seq<Xf>, kind: ListOpKind) -> int
    decreases list.len(),
{
    if list.len() == 0 {
        0
    } else {
        xf_count(list.drop_last(), kind) + match list.last().ev {
            Some(ev) => if kind_of(ev) == kind {
                1int
            } else {
                0
            },
            None => 0,
        }
    }
}

proof fn lemma_count_len(evs: Seq<EvOp>)
    ensures
        count(evs, ListOpKind::Ins) >= 0,
        count(evs, ListOpKind::Del) >= 0,
        count(evs, ListOpKind::Ins) + count(evs, ListOpKind::Del) == evs.len(),
    decreases evs.len(),
{
    if evs.len() > 0 {
        lemma_count_len(evs.drop_last());
    }
}

proof fn lemma_count_concat(a: Seq<EvOp>, b: Seq<EvOp>, kind: ListOpKind)
    ensures
        count(a + b, kind) == count(a, kind) + count(b, kind),
    decreases b.len(),
{
    if b.len() == 0 {
        assert(a + b =~= a);
    } else {
        assert((a + b).drop_last() =~= a + b.drop_last());
        lemma_count_concat(a, b.drop_last(), kind);
    }
}

/// All events of an operation are of its kind.
proof fn lemma_count_op(op: OpAbs, k: int, kind: ListOpKind)
    requires
        0 <= k <= op.size(),
    ensures
        count(op.events().take(k), kind) == if op.kind == kind {
            k
        } else {
            0
        },
    decreases k,
{
    if k > 0 {
        lemma_count_op(op, k - 1, kind);
        assert(op.events().take(k).drop_last() =~= op.events().take(k - 1));
        assert(op.events().take(k).last() == op.event(k - 1));
    }
}

proof fn lemma_xf_count_len(list: Seq<Xf>)
    ensures
        xf_count(list, ListOpKind::Ins) >= 0,
        xf_count(list, ListOpKind::Del) >= 0,
        xf_count(list, ListOpKind::Ins) + xf_count(list, ListOpKind::Del) <= list.len(),
    decreases list.len(),
{
    if list.len() > 0 {
        lemma_xf_count_len(list.drop_last());
    }
}

proof fn lemma_xf_count_concat(a: Seq<Xf>, b: Seq<Xf>, kind: ListOpKind)
    ensures
        xf_count(a + b, kind) == xf_count(a, kind) + xf_count(b, kind),
    decreases b.len(),
{
    if b.len() == 0 {
        assert(a + b =~= a);
    } else {
        assert((a + b).drop_last() =~= a + b.drop_last());
        lemma_xf_count_concat(a, b.drop_last(), kind);
    }
}

/// Events taken as they are count as they are.
proof fn lemma_count_as_is(h: Hist, start: int, k: int, list: Seq<Xf>, kind: ListOpKind)
    requires
        h.valid(),
        0 <= start,
        0 <= k <= list.len(),
        start + list.len() <= h.len(),
        forall|i: int| 0 <= i < list.len() ==> #[trigger] list[i] == merge::unchanged(h, start + i),
    ensures
        xf_count(list.take(k), kind) == count(h.ops.subrange(start, start + k), kind),
    decreases k,
{
    if k > 0 {
        lemma_count_as_is(h, start, k - 1, list, kind);
        assert(list.take(k).drop_last() =~= list.take(k - 1));
        assert(list.take(k).last() == merge::unchanged(h, start + (k - 1)));
        let part = h.ops.subrange(start, start + k);
        assert(part.drop_last() =~= h.ops.subrange(start, start + (k - 1)));
    }
}

/// Events that find their place make a document longer by what they insert, and shorter
/// by what they delete.
pub proof fn law_length(doc: Seq<char>, list: Seq<Xf>)
    requires
        merge::xf_fits(doc, list),
    ensures
        merge::after_xf(doc, list).len() == doc.len() + xf_count(list, ListOpKind::Ins)
            - xf_count(list, ListOpKind::Del),
    decreases list.len(),
{
    if list.len() > 0 {
        law_length(doc, list.drop_last());
    }
}

/// Nothing is shown where there is no event.
pub proof fn lemma_empty_document(h: Hist)
    ensures
        history::document(h, h.version(Seq::empty())) == Seq::<char>::empty(),
{
    let t = history::whole(h);
    let s = h.version(Seq::empty());
    assert forall|x: int| !#[trigger] s.contains(x) by {
        assert(!graph::in_cone(h.parents, Seq::<usize>::empty(), x));
    }
    lemma_none_kept(t.items, history::shows(t, s), t.items.len() as int);
    assert(history::document(h, s) =~= Seq::<char>::empty());
}

proof fn lemma_none_kept(items: Seq<int>, chosen: spec_fn(int) -> bool, k: int)
    requires
        forall|x: int| !#[trigger] chosen(x),
        0 <= k,
    ensures
        history::kept(items, chosen, k).len() == 0,
    decreases k,
{
    if k > 0 {
        lemma_none_kept(items, chosen, k - 1);
    }
}

proof fn lemma_xfs_prefix(h: Hist, raws: Seq<RawAbs>, k: int)
    requires
        0 <= k <= raws.len(),
    ensures
        merge::xfs_all(h, raws.take(k)).len() <= merge::xfs_all(h, raws).len(),
    decreases raws.len() - k,
{
    if k == raws.len() {
        assert(raws.take(k) =~= raws);
    } else {
        lemma_xfs_prefix(h, raws, k + 1);
        assert(raws.take(k + 1).drop_last() =~= raws.take(k));
    }
}

pub proof fn lemma_xf_len(h: Hist, from: Seq<usize>, merging: Seq<usize>, k: int)
    requires
        0 <= k,
    ensures
        merge::xf_to(h, from, merging, k).len() <= k,
    decreases k,
{
    if k > 0 {
        lemma_xf_len(h, from, merging, k - 1);
    }
}

impl ListOpLog {
    /// How many characters the events of a range insert, and how many they delete.
    #[verifier::rlimit(40)]
    fn tally_range(&self, ops: &Vec<TextOperation>) -> (out: (usize, usize))
        requires
            forall|i: int| 0 <= i < ops@.len() ==> (#[trigger] ops@[i])@.valid(),
            oplog::events_of(oplog::ops_view(ops@)).len() <= usize::MAX,
        ensures
            out.0 == count(oplog::events_of(oplog::ops_view(ops@)), ListOpKind::Ins),
            out.1 == count(oplog::events_of(oplog::ops_view(ops@)), ListOpKind::Del),
    {
        let ghost all = oplog::ops_view(ops@);
        let mut inserted: usize = 0;
        let mut deleted: usize = 0;
        let mut i: usize = 0;
        proof {
            assert(all.take(0) =~= Seq::<OpAbs>::empty());
        }
        while i < ops.len()
            invariant
                all == oplog::ops_view(ops@),
                oplog::events_of(all).len() <= usize::MAX,
                i <= ops@.len(),
                inserted == count(oplog::events_of(all.take(i as int)), ListOpKind::Ins),
                deleted == count(oplog::events_of(all.take(i as int)), ListOpKind::Del),
                forall|j: int| 0 <= j < ops@.len() ==> (#[trigger] ops@[j])@.valid(),
            decreases ops@.len() - i,
        {
            let op = &ops[i];
            proof {
                let done = oplog::events_of(all.take(i as int));
                assert(all[i as int] == op@);
                assert(all.take(i + 1).drop_last() =~= all.take(i as int));
                assert(all.take(i + 1).last() == op@);
                oplog::lemma_events_prefix(all, i + 1);
                lemma_count_len(oplog::events_of(all.take(i + 1)));
                lemma_count_len(done);
                lemma_count_concat(done, op@.events(), ListOpKind::Ins);
                lemma_count_concat(done, op@.events(), ListOpKind::Del);
                lemma_count_op(op@, op@.size(), ListOpKind::Ins);
                lemma_count_op(op@, op@.size(), ListOpKind::Del);
                assert(op@.events().take(op@.size()) =~= op@.events());
            }
            match op.kind {
                ListOpKind::Ins => {
                    inserted += op.len();
                },
                ListOpKind::Del => {
                    deleted += op.len();
                },
            }
            i += 1;
        }
        assert(all.take(i as int) =~= all);
        (inserted, deleted)
    }

    /// How many characters the events that are due insert, and how many they delete
    /// that were not gone yet.
    #[verifier::rlimit(50)]
    fn tally(&self, from: &[LV], merging: &[LV]) -> (out: (usize, usize))
        requires
            self.inv(),
            history::playable(self.hist()),
            graph::known(self.cg.parents(), from@),
            graph::known(self.cg.parents(), merging@),
        ensures
            out.0 == xf_count(merge::xf_ops(self.hist(), from@, merging@), ListOpKind::Ins),
            out.1 == xf_count(merge::xf_ops(self.hist(), from@, merging@), ListOpKind::Del),
            out.0 + out.1 <= self.size(),
    {
        let ghost h = self.hist();
        let raws = self.transform(from, merging, true);
        let ghost all = merge::raws_view(raws@);
        proof {
            self.lemma_hist();
            xf_runs::lemma_steps_of_raws(*self, from@, merging@, true, self.size());
            merge::law_raws(*self, from@, merging@, true);
            lemma_xf_len(h, from@, merging@, h.len() as int);
            assert(all.take(0) =~= Seq::<RawAbs>::empty());
        }
        let mut inserted: usize = 0;
        let mut deleted: usize = 0;
        let mut i: usize = 0;
        while i < raws.len()
            invariant
                self.inv(),
                h == self.hist(),
                h.valid(),
                h.len() == self.size(),
                all == merge::raws_view(raws@),
                xf_runs::raws_ok(all, self.size()),
                merge::xfs_all(h, all).len() <= self.size() <= usize::MAX,
                i <= raws@.len(),
                inserted == xf_count(merge::xfs_all(h, all.take(i as int)), ListOpKind::Ins),
                deleted == xf_count(merge::xfs_all(h, all.take(i as int)), ListOpKind::Del),
            decreases raws@.len() - i,
        {
            let ghost done = merge::xfs_all(h, all.take(i as int));
            let ghost more = merge::xfs_of(h, raws@[i as int]@);
            proof {
                assert(all[i as int] == raws@[i as int]@);
                assert(all.take(i + 1).drop_last() =~= all.take(i as int));
                assert(all.take(i + 1).last() == raws@[i as int]@);
                lemma_xfs_prefix(h, all, i + 1);
                lemma_xf_count_len(done + more);
                lemma_xf_count_len(more);
                lemma_xf_count_concat(done, more, ListOpKind::Ins);
                lemma_xf_count_concat(done, more, ListOpKind::Del);
                assert(more.take(more.len() as int) =~= more);
            }
            match &raws[i] {
                TransformedResultRaw::Apply { xf_pos: _, op } => {
                    proof {
                        assert(more.drop_last() =~= Seq::<Xf>::empty());
                        assert(xf_count(more.drop_last(), ListOpKind::Ins) == 0);
                        assert(xf_count(more.drop_last(), ListOpKind::Del) == 0);
                    }
                    match op.1.kind {
                        ListOpKind::Ins => {
                            inserted += op.1.len();
                        },
                        ListOpKind::Del => {
                            deleted += op.1.len();
                        },
                    }
                },
                TransformedResultRaw::FF(range) => {
                    let ops = self.ops_in_range(*range);
                    proof {
                        let start = range.start as int;
                        lemma_count_as_is(h, start, more.len() as int, more, ListOpKind::Ins);
                        lemma_count_as_is(h, start, more.len() as int, more, ListOpKind::Del);
                    }
                    let (ins, del) = self.tally_range(&ops);
                    inserted += ins;
                    deleted += del;
                },
                TransformedResultRaw::DeleteAlreadyHappened(_) => {
                    proof {
                        lemma_none_counted(more, ListOpKind::Ins);
                        lemma_none_counted(more, ListOpKind::Del);
                    }
                },
            }
            i += 1;
        }
        proof {
            assert(all.take(i as int) =~= all);
            lemma_xf_count_len(merge::xfs_all(h, all));
        }
        (inserted, deleted)
    }

    /// How many characters the document has at a version.
    ///
    /// Tallies the events that a checkout would make, without making the text.
    /// Where events delete the same character without knowledge of each other, it is
    /// counted once.
    pub fn len_at(&self, version: &[LV]) -> (out: usize)
        requires
            self.inv(),
            history::playable(self.hist()),
            graph::known(self.cg.parents(), version@),
        ensures
            out == history::document(self.hist(), self.hist().version(version@)).len(),
    {
        let ghost h = self.hist();
        let root: Vec<LV> = Vec::new();
        let (inserted, deleted) = self.tally(root.as_slice(), version);
        proof {
            assert(root@ =~= Seq::<usize>::empty());
            lemma_empty_document(h);
            merge::law_xf(h, root@, version@);
            law_length(
                history::document(h, h.version(root@)),
                merge::xf_ops(h, root@, version@),
            );
            assert forall|a: int| !#[trigger] h.version(root@).contains(a) by {
                assert(!graph::in_cone(h.parents, Seq::<usize>::empty(), a));
            }
            assert(h.version(root@).union(h.version(version@)) =~= h.version(version@));
        }
        inserted - deleted
    }

    /// By how many characters merging one version into another makes the document of the
    /// latter longer, which is less than none where it makes it shorter.
    ///
    /// Tallies the events that are part of one version alone.
    pub fn len_delta(&self, from: &[LV], to: &[LV]) -> (out: isize)
        requires
            self.inv(),
            self.size() <= isize::MAX,
            history::playable(self.hist()),
            graph::known(self.cg.parents(), from@),
            graph::known(self.cg.parents(), to@),
        ensures
            out == history::document(
                self.hist(),
                self.hist().version(from@).union(self.hist().version(to@)),
            ).len() - history::document(self.hist(), self.hist().version(from@)).len(),
    {
        let (inserted, deleted) = self.tally(from, to);
        proof {
            let h = self.hist();
            merge::law_xf(h, from@, to@);
            law_length(
                history::document(h, h.version(from@)),
                merge::xf_ops(h, from@, to@),
            );
        }
        inserted as isize - deleted as isize
    }
}

proof fn lemma_none_counted(list: Seq<Xf>, kind: ListOpKind)
    requires
        forall|i: int| 0 <= i < list.len() ==> (#[trigger] list[i]).ev is None,
    ensures
        xf_count(list, kind) == 0,
    decreases list.len(),
{
    if list.len() > 0 {
        assert(list[list.len() - 1].ev is None);
        let before = list.drop_last();
        assert forall|i: int| 0 <= i < before.len() implies (#[trigger] before[i]).ev is None by {
            assert(before[i] == list[i]);
        }
        lemma_none_counted(before, kind);
    }
}

} // verus!
