//! What holds of the updates that peers exchange.

use crate::events;
use crate::full_range;
use crate::history;
use crate::history::Hist;
use crate::history_laws;
use crate::observed_history;
use crate::observed_history::UpdateAbs;
use crate::operation;
use crate::operation::{EvOp, OpAbs};
use crate::oplog::ListOpLog;
use vstd::prelude::*;

verus! {

/// What a run of events makes of the document that it follows, event by event.
proof fn lemma_run_value(
    h: Hist,
    first: int,
    op: OpAbs,
    parents: Seq<usize>,
    name: Seq<char>,
    seq: int,
    k: int,
)
    requires
        history::playable(h),
        full_range::is_run(h, first, op, parents, name, seq),
        1 <= k <= op.size(),
    ensures
        ({
            let doc = history::document(h, h.version(parents));
            let evs = op.events().take(k);
            &&& operation::fits_all(doc, evs)
            &&& history::document(h, h.version(seq![(first + k - 1) as usize]))
                == operation::after_all(doc, evs)
        }),
    decreases k,
{
    let doc = history::document(h, h.version(parents));
    let evs = op.events().take(k);
    let v = first + (k - 1);
    assert(h.ops[v] == op.event(k - 1));
    assert(evs.last() == h.ops[v]);
    assert(evs.drop_last() =~= op.events().take(k - 1));
    history_laws::law_event(h, v);
    if k == 1 {
        assert(evs.drop_last() =~= Seq::<EvOp>::empty());
        assert(h.parents[v] == parents);
        assert(operation::after_all(doc, evs.drop_last()) == doc);
        assert(operation::fits_all(doc, evs.drop_last()));
    } else {
        lemma_run_value(h, first, op, parents, name, seq, k - 1);
        assert(h.parents[v] == seq![(first + (k - 1) - 1) as usize]);
    }
    assert(seq![v as usize] =~= seq![(first + k - 1) as usize]);
}

/// An update, made on the document at what it follows, makes the document at the event
/// that it arrives at.
pub proof fn law_update(h: Hist, u: UpdateAbs)
    requires
        history::playable(h),
        observed_history::update_true(h, u),
    ensures
        ({
            let id = (u.name, u.seq_end);
            let doc = history::document(h, h.version(u.parents));
            &&& events::has_id(h, id)
            &&& operation::op_fits(doc, observed_history::update_op(u))
            &&& history::document(h, h.version(seq![events::place(h, id) as usize]))
                == operation::after_op(doc, observed_history::update_op(u))
        }),
{
    let op = observed_history::update_op(u);
    let seq = u.seq_end + 1 - (u.pos_end - u.pos_start);
    let first = choose|first: int|
        #[trigger] full_range::is_run(h, first, op, u.parents, u.name, seq);
    let n = op.size();
    let doc = history::document(h, h.version(u.parents));
    lemma_run_value(h, first, op, u.parents, u.name, seq, n);
    assert(op.events().take(n) =~= op.events());
    operation::law_op_is_its_events(doc, op);
    assert(h.ids[first + (n - 1)] == (u.name, u.seq_end));
    events::lemma_place(h, first + (n - 1));
}

/// Each update that a version has not seen carries the document from what it follows to
/// the event that it arrives at.
pub proof fn law_updates_carry(log: ListOpLog, version: Seq<usize>, i: int)
    requires
        log.inv(),
        history::playable(log.hist()),
        0 <= i < observed_history::updates_from(log, version).len(),
    ensures
        ({
            let h = log.hist();
            let u = observed_history::updates_from(log, version)[i];
            let id = (u.name, u.seq_end);
            let doc = history::document(h, h.version(u.parents));
            &&& events::has_id(h, id)
            &&& operation::op_fits(doc, observed_history::update_op(u))
            &&& history::document(h, h.version(seq![events::place(h, id) as usize]))
                == operation::after_op(doc, observed_history::update_op(u))
        }),
{
    let h = log.hist();
    log.lemma_hist();
    observed_history::lemma_updates_true(log, version);
    law_update(h, observed_history::updates_from(log, version)[i]);
}

} // verus!
