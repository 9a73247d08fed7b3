//! What can be asked before something is done that cannot always be done.

use crate::agent_assignment;
use crate::agent_assignment::{can_name, AgentAssignment, AgentId, LV};
use crate::braid;
use crate::braid::{parse_range, RangeError, TextPatch};
use crate::decoding;
use crate::graph;
use crate::history;
use crate::history::Hist;
use crate::list_crdt;
use crate::list_crdt::ListCRDT;
use crate::names;
use crate::oplog::ListOpLog;
use crate::remote_ops;
use crate::remote_ops::{add_remote_op, parse_remote_ids, RemoteOp};
use crate::text::cp_len;
use vstd::prelude::*;

verus! {

impl AgentAssignment {
    /// Whether this many more agents can be counted.
    pub fn has_room(&self, more: usize) -> (out: bool)
        requires
            self.inv(),
        ensures
            out == (self.agents() + more <= AgentId::MAX),
    {
        let most = AgentId::MAX as usize;
        let count = self.client_data.len();
        count <= most && more <= most - count
    }

    /// Whether there is a number for the agent of this name.
    pub fn has_room_for(&self, name: &str) -> (out: bool)
        requires
            self.inv(),
        ensures
            out == self.room_for(name@),
    {
        let id = self.get_agent_id(name);
        proof {
            if let Some(a) = id {
                assert(self.names()[a as int] == name@);
            } else if self.names().contains(name@) {
                let a = self.names().index_of(name@);
                assert(self.name_of(a) == name@);
            }
        }
        id.is_some() || self.has_room(1)
    }
}

impl ListOpLog {
    /// Whether all of these events are known.
    pub fn knows(&self, version: &[LV]) -> (out: bool)
        requires
            self.inv(),
        ensures
            out == graph::known(self.cg.parents(), version@),
    {
        let n = self.len();
        let mut i: usize = 0;
        while i < version.len()
            invariant
                self.inv(),
                n == self.size(),
                i <= version@.len(),
                forall|j: int| 0 <= j < i ==> (#[trigger] version@[j]) < n,
            decreases version@.len() - i,
        {
            if version[i] >= n {
                return false;
            }
            i += 1;
        }
        true
    }

    /// How many events of an edit are new.
    pub fn count_new(&self, op: &RemoteOp) -> (out: usize)
        requires
            self.inv(),
            op.fits(),
        ensures
            out == remote_ops::new_in(self.hist(), *op),
    {
        let n = op.count();
        let to = op.seq + n;
        match self.cg.agent_assignment.get_agent_id(op.agent.as_str()) {
            Some(id) => {
                proof {
                    remote_ops::lemma_fresh(*self, id, op.seq, n as nat, Seq::empty());
                }
                let from = self.cg.skip_events(id, op.seq, to, true);
                self.cg.skip_events(id, from, to, false) - from
            },
            None => {
                proof {
                    remote_ops::lemma_all_new(*self, op.agent@, op.seq as int, n as nat);
                }
                n
            },
        }
    }

    /// Whether this many more events of an agent can be counted.
    pub fn has_room(&self, agent: AgentId, more: usize) -> (out: bool)
        requires
            self.inv(),
            agent < self.cg.agent_assignment.agents(),
        ensures
            out == (self.size() + more <= usize::MAX && self.next_seq(agent) + more
                <= usize::MAX),
    {
        let next = self.cg.agent_assignment.client_data[agent as usize].get_next_seq();
        more <= usize::MAX - self.len() && more <= usize::MAX - next
    }
}

// ---- edits of peers ----

impl RemoteOp {
    /// How many events the edit is.
    pub fn count(&self) -> (out: usize)
        ensures
            out == remote_ops::remote_events(*self).len(),
    {
        if self.del > 0 {
            self.del
        } else {
            match &self.ins {
                Some(text) => cp_len(text.as_str()),
                None => 0,
            }
        }
    }

    /// Whether the edit can be counted.
    pub fn can_count(&self) -> (out: bool)
        ensures
            out == self.fits(),
    {
        let n = self.count();
        can_name(self.agent.as_str()) && n <= usize::MAX - self.pos && n <= usize::MAX - self.seq
    }
}

/// Whether the history stays one of documents as edits are recorded one after the other,
/// as far as they can be.
pub open spec fn stays_playable(h: Hist, ops: Seq<RemoteOp>) -> bool {
    forall|k: int|
        0 <= k <= ops.len() && list_crdt::recordable_all(h, #[trigger] ops.take(k))
            ==> history::playable(list_crdt::recorded_all(h, ops.take(k)))
}

/// Whether edits can be taken up.
pub open spec fn acceptable(log: ListOpLog, ops: Seq<RemoteOp>) -> bool {
    &&& list_crdt::room_for_all(log, ops)
    &&& stays_playable(log.hist(), ops)
}

/// Edits that cannot be recorded stop those behind them, too.
proof fn lemma_recordable_front(h: Hist, ops: Seq<RemoteOp>, j: int, k: int)
    requires
        0 <= j <= k <= ops.len(),
        list_crdt::recordable_all(h, ops.take(k)),
    ensures
        list_crdt::recordable_all(h, ops.take(j)),
    decreases k - j,
{
    if j < k {
        assert(ops.take(k).drop_last() =~= ops.take(k - 1));
        lemma_recordable_front(h, ops, j, k - 1);
    }
}

impl ListCRDT {
    /// Whether edits can be taken up one after the other.
    #[verifier::rlimit(50)]
    pub fn can_apply(&self, ops: &[RemoteOp]) -> (out: bool)
        requires
            self.inv(),
        ensures
            out == acceptable(self.oplog, ops@),
    {
        let ghost h = self.oplog.hist();
        let mut log = self.oplog.copied();
        let mut k: usize = 0;
        proof {
            assert(ops@.take(0) =~= Seq::<RemoteOp>::empty());
            assert(list_crdt::authors(ops@.take(0)) =~= Seq::<Seq<char>>::empty());
            assert(log.names() =~= self.oplog.names());
        }
        while k < ops.len()
            invariant
                self.inv(),
                log.inv(),
                k <= ops@.len(),
                h == self.oplog.hist(),
                log.names() == names::with_names(
                    self.oplog.names(),
                    list_crdt::authors(ops@.take(k as int)),
                ),
                log.hist() == list_crdt::recorded_all(h, ops@.take(k as int)),
                list_crdt::recordable_all(h, ops@.take(k as int)),
                forall|j: int|
                    0 <= j <= k && list_crdt::recordable_all(h, #[trigger] ops@.take(j))
                        ==> history::playable(list_crdt::recorded_all(h, ops@.take(j))) && (j > 0
                        ==> list_crdt::room_for(self.oplog, ops@, j)),
            decreases ops@.len() - k,
        {
            let op = &ops[k];
            proof {
                let by = list_crdt::authors(ops@.take(k + 1));
                assert(by.drop_last() =~= list_crdt::authors(ops@.take(k as int)));
                assert(by.last() == op.agent@);
                assert(ops@.take(k + 1).drop_last() =~= ops@.take(k as int));
                assert(ops@.take(k + 1).last() == ops@[k as int]);
                log.lemma_hist();
            }
            if parse_remote_ids(&log, op.parents.as_slice(), false).is_err() {
                proof {
                    assert(!remote_ops::recordable(log.hist(), *op));
                    assert(!list_crdt::recordable_all(h, ops@.take(k + 1)));
                    assert forall|j: int|
                        0 <= j <= ops@.len() && list_crdt::recordable_all(
                            h,
                            #[trigger] ops@.take(j),
                        ) implies j <= k by {
                        if j > k {
                            lemma_recordable_front(h, ops@, k + 1, j);
                        }
                    }
                }
                return true;
            }
            assert(list_crdt::recordable_all(h, ops@.take(k + 1)));
            if !op.can_count() || log.count_new(op) > usize::MAX - log.len()
                || !log.cg.agent_assignment.has_room_for(op.agent.as_str()) {
                assert(!list_crdt::room_for(self.oplog, ops@, k + 1));
                return false;
            }
            let added = add_remote_op(&mut log, op);
            if added.is_err() || !log.is_playable() {
                assert(!history::playable(list_crdt::recorded_all(h, ops@.take(k + 1))));
                return false;
            }
            k += 1;
        }
        true
    }

    /// Whether the history stays one of documents with the events that bytes tell of.
    pub fn can_merge(&self, bytes: &[u8]) -> (out: bool)
        requires
            self.inv(),
        ensures
            out == (decoding::decoded(
                self.oplog.hist(),
                self.oplog.names(),
                bytes@,
            ) matches Ok(h) ==> history::playable(h)),
    {
        let mut log = self.oplog.copied();
        assert(log.names() =~= self.oplog.names());
        match log.decode_and_add(bytes) {
            Ok(_) => log.is_playable(),
            Err(_) => true,
        }
    }
}

// ---- patches ----

/// Whether no number is too large, as far as the replacements are read.
pub fn can_read(list: &[TextPatch]) -> (out: bool)
    ensures
        out == braid::numbers_fit(list@),
{
    let mut i: usize = 0;
    while i < list.len()
        invariant
            i <= list@.len(),
            braid::stated(list@, i as int),
            forall|j: int| 0 <= j < i ==> !braid::range_too_large((#[trigger] list@[j]).range@),
        decreases list@.len() - i,
    {
        match parse_range(list[i].range.as_str()) {
            Ok(_) => {},
            Err(RangeError::TooLarge) => {
                assert(braid::range_too_large(list@[i as int].range@));
                return false;
            },
            Err(RangeError::Bad) => {
                assert forall|j: int|
                    0 <= j < list@.len() && braid::stated(
                        list@,
                        j,
                    ) implies !braid::range_too_large((#[trigger] list@[j]).range@) by {
                    if j > i {
                        assert(braid::range_in(list@[i as int].range@) is Some);
                    }
                }
                return true;
            },
        }
        i += 1;
    }
    true
}

} // verus!
