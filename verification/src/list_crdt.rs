//! A log together with the document at one of its versions.

use crate::agent_assignment;
use crate::agent_assignment::{AgentId, LV};
use crate::branch;
use crate::branch::ListBranch;
use crate::decoding;
use crate::decoding::ParseError;
use crate::events;
use crate::events::EventAbs;
use crate::extension;
use crate::frontier::Frontier;
use crate::graph;
use crate::history;
use crate::history::Hist;
use crate::names;
use crate::operation;
use crate::operation::{EvOp, TextOperation};
use crate::oplog;
use crate::oplog::ListOpLog;
use crate::range::DTRange;
use crate::remote_ops;
use crate::remote_ops::{add_remote_op, RemoteOp, VersionNotFound};
use crate::sorting;
use crate::xf_absolute;
use vstd::prelude::*;

verus! {

pub struct ListCRDT {
    pub branch: ListBranch,
    pub oplog: ListOpLog,
}

/// The history with events taken up starts as it was.
pub proof fn lemma_received_prefix(h: Hist, evs: Seq<EventAbs>)
    requires
        h.valid(),
        events::received_all(h, evs).len() <= usize::MAX,
        events::receivable(h, evs),
    ensures
        extension::prefix(h, events::received_all(h, evs)),
    decreases evs.len(),
{
    if evs.len() > 0 {
        let less = evs.drop_last();
        lemma_received_prefix(h, less);
        events::lemma_received_all(h, less);
        let mid = events::received_all(h, less);
        let out = events::received_all(h, evs);
        assert(out == events::received(mid, evs.last()));
        events::lemma_received(mid, evs.last());
        assert forall|v: int| 0 <= v < h.len() implies {
            &&& #[trigger] out.parents[v] == h.parents[v]
            &&& out.ops[v] == h.ops[v]
            &&& out.ids[v] == h.ids[v]
        } by {
            assert(mid.parents[v] == h.parents[v]);
        }
    }
}

/// The document at a version stays what it is when the log learns of more events.
pub proof fn lemma_branch_kept(b: ListBranch, was: ListOpLog, now: ListOpLog)
    requires
        was.inv(),
        b.is_of(was),
        now.inv(),
        history::playable(now.hist()),
        extension::prefix(was.hist(), now.hist()),
    ensures
        b.is_of(now),
{
    let h = was.hist();
    was.lemma_hist();
    extension::lemma_prefix_version(h, now.hist(), b.version@);
    extension::law_prefix_document(h, now.hist(), h.version(b.version@));
    assert(graph::known(now.cg.parents(), b.version@)) by {
        assert forall|i: int| 0 <= i < b.version@.len() implies (#[trigger] b.version@[i])
            < now.cg.parents().len() by {
            assert(b.version@[i] < h.parents.len());
        }
    }
}

proof fn lemma_taken_up_prefix(
    h: Hist,
    parents: Seq<usize>,
    name: Seq<char>,
    seq: int,
    evs: Seq<EvOp>,
)
    requires
        h.valid(),
    ensures
        extension::prefix(h, remote_ops::taken_up(h, parents, name, seq, evs)),
{
}

/// Edits recorded one after the other.
pub open spec fn recorded_all(h: Hist, ops: Seq<RemoteOp>) -> Hist
    decreases ops.len(),
{
    if ops.len() == 0 {
        h
    } else {
        remote_ops::recorded(recorded_all(h, ops.drop_last()), ops.last())
    }
}

/// Whether edits can be recorded one after the other.
pub open spec fn recordable_all(h: Hist, ops: Seq<RemoteOp>) -> bool
    decreases ops.len(),
{
    ops.len() == 0 || recordable_all(h, ops.drop_last()) && remote_ops::recordable(
        recorded_all(h, ops.drop_last()),
        ops.last(),
    )
}

/// Whether `now` is the log `was` with edits stored one after the other.
pub open spec fn stored_all(was: ListOpLog, now: ListOpLog, ops: Seq<RemoteOp>) -> bool
    decreases ops.len(),
{
    if ops.len() == 0 {
        now == was
    } else {
        exists|between: ListOpLog|
            stored_all(was, between, ops.drop_last()) && #[trigger] remote_ops::stored(
                between,
                now,
                ops.last(),
            )
    }
}

/// The names of those who wrote edits.
pub open spec fn authors(ops: Seq<RemoteOp>) -> Seq<Seq<char>> {
    ops.map_values(|op: RemoteOp| op.agent@)
}

/// Whether the last one of the first `k` edits can be counted behind the others.
pub open spec fn room_for(log: ListOpLog, ops: Seq<RemoteOp>, k: int) -> bool {
    &&& ops[k - 1].fits()
    &&& ({
        let h = recorded_all(log.hist(), ops.take(k).drop_last());
        h.len() + remote_ops::new_in(h, ops[k - 1]) <= usize::MAX
    })
    &&& names::with_names(log.names(), authors(ops.take(k))).len() <= AgentId::MAX
}

/// Whether edits can be counted, as far as they can be recorded one after the other.
pub open spec fn room_for_all(log: ListOpLog, ops: Seq<RemoteOp>) -> bool {
    forall|k: int|
        0 < k <= ops.len() && recordable_all(log.hist(), #[trigger] ops.take(k)) ==> room_for(
            log,
            ops,
            k,
        )
}

impl ListCRDT {
    pub open spec fn inv(&self) -> bool {
        &&& self.oplog.inv()
        &&& history::playable(self.oplog.hist())
        &&& self.branch.is_of(self.oplog)
    }

    /// Whether the document has all events, and stands at the newest version.
    pub open spec fn at_tip(&self) -> bool {
        &&& self.branch.version@ == self.oplog.cg.version@
        &&& self.branch.content@ == history::document(
            self.oplog.hist(),
            Set::new(|v: int| 0 <= v < self.oplog.size()),
        )
    }

    pub fn new() -> (out: ListCRDT)
        ensures
            out.inv(),
            out.oplog.hist() == events::nothing(),
            out.oplog.cg.agent_assignment.agents() == 0,
            out.branch.version@ == Seq::<usize>::empty(),
            out.branch.content@ == Seq::<char>::empty(),
    {
        let out = ListCRDT { branch: ListBranch::new(), oplog: ListOpLog::new() };
        assert(out.branch.is_of(out.oplog));
        out
    }

    /// The number of the agent with this name, which is a new one if there is none.
    pub fn get_or_create_agent_id(&mut self, name: &str) -> (out: AgentId)
        requires
            old(self).inv(),
            agent_assignment::name_fits(name@),
            old(self).oplog.cg.agent_assignment.room_for(name@),
        ensures
            final(self).inv(),
            final(self).oplog.hist() == old(self).oplog.hist(),
            final(self).branch == old(self).branch,
            final(self).oplog.keeps_agents(old(self).oplog),
            old(self).oplog.joined(final(self).oplog, name@),
            final(self).oplog.cg.agent_assignment.agents()
                <= old(self).oplog.cg.agent_assignment.agents() + 1,
            out < final(self).oplog.cg.agent_assignment.agents(),
            final(self).oplog.cg.agent_assignment.name_of(out as int) == name@,
            final(self).oplog.cg.version == old(self).oplog.cg.version,
            *final(self) == *old(self) || {
                &&& out == old(self).oplog.cg.agent_assignment.agents()
                &&& final(self).oplog.next_seq(out) == 0
            },
            forall|a: AgentId|
                a < old(self).oplog.cg.agent_assignment.agents()
                    ==> #[trigger] final(self).oplog.next_seq(a) == old(self).oplog.next_seq(a),
    {
        self.oplog.get_or_create_agent_id(name)
    }

    pub fn len(&self) -> (out: usize)
        ensures
            out == self.branch.content@.len(),
    {
        self.branch.len()
    }

    pub fn is_empty(&self) -> (out: bool)
        ensures
            out == (self.branch.content@.len() == 0),
    {
        self.branch.is_empty()
    }

    /// What an operation on the document makes of the log.
    proof fn lemma_edited(
        was: ListOpLog,
        now: ListOpLog,
        b: ListBranch,
        name: Seq<char>,
        seq: int,
        op: operation::OpAbs,
    )
        requires
            was.inv(),
            history::playable(was.hist()),
            b.is_of(was),
            op.valid(),
            operation::op_fits(b.content@, op),
            now.inv(),
            now.hist() == oplog::extended(was.hist(), b.version@, name, seq, op.events()),
        ensures
            history::playable(now.hist()),
            history::document(
                now.hist(),
                now.hist().version(seq![(now.size() - 1) as usize]),
            ) == operation::after_op(b.content@, op),
    {
        was.lemma_hist();
        now.lemma_hist();
        operation::law_op_is_its_events(b.content@, op);
        assert(now.hist().len() == was.hist().len() + op.events().len());
        extension::law_extended(was.hist(), b.version@, name, seq, op.events());
    }

    /// Types a text at `pos` of the document.
    pub fn insert(&mut self, agent: AgentId, pos: usize, content: &str) -> (out: LV)
        requires
            old(self).inv(),
            agent < old(self).oplog.cg.agent_assignment.agents(),
            pos <= old(self).branch.content@.len(),
            content@.len() > 0,
            old(self).oplog.size() + content@.len() <= usize::MAX,
            old(self).oplog.next_seq(agent) + content@.len() <= usize::MAX,
        ensures
            final(self).inv(),
            final(self).branch.content@ == old(self).branch.content@.subrange(0, pos as int)
                + content@ + old(self).branch.content@.subrange(
                pos as int,
                old(self).branch.content@.len() as int,
            ),
            final(self).branch.version@ == seq![out],
            final(self).oplog.hist() == oplog::extended(
                old(self).oplog.hist(),
                old(self).branch.version@,
                old(self).oplog.cg.agent_assignment.name_of(agent as int),
                old(self).oplog.next_seq(agent),
                oplog::typed(pos as int, content@),
            ),
            out == final(self).oplog.size() - 1,
            final(self).oplog.same_agents(old(self).oplog),
            old(self).oplog.stored(
                final(self).oplog,
                old(self).branch.version@,
                agent,
                operation::insert_abs(pos as int, content@),
            ),
    {
        let ghost was = *self;
        let ghost h = self.oplog.hist();
        proof {
            self.oplog.lemma_hist();
            xf_absolute::lemma_document_len(h, h.version(self.branch.version@));
        }
        let op = TextOperation::new_insert(pos, content);
        let lv = self.oplog.add_insert_at(agent, self.branch.version.as_ref(), pos, content);
        self.branch.content.insert(pos, content);
        self.branch.version = Frontier::new_1(lv);
        proof {
            assert forall|k: int| 0 <= k < op@.size() implies #[trigger] op@.event(k)
                == oplog::typed_char(pos as int, content@, k) by {}
            assert(op@.events() =~= oplog::typed(pos as int, content@));
            Self::lemma_edited(
                was.oplog,
                self.oplog,
                was.branch,
                was.oplog.cg.agent_assignment.name_of(agent as int),
                was.oplog.next_seq(agent),
                op@,
            );
            self.oplog.lemma_hist();
        }
        lv
    }

    /// Deletes a span of the document.
    pub fn delete(&mut self, agent: AgentId, span: DTRange) -> (out: LV)
        requires
            old(self).inv(),
            agent < old(self).oplog.cg.agent_assignment.agents(),
            span.start < span.end <= old(self).branch.content@.len(),
            old(self).oplog.size() + span.size() <= usize::MAX,
            old(self).oplog.next_seq(agent) + span.size() <= usize::MAX,
        ensures
            final(self).inv(),
            final(self).branch.content@ == old(self).branch.content@.subrange(
                0,
                span.start as int,
            ) + old(self).branch.content@.subrange(
                span.end as int,
                old(self).branch.content@.len() as int,
            ),
            final(self).branch.version@ == seq![out],
            final(self).oplog.hist() == oplog::extended(
                old(self).oplog.hist(),
                old(self).branch.version@,
                old(self).oplog.cg.agent_assignment.name_of(agent as int),
                old(self).oplog.next_seq(agent),
                Seq::new(span.size() as nat, |k: int| EvOp::Del { pos: span.start as int }),
            ),
            out == final(self).oplog.size() - 1,
            final(self).oplog.same_agents(old(self).oplog),
            old(self).oplog.stored(
                final(self).oplog,
                old(self).branch.version@,
                agent,
                operation::delete_abs(span),
            ),
    {
        let ghost was = *self;
        let op = TextOperation::new_delete(span);
        let lv = self.oplog.add_delete_at(agent, self.branch.version.as_ref(), span);
        self.branch.content.remove(span);
        self.branch.version = Frontier::new_1(lv);
        proof {
            assert(op@.events() =~= Seq::new(
                span.size() as nat,
                |k: int| EvOp::Del { pos: span.start as int },
            ));
            Self::lemma_edited(
                was.oplog,
                self.oplog,
                was.branch,
                was.oplog.cg.agent_assignment.name_of(agent as int),
                was.oplog.next_seq(agent),
                op@,
            );
            self.oplog.lemma_hist();
        }
        lv
    }

    /// Brings the document up to the newest version, so that it reflects all events.
    pub fn merge_to_tip(&mut self)
        requires
            old(self).inv(),
        ensures
            final(self).inv(),
            final(self).oplog == old(self).oplog,
            final(self).at_tip(),
    {
        let ghost h = self.oplog.hist();
        let ghost from = self.branch.version@;
        proof {
            self.oplog.lemma_hist();
            branch::law_tip(self.oplog);
            let all = Set::new(|v: int| 0 <= v < self.oplog.size());
            assert(h.version(from).union(all) =~= all) by {
                assert forall|v: int| #[trigger] h.version(from).contains(v) implies all.contains(
                    v,
                ) by {
                    graph::lemma_cone_order(h.parents, from, v);
                }
            }
        }
        self.branch.merge(&self.oplog, self.oplog.cg.version.as_ref());
        proof {
            branch::lemma_tip_dominators(
                h.parents,
                from,
                self.oplog.cg.version@,
                self.branch.version@,
            );
        }
    }

    /// The log that bytes tell of, and the document with all of its events.
    pub fn load_from(bytes: &[u8]) -> (out: Result<ListCRDT, ParseError>)
        requires
            decoding::decoded(events::nothing(), Seq::empty(), bytes@) matches Ok(h) ==> history::playable(
                h,
            ),
        ensures
            match decoding::decoded(events::nothing(), Seq::empty(), bytes@) {
                Ok(h) => out matches Ok(doc) && {
                    &&& doc.inv()
                    &&& doc.oplog.hist() == h
                    &&& decoding::stored_alone(doc.oplog)
                    &&& doc.oplog.names() == decoding::agents_told(bytes@)
                    &&& doc.at_tip()
                },
                Err(e) => out matches Err(x) && x == e,
            },
    {
        match ListOpLog::load_from(bytes) {
            Ok(oplog) => {
                let branch = oplog.checkout_tip();
                Ok(ListCRDT { branch, oplog })
            },
            Err(e) => Err(e),
        }
    }

    /// Takes up the events that bytes tell of, and brings the document up to date.
    ///
    /// Gives the newest ones of the events that the bytes tell of.
    pub fn merge_data_and_ff(&mut self, bytes: &[u8]) -> (out: Result<Frontier, ParseError>)
        requires
            old(self).inv(),
            decoding::decoded(
                old(self).oplog.hist(),
                old(self).oplog.names(),
                bytes@,
            ) matches Ok(h) ==> history::playable(h),
        ensures
            final(self).inv(),
            final(self).oplog.keeps_agents(old(self).oplog),
            match decoding::decoded(
                old(self).oplog.hist(),
                old(self).oplog.names(),
                bytes@,
            ) {
                Ok(h) => {
                    &&& final(self).oplog.hist() == h
                    &&& decoding::taken(old(self).oplog, final(self).oplog, bytes@)
                    &&& final(self).at_tip()
                    &&& out matches Ok(front) && decoding::newest_told(
                        final(self).oplog,
                        bytes@,
                        front@,
                    )
                },
                Err(e) => out == Err::<Frontier, ParseError>(e) && *final(self) == *old(self),
            },
    {
        let ghost was = *self;
        match self.oplog.decode_and_add(bytes) {
            Ok(front) => {
                proof {
                    let evs = decoding::events_told(bytes@);
                    was.oplog.lemma_hist();
                    lemma_received_prefix(was.oplog.hist(), evs);
                    lemma_branch_kept(was.branch, was.oplog, self.oplog);
                }
                self.merge_to_tip();
                Ok(front)
            },
            Err(e) => Err(e),
        }
    }

    /// Takes up an edit of a peer, and brings the document up to date with it.
    ///
    /// The edit is to find its place in the document at its parents.
    pub fn apply_remote_op(&mut self, op: &RemoteOp) -> (out: Result<DTRange, VersionNotFound>)
        requires
            old(self).inv(),
            remote_ops::has_room(old(self).oplog, *op),
            remote_ops::recordable(old(self).oplog.hist(), *op) ==> history::playable(
                remote_ops::recorded(old(self).oplog.hist(), *op),
            ),
        ensures
            final(self).inv(),
            final(self).oplog.keeps_agents(old(self).oplog),
            match out {
                Ok(range) => {
                    &&& remote_ops::recordable(old(self).oplog.hist(), *op)
                    &&& range.start == old(self).oplog.size()
                    &&& range.end == final(self).oplog.size()
                    &&& final(self).oplog.hist() == remote_ops::recorded(
                        old(self).oplog.hist(),
                        *op,
                    )
                    &&& remote_ops::stored(old(self).oplog, final(self).oplog, *op)
                    &&& final(self).at_tip()
                },
                Err(e) => {
                    &&& *final(self) == *old(self)
                    &&& remote_ops::first_unnamed(
                        old(self).oplog.hist(),
                        sorting::texts_of(op.parents@),
                        e.0@,
                    )
                },
            },
    {
        let ghost was = *self;
        match add_remote_op(&mut self.oplog, op) {
            Ok(range) => {
                proof {
                    let h = was.oplog.hist();
                    was.oplog.lemma_hist();
                    lemma_taken_up_prefix(
                        h,
                        remote_ops::named_list(h, sorting::texts_of(op.parents@)),
                        op.agent@,
                        op.seq as int,
                        remote_ops::remote_events(*op),
                    );
                    lemma_branch_kept(was.branch, was.oplog, self.oplog);
                }
                self.merge_to_tip();
                Ok(range)
            },
            Err(e) => Err(e),
        }
    }

    /// Takes up edits of peers, and brings the document up to date once at the end.
    ///
    /// The parents of each edit are to be known, or to belong to an earlier one. Where
    /// they are not, the edits before it stay recorded, and the document stays where
    /// it was.
    #[verifier::rlimit(50)]
    pub fn apply_remote_ops(&mut self, ops: &[RemoteOp]) -> (out: Result<(), VersionNotFound>)
        requires
            old(self).inv(),
            room_for_all(old(self).oplog, ops@),
            forall|k: int|
                0 <= k <= ops@.len() && recordable_all(
                    old(self).oplog.hist(),
                    #[trigger] ops@.take(k),
                ) ==> history::playable(recorded_all(old(self).oplog.hist(), ops@.take(k))),
        ensures
            final(self).inv(),
            final(self).oplog.keeps_agents(old(self).oplog),
            match out {
                Ok(()) => {
                    &&& recordable_all(old(self).oplog.hist(), ops@)
                    &&& final(self).oplog.hist() == recorded_all(old(self).oplog.hist(), ops@)
                    &&& stored_all(old(self).oplog, final(self).oplog, ops@)
                    &&& final(self).at_tip()
                },
                Err(e) => {
                    &&& final(self).branch == old(self).branch
                    &&& exists|k: int|
                        0 <= k < ops@.len() && recordable_all(
                            old(self).oplog.hist(),
                            #[trigger] ops@.take(k),
                        ) && final(self).oplog.hist() == recorded_all(
                            old(self).oplog.hist(),
                            ops@.take(k),
                        ) && stored_all(
                            old(self).oplog,
                            final(self).oplog,
                            ops@.take(k),
                        ) && remote_ops::first_unnamed(
                            final(self).oplog.hist(),
                            sorting::texts_of(ops@[k].parents@),
                            e.0@,
                        )
                },
            },
    {
        let ghost h = self.oplog.hist();
        let mut i: usize = 0;
        proof {
            assert(ops@.take(0) =~= Seq::<RemoteOp>::empty());
            assert(authors(ops@.take(0)) =~= Seq::<Seq<char>>::empty());
        }
        while i < ops.len()
            invariant
                self.inv(),
                i <= ops@.len(),
                self.branch == old(self).branch,
                self.oplog.keeps_agents(old(self).oplog),
                h == old(self).oplog.hist(),
                room_for_all(old(self).oplog, ops@),
                self.oplog.names() == names::with_names(
                    old(self).oplog.names(),
                    authors(ops@.take(i as int)),
                ),
                self.oplog.hist() == recorded_all(h, ops@.take(i as int)),
                recordable_all(h, ops@.take(i as int)),
                stored_all(old(self).oplog, self.oplog, ops@.take(i as int)),
                forall|k: int|
                    0 <= k <= ops@.len() && recordable_all(h, #[trigger] ops@.take(k))
                        ==> history::playable(recorded_all(h, ops@.take(k))),
            decreases ops@.len() - i,
        {
            let ghost was = *self;
            proof {
                assert(ops@.take(i + 1).drop_last() =~= ops@.take(i as int));
                assert(ops@.take(i + 1).last() == ops@[i as int]);
                self.oplog.lemma_hist();
                assert(authors(ops@.take(i + 1)).drop_last() =~= authors(ops@.take(i as int)));
                assert(authors(ops@.take(i + 1)).last() == ops@[i as int].agent@);
                if remote_ops::recordable(self.oplog.hist(), ops@[i as int]) {
                    assert(recordable_all(h, ops@.take(i + 1)));
                }
            }
            match add_remote_op(&mut self.oplog, &ops[i]) {
                Ok(range) => {
                    proof {
                        let op = ops@[i as int];
                        let g = was.oplog.hist();
                        was.oplog.lemma_hist();
                        assert(recordable_all(h, ops@.take(i + 1)));
                        assert(remote_ops::stored(was.oplog, self.oplog, op));
                        assert(stored_all(old(self).oplog, self.oplog, ops@.take(i + 1)));
                        lemma_taken_up_prefix(
                            g,
                            remote_ops::named_list(g, sorting::texts_of(op.parents@)),
                            op.agent@,
                            op.seq as int,
                            remote_ops::remote_events(op),
                        );
                        lemma_branch_kept(was.branch, was.oplog, self.oplog);
                        self.oplog.lemma_hist();
                    }
                },
                Err(e) => {
                    return Err(e);
                },
            }
            i += 1;
        }
        assert(ops@.take(i as int) =~= ops@);
        self.merge_to_tip();
        Ok(())
    }
}

} // verus!
