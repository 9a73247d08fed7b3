//! The operation log: every event that a peer knows, as its author produced it.

use crate::agent_assignment;
use crate::agent_assignment::{AgentId, AgentSpan, LV};
use crate::causal_graph::CausalGraph;
use crate::frontier::Frontier;
use crate::graph;
use crate::history::Hist;
use crate::names;
use crate::operation;
use crate::operation::{EvOp, ListOpKind, OpAbs, TextOperation};
use crate::range::DTRange;
use crate::remote_ops;
use crate::rle;
use crate::rle::{RleVal, RleVec, Runs};
use crate::text::chars_of;
use vstd::prelude::*;

verus! {

pub struct ListOpLog {
    pub cg: CausalGraph,
    /// What the events do, as runs under their local versions.
    pub operations: RleVec<TextOperation>,
}

/// What one event does.
#[derive(Debug, Clone, Copy, PartialEq, Eq)]
pub enum Ev {
    Ins { pos: usize, ch: char },
    Del { pos: usize },
}

impl View for Ev {
    type V = EvOp;

    open spec fn view(&self) -> EvOp {
        match *self {
            Ev::Ins { pos, ch } => EvOp::Ins { pos: pos as int, ch },
            Ev::Del { pos } => EvOp::Del { pos: pos as int },
        }
    }
}

/// The events that operations stand for, one after the other.
pub open spec fn events_of(ops: Seq<OpAbs>) -> Seq<EvOp>
    decreases ops.len(),
{
    if ops.len() == 0 {
        Seq::empty()
    } else {
        events_of(ops.drop_last()) + ops.last().events()
    }
}

/// The parts of operations that are their events `from..to`.
pub open spec fn parts_of(ops: Seq<OpAbs>, from: int, to: int) -> Seq<OpAbs>
    decreases ops.len(),
{
    if ops.len() == 0 {
        Seq::empty()
    } else {
        let before = parts_of(ops.drop_last(), from, to);
        let at = events_of(ops.drop_last()).len();
        let size = ops.last().size();
        let lo = if from > at {
            from - at
        } else {
            0
        };
        let hi = if to - at < size {
            to - at
        } else {
            size
        };
        if lo < hi {
            before.push(ops.last().between(lo, hi))
        } else {
            before
        }
    }
}

proof fn lemma_no_parts(ops: Seq<OpAbs>, from: int)
    ensures
        parts_of(ops, from, from) == Seq::<OpAbs>::empty(),
    decreases ops.len(),
{
    if ops.len() > 0 {
        lemma_no_parts(ops.drop_last(), from);
    }
}

/// The stored runs after operations were added one after the other.
pub open spec fn pushed_all(runs: Runs<OpAbs>, ops: Seq<OpAbs>) -> Runs<OpAbs>
    decreases ops.len(),
{
    if ops.len() == 0 {
        runs
    } else {
        let before = pushed_all(runs, ops.drop_last());
        rle::pushed::<TextOperation>(before, rle::end::<TextOperation>(before), ops.last())
    }
}

/// What a list of operations says.
pub open spec fn ops_view(ops: Seq<TextOperation>) -> Seq<OpAbs> {
    ops.map_values(|op: TextOperation| op@)
}

/// The history with more events behind it: events of one author, counted from
/// `seq` on, of which the first follows `parents` and each other one the one before it.
pub open spec fn extended(
    h: Hist,
    parents: Seq<usize>,
    name: Seq<char>,
    seq: int,
    evs: Seq<EvOp>,
) -> Hist {
    let n = h.len();
    Hist {
        parents: h.parents + graph::chain(
            parents,
            DTRange { start: n as usize, end: (n + evs.len()) as usize },
        ),
        ops: h.ops + evs,
        ids: h.ids + Seq::new(evs.len(), |k: int| (name, seq + k)),
    }
}

/// The events that type a text from `pos` on.
pub open spec fn typed(pos: int, text: Seq<char>) -> Seq<EvOp> {
    Seq::new(text.len(), |k: int| typed_char(pos, text, k))
}

pub open spec fn typed_char(pos: int, text: Seq<char>, k: int) -> EvOp {
    EvOp::Ins { pos: pos + k, ch: text[k] }
}

/// What event `v` does, given runs of what events do.
#[verifier::opaque]
pub open spec fn op_at(runs: Runs<OpAbs>, v: int) -> EvOp {
    rle::at::<TextOperation>(runs, v)
}

impl ListOpLog {
    /// How many events there are.
    pub open spec fn size(&self) -> int {
        self.cg.size()
    }

    pub open spec fn inv(&self) -> bool {
        &&& self.cg.inv()
        &&& rle::packed::<TextOperation>(self.operations.runs())
        &&& self.operations.ends() == self.cg.size()
    }

    /// What event `v` does.
    pub open spec fn op_of(&self, v: int) -> EvOp {
        op_at(self.operations.runs(), v)
    }

    /// The author's name and the author's count of event `v`.
    pub open spec fn id_of(&self, v: int) -> (Seq<char>, int) {
        let (agent, seq) = self.cg.agent_assignment.id_of(v);
        (self.cg.agent_assignment.name_of(agent as int), seq)
    }

    /// The history that the log holds.
    pub open spec fn hist(&self) -> Hist {
        Hist {
            parents: self.cg.parents(),
            ops: Seq::new(self.size() as nat, |v: int| self.op_of(v)),
            ids: Seq::new(self.size() as nat, |v: int| self.id_of(v)),
        }
    }

    pub proof fn lemma_hist(&self)
        requires
            self.inv(),
        ensures
            self.hist().valid(),
            self.hist().len() == self.size(),
            0 <= self.size() <= usize::MAX,
            forall|v: int|
                0 <= v < self.size() ==> {
                    &&& (#[trigger] self.cg.agent_assignment.id_of(v)).0
                        < self.cg.agent_assignment.agents()
                    &&& 0 <= self.cg.agent_assignment.id_of(v).1 < usize::MAX
                },
    {
        let aa = self.cg.agent_assignment;
        let h = self.hist();
        let runs = self.operations.runs();
        if runs.len() > 0 {
            assert(OpAbs::valid(runs[runs.len() - 1].1));
        }
        assert forall|v: int| 0 <= v < self.size() implies {
            &&& (#[trigger] aa.id_of(v)).0 < aa.agents()
            &&& 0 <= aa.id_of(v).1 < usize::MAX
        } by {
            let (agent, seq) = aa.id_of(v);
            assert(aa.knows(agent as int, seq));
            let theirs = aa.client_data@[agent as int].lv_for_seq.runs();
            assert(aa.client_data@[agent as int].inv());
            rle::lemma_past_end::<DTRange>(theirs, seq);
            assert(DTRange::valid(theirs[theirs.len() - 1].1));
        }
        assert forall|v: int, w: int| 0 <= v < w < h.ids.len() implies (#[trigger] h.ids[v]) != (
        #[trigger] h.ids[w]) by {
            let (a1, s1) = aa.id_of(v);
            let (a2, s2) = aa.id_of(w);
            assert(aa.knows(a1 as int, s1) && aa.lv_of(a1 as int, s1) == v);
            assert(aa.knows(a2 as int, s2) && aa.lv_of(a2 as int, s2) == w);
            if aa.name_of(a1 as int) == aa.name_of(a2 as int) {
                assert(aa.agent_ids@[aa.name_of(a1 as int)] == a1 as int);
                assert(aa.agent_ids@[aa.name_of(a2 as int)] == a2 as int);
            }
        }
    }

    pub fn new() -> (out: ListOpLog)
        ensures
            out.inv(),
            out.size() == 0,
            out.cg.agent_assignment.agents() == 0,
            out.hist() == (Hist { parents: Seq::empty(), ops: Seq::empty(), ids: Seq::empty() }),
            out.cg.version@ == Seq::<usize>::empty(),
            out.cg.graph.entries.runs().len() == 0,
            out.cg.agent_assignment.client_with_lv.runs().len() == 0,
            out.operations.runs().len() == 0,
    {
        let out = ListOpLog { cg: CausalGraph::new(), operations: RleVec::new() };
        assert(out.hist() =~= (Hist {
            parents: Seq::empty(),
            ops: Seq::empty(),
            ids: Seq::empty(),
        }));
        out
    }

    /// How many events there are.
    pub fn len(&self) -> (out: usize)
        requires
            self.inv(),
        ensures
            out == self.size(),
    {
        self.cg.len()
    }

    pub fn is_empty(&self) -> (out: bool)
        requires
            self.inv(),
        ensures
            out == (self.size() == 0),
    {
        self.cg.len() == 0
    }

    /// The number of the agent with this name, which is a new one if there is none.
    pub fn get_or_create_agent_id(&mut self, name: &str) -> (out: AgentId)
        requires
            old(self).inv(),
            agent_assignment::name_fits(name@),
            old(self).cg.agent_assignment.room_for(name@),
        ensures
            final(self).inv(),
            final(self).hist() == old(self).hist(),
            out < final(self).cg.agent_assignment.agents(),
            final(self).cg.agent_assignment.name_of(out as int) == name@,
            final(self).keeps_agents(*old(self)),
            old(self).joined(*final(self), name@),
            final(self).cg.agent_assignment.agents() <= old(self).cg.agent_assignment.agents() + 1,
            final(self).cg.graph == old(self).cg.graph,
            final(self).cg.version == old(self).cg.version,
            final(self).cg.agent_assignment.client_with_lv == old(self).cg.agent_assignment.client_with_lv,
            final(self).operations == old(self).operations,
            *final(self) == *old(self) || {
                &&& forall|a: int|
                    0 <= a < old(self).cg.agent_assignment.agents()
                        ==> old(self).cg.agent_assignment.name_of(a) != name@
                &&& out == old(self).cg.agent_assignment.agents()
                &&& final(self).next_seq(out) == 0
            },
            forall|a: AgentId|
                a < old(self).cg.agent_assignment.agents() ==> #[trigger] final(self).next_seq(a)
                    == old(self).next_seq(a),
    {
        let ghost was = *self;
        let out = self.cg.agent_assignment.get_or_create_agent_id(name);
        proof {
            let aa = was.cg.agent_assignment;
            let bb = self.cg.agent_assignment;
            assert forall|a: int| 0 <= a < aa.agents() implies #[trigger] bb.name_of(a)
                == aa.name_of(a) by {
                if aa != bb {
                    assert(bb.client_data@.drop_last()[a] == bb.client_data@[a]);
                }
            }
            was.lemma_hist();
            assert forall|v: int| 0 <= v < was.size() implies #[trigger] self.id_of(v)
                == was.id_of(v) by {
                assert(aa.id_of(v).0 < aa.agents());
                assert(bb.id_of(v) == aa.id_of(v));
            }
            assert(self.hist() =~= was.hist());
            if *self == was {
                assert(was.names()[out as int] == name@);
            }
            assert(self.names() =~= names::with_name(was.names(), name@));
        }
        out
    }

    pub fn get_agent_name(&self, agent: AgentId) -> (out: &str)
        requires
            agent < self.cg.agent_assignment.agents(),
        ensures
            out@ == self.cg.agent_assignment.name_of(agent as int),
    {
        self.cg.agent_assignment.get_agent_name(agent)
    }

    /// The version that holds all events.
    pub fn local_frontier_ref(&self) -> (out: &[LV])
        ensures
            out@ == self.cg.version@,
    {
        self.cg.version.as_ref()
    }

    /// The version that holds all events.
    pub fn local_frontier(&self) -> (out: Frontier)
        ensures
            out@ == self.cg.version@,
    {
        self.cg.version.clone()
    }

    /// Adds what new events do.
    fn push_op(&mut self, op: TextOperation)
        requires
            rle::packed::<TextOperation>(old(self).operations.runs()),
            op@.valid(),
            old(self).operations.ends() + op@.size() <= usize::MAX,
        ensures
            final(self).cg == old(self).cg,
            rle::packed::<TextOperation>(final(self).operations.runs()),
            final(self).operations.ends() == old(self).operations.ends() + op@.size(),
            final(self).operations.runs() == rle::pushed::<TextOperation>(
                old(self).operations.runs(),
                old(self).operations.ends(),
                op@,
            ),
            forall|v: int|
                0 <= v < old(self).operations.ends() ==> #[trigger] final(self).op_of(v) == old(self).op_of(v),
            forall|v: int|
                old(self).operations.ends() <= v < final(self).operations.ends()
                    ==> #[trigger] final(self).op_of(v) == op@.event(
                    v - old(self).operations.ends(),
                ),
    {
        let at = self.operations.end();
        let ghost runs = self.operations.runs();
        proof {
            reveal(op_at);
            rle::lemma_pushed::<TextOperation>(runs, at as int, op@);
            assert forall|v: int| 0 <= v < at implies rle::has::<TextOperation>(runs, v) by {
                rle::lemma_packed::<TextOperation>(runs, v);
            }
        }
        self.operations.push(at, op);
    }

    /// That the log holds more events, told by its parts.
    proof fn lemma_extended(
        &self,
        was: ListOpLog,
        parents: Seq<usize>,
        agent: AgentId,
        seq: int,
        span: DTRange,
        evs: Seq<EvOp>,
    )
        requires
            was.inv(),
            agent < was.cg.agent_assignment.agents(),
            span.start == was.size(),
            span.start < span.end,
            evs.len() == span.size(),
            was.cg.grown(self.cg, parents, agent, seq, span),
            rle::packed::<TextOperation>(self.operations.runs()),
            self.operations.ends() == span.end,
            forall|v: int| 0 <= v < was.size() ==> #[trigger] self.op_of(v) == was.op_of(v),
            forall|v: int| span.has(v) ==> #[trigger] self.op_of(v) == evs[v - span.start],
        ensures
            self.inv(),
            self.hist() == extended(
                was.hist(),
                parents,
                was.cg.agent_assignment.name_of(agent as int),
                seq,
                evs,
            ),
    {
        let name = was.cg.agent_assignment.name_of(agent as int);
        let h = extended(was.hist(), parents, name, seq, evs);
        was.lemma_hist();
        assert forall|v: int| 0 <= v < self.size() implies #[trigger] self.id_of(v)
            == h.ids[v] by {
            if v < was.size() {
                assert(was.cg.agent_assignment.id_of(v).0 < was.cg.agent_assignment.agents());
                assert(self.cg.agent_assignment.id_of(v) == was.cg.agent_assignment.id_of(v));
            } else {
                assert(self.cg.agent_assignment.id_of(v) == (agent, seq + (v - span.start)));
            }
        }
        assert(self.hist().ops =~= h.ops);
        assert(self.hist().ids =~= h.ids);
        assert(self.hist() =~= h);
    }

    /// Whether `now` is this log with an operation stored behind the others: the next
    /// events of `agent`, of which the first follows `parents`.
    pub open spec fn stored(
        &self,
        now: ListOpLog,
        parents: Seq<usize>,
        agent: AgentId,
        op: OpAbs,
    ) -> bool {
        &&& self.cg.grown(
            now.cg,
            parents,
            agent,
            self.next_seq(agent),
            DTRange { start: self.size() as usize, end: now.size() as usize },
        )
        &&& now.operations.runs() == rle::pushed::<TextOperation>(
            self.operations.runs(),
            self.size(),
            op,
        )
        &&& now.next_seq(agent) == self.next_seq(agent) + op.size()
    }

    /// Adds one operation as the next events of `agent`, of which the first follows
    /// `parents`. Gives the last of them.
    pub fn add_operation_at(&mut self, agent: AgentId, parents: &[LV], op: TextOperation) -> (out: LV)
        requires
            old(self).inv(),
            agent < old(self).cg.agent_assignment.agents(),
            graph::known(old(self).cg.parents(), parents@),
            op@.valid(),
            old(self).size() + op@.size() <= usize::MAX,
            old(self).next_seq(agent) + op@.size() <= usize::MAX,
        ensures
            final(self).inv(),
            out == old(self).size() + op@.size() - 1,
            final(self).size() == out + 1,
            final(self).hist() == extended(
                old(self).hist(),
                parents@,
                old(self).cg.agent_assignment.name_of(agent as int),
                old(self).next_seq(agent),
                op@.events(),
            ),
            final(self).same_agents(*old(self)),
            old(self).stored(*final(self), parents@, agent, op@),
    {
        let ghost was = *self;
        let len = op.len();
        let span = self.cg.assign_local_op_with_parents(parents, agent, len);
        let ghost told = op@;
        self.push_op(op);
        proof {
            let evs = told.events();
            assert forall|v: int| span.has(v) implies #[trigger] self.op_of(v) == evs[v
                - span.start] by {}
            self.lemma_extended(was, parents@, agent, was.next_seq(agent), span, evs);
        }
        span.end - 1
    }

    /// One more than the highest count of an agent that is known.
    pub open spec fn next_seq(&self, agent: AgentId) -> int {
        self.cg.agent_assignment.next_seq(agent as int)
    }

    /// Whether the two logs have the same agents under the same numbers.
    pub open spec fn same_agents(&self, other: ListOpLog) -> bool {
        let aa = self.cg.agent_assignment;
        let bb = other.cg.agent_assignment;
        &&& aa.agents() == bb.agents()
        &&& forall|a: int| 0 <= a < aa.agents() ==> #[trigger] aa.name_of(a) == bb.name_of(a)
    }

    /// The names of the agents, in the order of their numbers.
    pub open spec fn names(&self) -> Seq<Seq<char>> {
        self.cg.agent_assignment.names()
    }

    /// Whether `now` is this log with an agent of the given name, and nothing else
    /// changed.
    pub open spec fn joined(&self, now: ListOpLog, name: Seq<char>) -> bool {
        &&& now.hist() == self.hist()
        &&& now.operations == self.operations
        &&& now.cg.graph == self.cg.graph
        &&& now.cg.version == self.cg.version
        &&& now.cg.agent_assignment.client_with_lv == self.cg.agent_assignment.client_with_lv
        &&& now.names() == names::with_name(self.names(), name)
    }

    /// Whether all agents of another log are known under the same numbers.
    pub open spec fn keeps_agents(&self, was: ListOpLog) -> bool {
        let aa = was.cg.agent_assignment;
        let bb = self.cg.agent_assignment;
        &&& aa.agents() <= bb.agents()
        &&& forall|a: int| 0 <= a < aa.agents() ==> #[trigger] bb.name_of(a) == aa.name_of(a)
    }

    /// Adds an insert of `content` at `pos` of the document at `parents`. Gives the
    /// last of the events.
    pub fn add_insert_at(&mut self, agent: AgentId, parents: &[LV], pos: usize, content: &str) -> (out:
        LV)
        requires
            old(self).inv(),
            agent < old(self).cg.agent_assignment.agents(),
            graph::known(old(self).cg.parents(), parents@),
            content@.len() > 0,
            pos + content@.len() <= usize::MAX,
            old(self).size() + content@.len() <= usize::MAX,
            old(self).next_seq(agent) + content@.len() <= usize::MAX,
        ensures
            final(self).inv(),
            out == old(self).size() + content@.len() - 1,
            final(self).size() == out + 1,
            final(self).hist() == extended(
                old(self).hist(),
                parents@,
                old(self).cg.agent_assignment.name_of(agent as int),
                old(self).next_seq(agent),
                typed(pos as int, content@),
            ),
            final(self).same_agents(*old(self)),
            old(self).stored(*final(self), parents@, agent, operation::insert_abs(pos as int, content@)),
    {
        let op = TextOperation::new_insert(pos, content);
        proof {
            assert(op@.size() == content@.len());
            assert(op@.events() =~= typed(pos as int, content@));
        }
        self.add_operation_at(agent, parents, op)
    }

    /// Adds a forward delete of a span of the document at `parents`. Gives the last of
    /// the events.
    pub fn add_delete_at(&mut self, agent: AgentId, parents: &[LV], span: DTRange) -> (out: LV)
        requires
            old(self).inv(),
            agent < old(self).cg.agent_assignment.agents(),
            graph::known(old(self).cg.parents(), parents@),
            span.start < span.end,
            old(self).size() + span.size() <= usize::MAX,
            old(self).next_seq(agent) + span.size() <= usize::MAX,
        ensures
            final(self).inv(),
            out == old(self).size() + span.size() - 1,
            final(self).size() == out + 1,
            final(self).hist() == extended(
                old(self).hist(),
                parents@,
                old(self).cg.agent_assignment.name_of(agent as int),
                old(self).next_seq(agent),
                Seq::new(span.size() as nat, |k: int| EvOp::Del { pos: span.start as int }),
            ),
            final(self).same_agents(*old(self)),
            old(self).stored(*final(self), parents@, agent, operation::delete_abs(span)),
    {
        let op = TextOperation::new_delete(span);
        assert(op@.events() =~= Seq::new(
            span.size() as nat,
            |k: int| EvOp::Del { pos: span.start as int },
        ));
        self.add_operation_at(agent, parents, op)
    }

    /// Adds what a peer sent: events of `agent` from `start_seq` on, of which the first
    /// follows `parents`. Events that are known already are not added again.
    ///
    /// Gives the local versions of what was added.
    pub fn add_operations_remote(
        &mut self,
        agent: AgentId,
        parents: &[LV],
        start_seq: usize,
        ops: &[TextOperation],
    ) -> (out: DTRange)
        requires
            old(self).inv(),
            agent < old(self).cg.agent_assignment.agents(),
            graph::known(old(self).cg.parents(), parents@),
            forall|i: int| 0 <= i < ops@.len() ==> (#[trigger] ops@[i])@.valid(),
            start_seq + events_of(ops_view(ops@)).len() <= usize::MAX,
            old(self).size() + remote_ops::new_count(
                old(self).hist(),
                old(self).cg.agent_assignment.name_of(agent as int),
                start_seq as int,
                events_of(ops_view(ops@)).len(),
            ) <= usize::MAX,
        ensures
            final(self).inv(),
            out.start == old(self).size(),
            out.end == final(self).size(),
            final(self).same_agents(*old(self)),
            final(self).hist() == remote_ops::taken_up(
                old(self).hist(),
                parents@,
                old(self).cg.agent_assignment.name_of(agent as int),
                start_seq as int,
                events_of(ops_view(ops@)),
            ),
            ({
                let evs = events_of(ops_view(ops@));
                let span = sent_span(agent, start_seq, evs.len());
                let new = old(self).cg.fresh_part(span);
                &&& start_seq <= new.start <= new.end <= start_seq + evs.len()
                &&& out.size() == new.size()
                &&& out.start == out.end ==> *final(self) == *old(self)
                &&& out.start < out.end ==> final(self).hist() == extended(
                    old(self).hist(),
                    old(self).cg.fresh_parents(span, parents@),
                    old(self).cg.agent_assignment.name_of(agent as int),
                    new.start as int,
                    evs.subrange(new.start - start_seq, new.end - start_seq),
                )
                &&& out.start < out.end ==> old(self).cg.grown(
                    final(self).cg,
                    old(self).cg.fresh_parents(span, parents@),
                    agent,
                    new.start as int,
                    out,
                )
                &&& final(self).operations.runs() == pushed_all(
                    old(self).operations.runs(),
                    parts_of(ops_view(ops@), new.start - start_seq, new.end - start_seq),
                )
            }),
    {
        let ghost was = *self;
        let ghost evs = events_of(ops_view(ops@));
        let len = total_len(ops);
        let span = AgentSpan {
            agent,
            seq_range: DTRange { start: start_seq, end: start_seq + len },
        };
        let ghost new = self.cg.fresh_part(span);
        proof {
            self.lemma_hist();
            remote_ops::lemma_fresh(*self, agent, start_seq, evs.len(), parents@);
        }
        let from = self.first_unknown(span);
        let out = self.cg.merge_and_assign(parents, span);
        if out.start == out.end {
            proof {
                lemma_no_parts(ops_view(ops@), new.start - start_seq);
            }
            return out;
        }
        let skip = from - start_seq;
        let count = out.end - out.start;
        self.push_part(ops, skip, skip + count);
        proof {
            let part = evs.subrange(new.start - start_seq, new.end - start_seq);
            assert forall|v: int| out.has(v) implies #[trigger] self.op_of(v) == part[v
                - out.start] by {}
            self.lemma_extended(
                was,
                was.cg.fresh_parents(span, parents@),
                agent,
                new.start as int,
                out,
                part,
            );
        }
        out
    }

    fn first_unknown(&self, span: AgentSpan) -> (out: usize)
        requires
            self.inv(),
            span.seq_range.ordered(),
        ensures
            out == self.cg.fresh_part(span).start,
            span.seq_range.start <= out <= span.seq_range.end,
    {
        self.cg.skip_events(span.agent, span.seq_range.start, span.seq_range.end, true)
    }

    /// Adds what the events `from..to` of the operations do.
    #[verifier::rlimit(50)]
    fn push_part(&mut self, ops: &[TextOperation], from: usize, to: usize)
        requires
            rle::packed::<TextOperation>(old(self).operations.runs()),
            forall|i: int| 0 <= i < ops@.len() ==> (#[trigger] ops@[i])@.valid(),
            from <= to <= events_of(ops_view(ops@)).len(),
            events_of(ops_view(ops@)).len() <= usize::MAX,
            old(self).operations.ends() + (to - from) <= usize::MAX,
        ensures
            final(self).cg == old(self).cg,
            rle::packed::<TextOperation>(final(self).operations.runs()),
            final(self).operations.ends() == old(self).operations.ends() + (to - from),
            forall|v: int|
                0 <= v < old(self).operations.ends() ==> #[trigger] final(self).op_of(v) == old(self).op_of(v),
            forall|v: int|
                old(self).operations.ends() <= v < final(self).operations.ends()
                    ==> #[trigger] final(self).op_of(v) == events_of(ops_view(ops@))[from + (v
                    - old(self).operations.ends())],
            final(self).operations.runs() == pushed_all(
                old(self).operations.runs(),
                parts_of(ops_view(ops@), from as int, to as int),
            ),
    {
        let ghost all = ops_view(ops@);
        let ghost evs = events_of(all);
        let ghost base = self.operations.ends();
        let _end = self.operations.end();
        let mut i: usize = 0;
        let mut at: usize = 0;
        proof {
            assert(all.take(0) =~= Seq::<OpAbs>::empty());
            assert(all.take(ops@.len() as int) =~= all);
        }
        while i < ops.len()
            invariant
                all == ops_view(ops@),
                evs == events_of(all),
                evs.len() <= usize::MAX,
                from <= to <= evs.len(),
                i <= ops@.len(),
                at == events_of(all.take(i as int)).len(),
                at <= evs.len(),
                forall|j: int| 0 <= j < ops@.len() ==> (#[trigger] ops@[j])@.valid(),
                self.cg == old(self).cg,
                base == old(self).operations.ends(),
                0 <= base,
                base + (to - from) <= usize::MAX,
                rle::packed::<TextOperation>(self.operations.runs()),
                self.operations.ends() == base + between(from as int, to as int, at as int),
                self.operations.runs() == pushed_all(
                    old(self).operations.runs(),
                    parts_of(all.take(i as int), from as int, to as int),
                ),
                forall|v: int|
                    0 <= v < base ==> #[trigger] self.op_of(v) == old(self).op_of(v),
                forall|v: int|
                    base <= v < self.operations.ends() ==> #[trigger] self.op_of(v) == evs[from + (v
                        - base)],
            decreases ops@.len() - i,
        {
            let op = &ops[i];
            let len = op.len();
            let ghost before = *self;
            proof {
                assert(all[i as int] == op@);
                assert(all.take(i + 1).drop_last() =~= all.take(i as int));
                assert(all.take(i + 1).last() == op@);
                lemma_events_prefix(all, i + 1);
            }
            // The part of this operation that is asked for.
            let lo = if from > at {
                from - at
            } else {
                0
            };
            let hi = if to < at {
                0
            } else if to - at < len {
                to - at
            } else {
                len
            };
            if lo < hi {
                let part = op.between(lo, hi);
                self.push_op(part);
                proof {
                    let done = parts_of(all.take(i as int), from as int, to as int);
                    assert(done.push(part@).drop_last() =~= done);
                    assert(parts_of(all.take(i + 1), from as int, to as int) =~= done.push(part@));
                    let now = *self;
                    assert forall|v: int| 0 <= v < base implies #[trigger] now.op_of(v) == old(self).op_of(v) by {
                        assert(now.op_of(v) == before.op_of(v));
                    }
                    assert forall|v: int|
                        base <= v < now.operations.ends() implies #[trigger] now.op_of(v)
                        == evs[from + (v - base)] by {
                        let b = before.operations.ends();
                        if v < b {
                            assert(now.op_of(v) == before.op_of(v));
                        } else {
                            let k = v - b;
                            assert(now.op_of(v) == part@.event(k));
                            assert(part@.events()[k] == op@.events().subrange(
                                lo as int,
                                hi as int,
                            )[k]);
                            assert(op@.events()[lo + k] == events_of(all.take(i + 1))[at + lo + k]);
                            assert(events_of(all.take(i + 1))[at + lo + k] == evs[at + lo + k]);
                        }
                    }
                }
            }
            at += len;
            i += 1;
        }
    }
}

/// Event `k` of an operation with the given content.
fn event_at(op: &TextOperation, chars: &Vec<char>, k: usize) -> (out: Ev)
    requires
        op@.valid(),
        op@.content matches Some(c) ==> chars@ == c,
        k < op@.size(),
    ensures
        out@ == op@.event(k as int),
{
    let at = op.loc.span;
    match op.kind {
        ListOpKind::Ins => Ev::Ins { pos: at.start + k, ch: chars[k] },
        ListOpKind::Del => if op.loc.fwd {
            Ev::Del { pos: at.start }
        } else {
            Ev::Del { pos: at.end - 1 - k }
        },
    }
}

impl ListOpLog {
    /// What the events do, one by one.
    #[verifier::rlimit(50)]
    pub fn all_events(&self) -> (out: Vec<Ev>)
        requires
            self.inv(),
        ensures
            out@.len() == self.size(),
            forall|v: int| 0 <= v < out@.len() ==> (#[trigger] out@[v])@ == self.op_of(v),
    {
        let ghost runs = self.operations.runs();
        let mut out: Vec<Ev> = Vec::new();
        let mut i: usize = 0;
        while i < self.operations.0.len()
            invariant
                self.inv(),
                runs == self.operations.runs(),
                i <= runs.len(),
                out@.len() == (if i < runs.len() {
                    runs[i as int].0
                } else {
                    self.size()
                }),
                forall|v: int| 0 <= v < out@.len() ==> (#[trigger] out@[v])@ == self.op_of(v),
            decreases runs.len() - i,
        {
            let entry = &self.operations.0[i];
            assert(runs[i as int] == (entry.0 as int, entry.1@));
            let op = &entry.1;
            let chars = match op.content_as_str() {
                Some(c) => chars_of(c),
                None => Vec::new(),
            };
            let len = op.len();
            let mut k: usize = 0;
            let ghost start = out@.len();
            while k < len
                invariant
                    self.inv(),
                    runs == self.operations.runs(),
                    i < runs.len(),
                    runs[i as int] == (entry.0 as int, entry.1@),
                    op == &entry.1,
                    op@.valid(),
                    len == op@.size(),
                    op@.content matches Some(c) ==> chars@ == c,
                    start == runs[i as int].0,
                    k <= len,
                    out@.len() == start + k,
                    forall|v: int| 0 <= v < out@.len() ==> (#[trigger] out@[v])@ == self.op_of(v),
                decreases len - k,
            {
                let ev = event_at(op, &chars, k);
                proof {
                    let v = start + k;
                    reveal(op_at);
                    assert(rle::covers::<TextOperation>(runs, i as int, v));
                    rle::lemma_unique::<TextOperation>(runs, i as int, v);
                    assert(self.op_of(v) == op@.event(k as int));
                }
                out.push(ev);
                k += 1;
            }
            i += 1;
            proof {
                if i < runs.len() {
                    let a = runs[i - 1];
                    let b = runs[i as int];
                    assert(rle::end_of::<TextOperation>(runs, i - 1) == runs[i as int].0);
                }
            }
        }
        out
    }
}

/// The events of two lists of operations.
pub proof fn lemma_events_concat(a: Seq<OpAbs>, b: Seq<OpAbs>)
    ensures
        events_of(a + b) == events_of(a) + events_of(b),
    decreases b.len(),
{
    if b.len() == 0 {
        assert(a + b =~= a);
        assert(events_of(a + b) =~= events_of(a) + events_of(b));
    } else {
        lemma_events_concat(a, b.drop_last());
        assert((a + b).drop_last() =~= a + b.drop_last());
        assert(events_of(a + b) =~= events_of(a) + events_of(b));
    }
}

pub proof fn lemma_events_one(a: OpAbs)
    ensures
        events_of(seq![a]) == a.events(),
{
    let one = seq![a];
    assert(one.drop_last() =~= Seq::<OpAbs>::empty());
    assert(one.last() == a);
    assert(events_of(Seq::<OpAbs>::empty()) =~= Seq::<EvOp>::empty());
    assert(events_of(one) =~= a.events());
}

/// What the events `from..to` do, as parts of the runs that hold them.
pub open spec fn ops_between(runs: Runs<OpAbs>, from: int, to: int) -> Seq<OpAbs>
    decreases to - from,
{
    let next = rle::break_after::<TextOperation>(runs, from, to);
    if from < next {
        seq![rle::piece::<TextOperation>(runs, from, next)] + ops_between(runs, next, to)
    } else {
        Seq::empty()
    }
}

impl ListOpLog {
    /// What the events of a range do, as parts of the stored operations.
    #[verifier::rlimit(50)]
    pub fn ops_in_range(&self, range: DTRange) -> (out: Vec<TextOperation>)
        requires
            self.inv(),
            range.start <= range.end <= self.size(),
        ensures
            ops_view(out@) == ops_between(
                self.operations.runs(),
                range.start as int,
                range.end as int,
            ),
            forall|i: int| 0 <= i < out@.len() ==> (#[trigger] out@[i])@.valid(),
            events_of(ops_view(out@)) == self.hist().ops.subrange(
                range.start as int,
                range.end as int,
            ),
    {
        let ghost runs = self.operations.runs();
        let ghost h = self.hist();
        let ghost all = ops_between(runs, range.start as int, range.end as int);
        let mut out: Vec<TextOperation> = Vec::new();
        let mut at: usize = range.start;
        proof {
            assert(ops_view(out@) + all =~= all);
            assert(events_of(ops_view(out@)) =~= h.ops.subrange(range.start as int, at as int));
        }
        while at < range.end
            invariant
                self.inv(),
                h == self.hist(),
                runs == self.operations.runs(),
                range.start <= at <= range.end <= self.size(),
                all == ops_view(out@) + ops_between(runs, at as int, range.end as int),
                forall|i: int| 0 <= i < out@.len() ==> (#[trigger] out@[i])@.valid(),
                events_of(ops_view(out@)) == h.ops.subrange(range.start as int, at as int),
            decreases range.end - at,
        {
            proof {
                rle::lemma_packed::<TextOperation>(runs, at as int);
            }
            let next = self.operations.next_break(at, range.end);
            let op = self.operations.piece_at(at, next);
            let ghost before = ops_view(out@);
            proof {
                rle::lemma_piece::<TextOperation>(runs, at as int, next as int);
            }
            let ghost told = op@;
            out.push(op);
            proof {
                assert(ops_view(out@) =~= before.push(told));
                assert(ops_view(out@) + ops_between(runs, next as int, range.end as int)
                    =~= before + (seq![told] + ops_between(runs, next as int, range.end as int)));
                assert(ops_view(out@).drop_last() =~= before);
                assert forall|k: int| 0 <= k < told.size() implies #[trigger] told.events()[k]
                    == h.ops[at + k] by {
                    reveal(op_at);
                    assert(TextOperation::item(told, at as int, k) == rle::at::<TextOperation>(
                        runs,
                        at + k,
                    ));
                }
                assert(events_of(ops_view(out@)) =~= h.ops.subrange(
                    range.start as int,
                    next as int,
                ));
            }
            at = next;
        }
        proof {
            assert(ops_between(runs, at as int, range.end as int) =~= Seq::<OpAbs>::empty());
            assert(all =~= ops_view(out@));
        }
        out
    }

    /// All stored operations.
    #[verifier::rlimit(40)]
    pub fn iter_ops(&self) -> (out: Vec<TextOperation>)
        requires
            self.inv(),
        ensures
            out@.len() == self.operations.runs().len(),
            forall|i: int|
                0 <= i < out@.len() ==> (#[trigger] out@[i])@ == self.operations.runs()[i].1,
            events_of(ops_view(out@)) == self.hist().ops,
    {
        let ghost runs = self.operations.runs();
        let ghost h = self.hist();
        let mut out: Vec<TextOperation> = Vec::new();
        let mut i: usize = 0;
        let ghost mut at: int = 0;
        proof {
            self.lemma_hist();
            assert(ops_view(out@) =~= Seq::<OpAbs>::empty());
        }
        while i < self.operations.0.len()
            invariant
                self.inv(),
                runs == self.operations.runs(),
                h == self.hist(),
                h.ops.len() == self.size(),
                i <= runs.len(),
                out@.len() == i,
                at == rle::end::<TextOperation>(runs.take(i as int)),
                0 <= at <= self.size(),
                events_of(ops_view(out@)) == h.ops.take(at),
                forall|j: int| 0 <= j < i ==> (#[trigger] out@[j])@ == runs[j].1,
            decreases runs.len() - i,
        {
            assert(runs[i as int].1 == self.operations.0@[i as int].1@);
            let ghost before = ops_view(out@);
            out.push(self.operations.0[i].1.clone());
            proof {
                let run = runs[i as int];
                let told = run.1;
                assert(ops_view(out@) =~= before.push(told));
                assert(before.push(told).drop_last() =~= before);
                assert(runs.take(i + 1).last() == run);
                if i > 0 {
                    assert(runs.take(i as int).last() == runs[i - 1]);
                    assert(rle::end_of::<TextOperation>(runs, i - 1) == run.0);
                }
                assert(run.0 == at);
                let next = at + told.size();
                if i + 1 < runs.len() {
                    let last = runs.len() - 1;
                    assert(rle::end_of::<TextOperation>(runs, i as int) <= runs[last].0);
                    assert(TextOperation::size(runs[last].1) > 0);
                }
                assert(next <= self.size());
                assert forall|k: int| 0 <= k < told.size() implies #[trigger] told.events()[k]
                    == h.ops[at + k] by {
                    reveal(op_at);
                    assert(rle::covers::<TextOperation>(runs, i as int, at + k));
                    rle::lemma_unique::<TextOperation>(runs, i as int, at + k);
                }
                assert(events_of(ops_view(out@)) =~= h.ops.take(next));
                at = next;
            }
            i += 1;
        }
        proof {
            assert(runs.take(i as int) =~= runs);
            assert(h.ops.take(at) =~= h.ops);
        }
        out
    }
}

/// How many of the numbers `from..to` come before `at`.
spec fn between(from: int, to: int, at: int) -> int {
    if at <= from {
        0
    } else if at < to {
        at - from
    } else {
        to - from
    }
}

/// The events from `seq` on of an agent.
pub open spec fn sent_span(agent: AgentId, seq: usize, len: nat) -> AgentSpan {
    AgentSpan { agent, seq_range: DTRange { start: seq, end: (seq + len) as usize } }
}

/// The events of the first operations come first.
pub proof fn lemma_events_prefix(ops: Seq<OpAbs>, k: int)
    requires
        0 <= k <= ops.len(),
    ensures
        events_of(ops.take(k)).len() <= events_of(ops).len(),
        forall|i: int|
            0 <= i < events_of(ops.take(k)).len() ==> #[trigger] events_of(ops.take(k))[i]
                == events_of(ops)[i],
    decreases ops.len() - k,
{
    if k == ops.len() {
        assert(ops.take(k) =~= ops);
    } else {
        lemma_events_prefix(ops, k + 1);
        assert(ops.take(k + 1).drop_last() =~= ops.take(k));
        assert forall|i: int| 0 <= i < events_of(ops.take(k)).len() implies #[trigger] events_of(
            ops.take(k),
        )[i] == events_of(ops)[i] by {
            assert(events_of(ops.take(k + 1))[i] == events_of(ops)[i]);
        }
    }
}

/// How many events the operations are.
fn total_len(ops: &[TextOperation]) -> (out: usize)
    requires
        forall|i: int| 0 <= i < ops@.len() ==> (#[trigger] ops@[i])@.valid(),
        events_of(ops_view(ops@)).len() <= usize::MAX,
    ensures
        out == events_of(ops_view(ops@)).len(),
{
    let ghost all = ops_view(ops@);
    let mut i: usize = 0;
    let mut out: usize = 0;
    proof {
        assert(all.take(0) =~= Seq::<OpAbs>::empty());
    }
    while i < ops.len()
        invariant
            all == ops_view(ops@),
            events_of(all).len() <= usize::MAX,
            i <= ops@.len(),
            out == events_of(all.take(i as int)).len(),
            forall|j: int| 0 <= j < ops@.len() ==> (#[trigger] ops@[j])@.valid(),
        decreases ops@.len() - i,
    {
        proof {
            assert(all[i as int] == ops@[i as int]@);
            assert(all.take(i + 1).drop_last() =~= all.take(i as int));
            assert(all.take(i + 1).last() == ops@[i as int]@);
            lemma_events_prefix(all, i + 1);
        }
        out += ops[i].len();
        i += 1;
    }
    assert(all.take(i as int) =~= all);
    out
}

} // verus!
