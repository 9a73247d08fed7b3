//! Writing events to bytes.
//!
//! The bytes depend on the events alone: on who wrote them, what they follow and what
//! they do, and on the order in which they are told. Events are named by their authors'
//! names and counts throughout, so that a peer can read them whatever else it knows.

use crate::agent_assignment::{AgentId, LV};
use crate::chunks;
use crate::chunks::{Chunk, ChunkRec, EventId, RecAbs};
use crate::events;
use crate::events::EventAbs;
use crate::frontier::Frontier;
use crate::graph;
use crate::graph::GraphRun;
use crate::names;
use crate::operation::{ListOpKind, OpAbs, TextOperation};
use crate::oplog;
use crate::oplog::ListOpLog;
use crate::range::DTRange;
use crate::rle;
use crate::rle::RleVal;
use crate::text::chars_of;
use crate::wire;
use crate::wire::Wire;
use vstd::prelude::*;

verus! {

/// What bytes are meant for.
#[derive(Debug, Clone, Copy, PartialEq, Eq, Structural)]
pub enum EncodeOptions {
    /// A whole document.
    Full,
    /// What is missing from a document.
    Patch,
}

pub const ENCODE_FULL: EncodeOptions = EncodeOptions::Full;

pub const ENCODE_PATCH: EncodeOptions = EncodeOptions::Patch;

/// What all bytes start with.
pub const MAGIC: usize = 0x74_6C_67;

/// What is written: what it starts with, what it is meant for, the names that come up, and
/// the chunks.
pub type Data = (((usize, usize), Vec<Vec<char>>), Vec<ChunkRec>);

/// What [`Data`] says.
pub type DataAbs = (((int, int), Seq<Seq<char>>), Seq<RecAbs>);

pub open spec fn purpose(opts: EncodeOptions) -> int {
    match opts {
        EncodeOptions::Full => 0,
        EncodeOptions::Patch => 1,
    }
}

/// Chunks as they are written.
pub open spec fn chunks_data(list: Seq<Chunk>, opts: EncodeOptions) -> DataAbs {
    let names = chunks::names_of(list);
    (
        ((MAGIC as int, purpose(opts)), names),
        list.map_values(|c: Chunk| chunks::rec_of(names, c)),
    )
}

/// Events as they are written.
pub open spec fn data_of(evs: Seq<EventAbs>, opts: EncodeOptions) -> DataAbs {
    chunks_data(chunks::chunks_of(evs), opts)
}

/// The bytes of events.
pub open spec fn encoded(evs: Seq<EventAbs>, opts: EncodeOptions) -> Seq<u8> {
    <Data as Wire>::bytes(data_of(evs, opts))
}

/// Whether what is written tells of events that can be.
pub open spec fn data_fits(d: DataAbs) -> bool {
    &&& d.0.0.0 == MAGIC
    &&& d.0.0.1 <= 1
    &&& forall|i: int|
        0 <= i < d.0.1.len() ==> crate::agent_assignment::name_fits(#[trigger] d.0.1[i])
    &&& forall|i: int| 0 <= i < d.1.len() ==> chunks::rec_fits(d.0.1, #[trigger] d.1[i])
}

/// The chunks that are written.
pub open spec fn data_chunks(d: DataAbs) -> Seq<Chunk> {
    d.1.map_values(|r: RecAbs| chunks::rec_chunk(d.0.1, r))
}

/// The events that are written.
pub open spec fn data_events(d: DataAbs) -> Seq<EventAbs> {
    chunks::chunks_events(data_chunks(d))
}

/// What is written of events tells of these events.
pub proof fn law_data(evs: Seq<EventAbs>, opts: EncodeOptions)
    requires
        chunks::events_fit(evs),
    ensures
        data_fits(data_of(evs, opts)),
        data_events(data_of(evs, opts)) == evs,
{
    let list = chunks::chunks_of(evs);
    let d = data_of(evs, opts);
    let names = chunks::names_of(list);
    chunks::law_chunks(evs);
    chunks::lemma_names(list);
    assert forall|i: int| 0 <= i < list.len() implies #[trigger] data_chunks(d)[i] == list[i] by {
        assert(chunks::names_chunk(names, list[i]));
        chunks::lemma_rec(names, list[i]);
        assert(d.1[i] == chunks::rec_of(names, list[i]));
    }
    assert(data_chunks(d) =~= list);
    assert forall|i: int| 0 <= i < d.1.len() implies chunks::rec_fits(names, #[trigger] d.1[i]) by {
        let c = list[i];
        assert(d.1[i] == chunks::rec_of(names, c));
        assert(chunks::chunk_fits(c));
        assert(chunks::names_chunk(names, c));
        assert(names.contains(c.name));
        assert forall|j: int| 0 <= j < c.parents.len() implies 0 <= (
        #[trigger] d.1[i].parents[j]).0 < names.len() && 0 <= d.1[i].parents[j].1
            < usize::MAX by {
            assert(names.contains(c.parents[j].0));
            assert(chunks::id_fits(c.parents[j]));
            assert(d.1[i].parents[j] == chunks::id_rec(names, c.parents[j]));
        }
    }
}

// ---- the events of a log ----

impl ListOpLog {
    /// Every event of a log can be written.
    pub proof fn lemma_event_fits(&self, v: int)
        requires
            self.inv(),
            0 <= v < self.size(),
        ensures
            chunks::event_fits(events::event_of(self.hist(), v)),
    {
        let h = self.hist();
        let e = events::event_of(h, v);
        let aa = self.cg.agent_assignment;
        self.lemma_hist();
        assert(aa.id_of(v).0 < aa.agents());
        assert(crate::agent_assignment::name_fits(aa.name_of(aa.id_of(v).0 as int)));
        assert forall|i: int| 0 <= i < e.parents.len() implies chunks::id_fits(
            #[trigger] e.parents[i],
        ) by {
            let p = h.parents[v][i] as int;
            assert(h.parents[v][i] < v);
            assert(aa.id_of(p).0 < aa.agents());
            assert(crate::agent_assignment::name_fits(aa.name_of(aa.id_of(p).0 as int)));
        }
        let entries = self.cg.graph.entries;
        let runs = entries.runs();
        rle::lemma_packed::<GraphRun>(runs, v);
        let i = rle::run_of::<GraphRun>(runs, v);
        assert(rle::covers::<GraphRun>(runs, i, v));
        let list = entries.0@[i].1.parents.0;
        assert(runs[i].1.parents == list@);
        assert(list.len() == list@.len());
        let ops = self.operations.runs();
        rle::lemma_packed::<TextOperation>(ops, v);
        let j = rle::run_of::<TextOperation>(ops, v);
        assert(rle::covers::<TextOperation>(ops, j, v));
        reveal(oplog::op_at);
        let op = ops[j].1;
        assert(OpAbs::valid(op));
        assert(h.ops[v] == op.event(v - ops[j].0));
    }
}

/// The events of a log, and of parts of it, can be written.
pub proof fn lemma_events_fit(log: ListOpLog, n: int, chosen: spec_fn(int) -> bool)
    requires
        log.inv(),
        0 <= n <= log.size(),
    ensures
        chunks::events_fit(events::events_chosen(log.hist(), n, chosen)),
        events::events_chosen(log.hist(), n, chosen).len() <= n,
    decreases n,
{
    if n > 0 {
        lemma_events_fit(log, n - 1, chosen);
        log.lemma_event_fits(n - 1);
        let before = events::events_chosen(log.hist(), n - 1, chosen);
        let out = events::events_chosen(log.hist(), n, chosen);
        assert forall|i: int| 0 <= i < out.len() implies chunks::event_fits(#[trigger] out[i]) by {
            if i < before.len() {
                assert(out[i] == before[i]);
            }
        }
    }
}

/// A chunk of events of a log, with the last of them.
struct RunRec {
    agent: AgentId,
    seq: usize,
    parents: Frontier,
    op: TextOperation,
    last: LV,
}

/// The chunk that a run of a log is.
spec fn run_chunk(log: ListOpLog, r: RunRec) -> Chunk {
    Chunk {
        name: log.cg.agent_assignment.name_of(r.agent as int),
        seq: r.seq as int,
        parents: events::ids_of(log.hist(), r.parents@),
        op: r.op@,
    }
}

spec fn run_chunks(log: ListOpLog, list: Seq<RunRec>) -> Seq<Chunk> {
    list.map_values(|r: RunRec| run_chunk(log, r))
}

spec fn run_ok(log: ListOpLog, r: RunRec) -> bool {
    &&& r.agent < log.cg.agent_assignment.agents()
    &&& r.last < log.size()
    &&& chunks::chunk_fits(run_chunk(log, r))
    &&& log.hist().ids[r.last as int] == (
        log.cg.agent_assignment.name_of(r.agent as int),
        r.seq + r.op@.size() - 1,
    )
    &&& graph::known(log.cg.parents(), r.parents@)
}

spec fn runs_ok(log: ListOpLog, list: Seq<RunRec>) -> bool {
    forall|i: int| 0 <= i < list.len() ==> run_ok(log, #[trigger] list[i])
}

impl ListOpLog {
    /// Event `v` as an operation.
    fn lone_op(&self, v: LV) -> (out: TextOperation)
        requires
            self.inv(),
            v < self.size(),
        ensures
            out@ == chunks::lone(self.hist().ops[v as int]),
            out@.valid(),
    {
        proof {
            let runs = self.operations.runs();
            rle::lemma_packed::<TextOperation>(runs, v as int);
            let i = rle::run_of::<TextOperation>(runs, v as int);
            assert(rle::covers::<TextOperation>(runs, i, v as int));
            rle::lemma_piece::<TextOperation>(runs, v as int, v + 1);
            let op = rle::piece::<TextOperation>(runs, v as int, v + 1);
            assert(TextOperation::item(op, v as int, 0) == rle::at::<TextOperation>(
                runs,
                v as int,
            ));
            reveal(oplog::op_at);
            assert(op.event(0) == self.hist().ops[v as int]);
            if op.kind == ListOpKind::Ins {
                assert(op.content->0 =~= chunks::one_char(op.content->0[0]));
            }
        }
        let mut op = self.operations.piece_at(v, v + 1);
        op.loc.fwd = true;
        assert(op@ =~= chunks::lone(self.hist().ops[v as int]));
        op
    }

    /// Adds an event to the chunks.
    #[verifier::rlimit(50)]
    fn push_event(&self, list: &mut Vec<RunRec>, v: LV)
        requires
            self.inv(),
            v < self.size(),
            runs_ok(*self, old(list)@),
        ensures
            runs_ok(*self, final(list)@),
            run_chunks(*self, final(list)@) == chunks::chunk_step(
                run_chunks(*self, old(list)@),
                events::event_of(self.hist(), v as int),
            ),
    {
        let ghost h = self.hist();
        let ghost aa = self.cg.agent_assignment;
        let ghost was = run_chunks(*self, list@);
        let ghost e = events::event_of(h, v as int);
        let op = self.lone_op(v);
        let (agent, seq) = self.cg.agent_assignment.local_to_agent_version(v);
        let parents = self.cg.graph.parents_at(v);
        proof {
            self.lemma_hist();
            self.lemma_event_fits(v as int);
            assert forall|i: int| 0 <= i < was.len() implies chunks::chunk_fits(
                #[trigger] was[i],
            ) by {
                assert(run_ok(*self, list@[i]));
            }
            chunks::lemma_chunk_step(was, e);
            assert(h.parents[v as int] == parents@);
            assert(graph::known(self.cg.parents(), parents@));
        }
        let n = list.len();
        if n > 0 {
            let last = &list[n - 1];
            proof {
                assert(run_ok(*self, list@[n - 1]));
                assert(was.last() == run_chunk(*self, *last));
            }
            let ghost c = was.last();
            let joined = last.agent == agent && seq == last.seq + last.op.len() && parents.is_1(
                last.last,
            ) && last.op.can_append(&op);
            proof {
                // The names are the same where the agents are, and the events where
                // their names and counts are.
                assert(aa.agent_ids@[aa.name_of(agent as int)] == agent);
                assert(aa.agent_ids@[aa.name_of(last.agent as int)] == last.agent);
                if e.parents == chunks::one_id((c.name, c.seq + c.op.size() - 1)) {
                    assert(parents@.len() == 1);
                    let p = parents@[0] as int;
                    assert(e.parents[0] == h.ids[p]);
                    assert(h.ids[p] == h.ids[last.last as int]);
                    events::lemma_place(h, p);
                    events::lemma_place(h, last.last as int);
                    assert(parents@ =~= seq![last.last]);
                }
                if parents@ == seq![last.last] {
                    assert(e.parents =~= chunks::one_id((c.name, c.seq + c.op.size() - 1)));
                }
                assert(joined == chunks::joins(c, e));
            }
            if joined {
                let mut run = list.pop().unwrap();
                run.op.append(op);
                run.last = v;
                let ghost d = run_chunk(*self, run);
                assert(d =~= chunks::chunk_step(was, e).last());
                assert(chunks::chunk_fits(chunks::chunk_step(was, e)[n - 1]));
                list.push(run);
                assert(run_chunks(*self, list@) =~= chunks::chunk_step(was, e));
                return ;
            }
        }
        let run = RunRec { agent, seq, parents, op, last: v };
        let ghost d = run_chunk(*self, run);
        assert(d =~= chunks::chunk_of(e));
        assert(chunks::chunk_fits(chunks::chunk_step(was, e)[n as int]));
        list.push(run);
        assert(run_chunks(*self, list@) =~= chunks::chunk_step(was, e));
    }

    /// The events of ranges as chunks.
    #[verifier::rlimit(50)]
    fn chunk_ranges(&self, ranges: &[DTRange]) -> (out: Vec<RunRec>)
        requires
            self.inv(),
            forall|i: int|
                0 <= i < ranges@.len() ==> (#[trigger] ranges@[i]).start <= ranges@[i].end
                    <= self.size(),
        ensures
            runs_ok(*self, out@),
            run_chunks(*self, out@) == chunks::chunks_of(
                events::events_in(self.hist(), ranges@),
            ),
    {
        let ghost h = self.hist();
        let mut out: Vec<RunRec> = Vec::new();
        let mut i: usize = 0;
        proof {
            self.lemma_hist();
            assert(ranges@.take(0) =~= Seq::<DTRange>::empty());
            assert(run_chunks(*self, out@) =~= chunks::chunks_of(
                events::events_in(h, ranges@.take(0)),
            ));
        }
        while i < ranges.len()
            invariant
                self.inv(),
                h == self.hist(),
                i <= ranges@.len(),
                forall|j: int|
                    0 <= j < ranges@.len() ==> (#[trigger] ranges@[j]).start <= ranges@[j].end
                        <= self.size(),
                runs_ok(*self, out@),
                run_chunks(*self, out@) == chunks::chunks_of(
                    events::events_in(h, ranges@.take(i as int)),
                ),
            decreases ranges@.len() - i,
        {
            let r = ranges[i];
            let ghost done = events::events_in(h, ranges@.take(i as int));
            let mut v: usize = r.start;
            proof {
                assert(ranges@[i as int] == r);
                assert(ranges@.take(i + 1).drop_last() =~= ranges@.take(i as int));
                assert(ranges@.take(i + 1).last() == r);
                assert(done + events::events_between(h, r.start as int, v as int) =~= done);
            }
            while v < r.end
                invariant
                    self.inv(),
                    h == self.hist(),
                    r.start <= v <= r.end <= self.size(),
                    runs_ok(*self, out@),
                    run_chunks(*self, out@) == chunks::chunks_of(
                        done + events::events_between(h, r.start as int, v as int),
                    ),
                decreases r.end - v,
            {
                proof {
                    let a = done + events::events_between(h, r.start as int, v as int);
                    let b = done + events::events_between(h, r.start as int, v + 1);
                    assert(b.drop_last() =~= a);
                    assert(b.last() == events::event_of(h, v as int));
                }
                self.push_event(&mut out, v);
                v += 1;
            }
            i += 1;
        }
        assert(ranges@.take(i as int) =~= ranges@);
        out
    }
}

// ---- names ----

/// The names of agents.
spec fn agent_names(log: ListOpLog, list: Seq<AgentId>) -> Seq<Seq<char>> {
    list.map_values(|a: AgentId| log.cg.agent_assignment.name_of(a as int))
}

spec fn agents_ok(log: ListOpLog, list: Seq<AgentId>) -> bool {
    forall|i: int|
        0 <= i < list.len() ==> (#[trigger] list[i]) < log.cg.agent_assignment.agents()
}

impl ListOpLog {
    /// Where an agent stands in a list, by its name.
    fn agent_place(&self, list: &Vec<AgentId>, agent: AgentId) -> (out: Option<usize>)
        requires
            self.inv(),
            agents_ok(*self, list@),
            agent < self.cg.agent_assignment.agents(),
        ensures
            ({
                let names = agent_names(*self, list@);
                let name = self.cg.agent_assignment.name_of(agent as int);
                match out {
                    Some(i) => i < names.len() && names[i as int] == name,
                    None => !names.contains(name),
                }
            }),
    {
        let ghost aa = self.cg.agent_assignment;
        let ghost names = agent_names(*self, list@);
        let mut i: usize = 0;
        while i < list.len()
            invariant
                self.inv(),
                aa == self.cg.agent_assignment,
                names == agent_names(*self, list@),
                agents_ok(*self, list@),
                agent < aa.agents(),
                i <= list@.len(),
                forall|j: int| 0 <= j < i ==> names[j] != aa.name_of(agent as int),
            decreases list@.len() - i,
        {
            proof {
                let x = list@[i as int];
                assert(x < aa.agents());
                assert(aa.agent_ids@[aa.name_of(x as int)] == x);
                assert(aa.agent_ids@[aa.name_of(agent as int)] == agent);
            }
            if list[i] == agent {
                return Some(i);
            }
            i += 1;
        }
        None
    }

    /// Adds an agent to a list, unless it is there.
    fn note_agent(&self, list: &mut Vec<AgentId>, agent: AgentId)
        requires
            self.inv(),
            agents_ok(*self, old(list)@),
            agent < self.cg.agent_assignment.agents(),
            agent_names(*self, old(list)@).no_duplicates(),
        ensures
            agents_ok(*self, final(list)@),
            agent_names(*self, final(list)@).no_duplicates(),
            agent_names(*self, final(list)@) == names::with_name(
                agent_names(*self, old(list)@),
                self.cg.agent_assignment.name_of(agent as int),
            ),
    {
        let ghost names = agent_names(*self, list@);
        match self.agent_place(list, agent) {
            Some(i) => {
                assert(names.contains(names[i as int]));
            },
            None => {
                list.push(agent);
                proof {
                    let out = agent_names(*self, list@);
                    assert(out =~= names.push(self.cg.agent_assignment.name_of(agent as int)));
                    assert forall|i: int, j: int|
                        0 <= i < out.len() && 0 <= j < out.len() && i != j implies out[i]
                        != out[j] by {
                        if i < names.len() && j < names.len() {
                            assert(names[i] != names[j]);
                        } else if i < names.len() {
                            assert(names.contains(names[i]));
                        } else {
                            assert(names.contains(names[j]));
                        }
                    }
                }
            },
        }
    }

    /// The agents that come up in chunks, each once, in the order in which they come up.
    #[verifier::rlimit(50)]
    fn note_agents(&self, runs: &Vec<RunRec>) -> (out: Vec<AgentId>)
        requires
            self.inv(),
            runs_ok(*self, runs@),
        ensures
            agents_ok(*self, out@),
            agent_names(*self, out@).no_duplicates(),
            agent_names(*self, out@) == chunks::names_of(run_chunks(*self, runs@)),
    {
        let ghost all = run_chunks(*self, runs@);
        let mut out: Vec<AgentId> = Vec::new();
        let mut i: usize = 0;
        proof {
            assert(all.take(0) =~= Seq::<Chunk>::empty());
            assert(agent_names(*self, out@) =~= chunks::names_of(all.take(0)));
        }
        while i < runs.len()
            invariant
                self.inv(),
                all == run_chunks(*self, runs@),
                runs_ok(*self, runs@),
                i <= runs@.len(),
                agents_ok(*self, out@),
                agent_names(*self, out@).no_duplicates(),
                agent_names(*self, out@) == chunks::names_of(all.take(i as int)),
            decreases runs@.len() - i,
        {
            let r = &runs[i];
            let ghost c = all[i as int];
            proof {
                assert(run_ok(*self, *r));
                assert(c == run_chunk(*self, *r));
                assert(all.take(i + 1).drop_last() =~= all.take(i as int));
                assert(all.take(i + 1).last() == c);
            }
            self.note_agent(&mut out, r.agent);
            let ghost start = agent_names(*self, out@);
            let mut j: usize = 0;
            assert(c.parents.take(0) =~= Seq::<EventId>::empty());
            while j < r.parents.0.len()
                invariant
                    self.inv(),
                    run_ok(*self, *r),
                    c == run_chunk(*self, *r),
                    j <= c.parents.len(),
                    agents_ok(*self, out@),
                    agent_names(*self, out@).no_duplicates(),
                    agent_names(*self, out@) == chunks::with_ids(start, c.parents.take(j as int)),
                decreases c.parents.len() - j,
            {
                let p = r.parents.0[j];
                proof {
                    assert(r.parents@[j as int] == p);
                    assert(p < self.size());
                    assert(c.parents[j as int] == self.hist().ids[p as int]);
                    assert(c.parents.take(j + 1).drop_last() =~= c.parents.take(j as int));
                    assert(c.parents.take(j + 1).last() == c.parents[j as int]);
                }
                let (agent, _seq) = self.cg.agent_assignment.local_to_agent_version(p);
                self.note_agent(&mut out, agent);
                j += 1;
            }
            assert(c.parents.take(j as int) =~= c.parents);
            i += 1;
        }
        assert(all.take(i as int) =~= all);
        out
    }

    /// A chunk as it is written.
    #[verifier::rlimit(40)]
    fn record(&self, agents: &Vec<AgentId>, r: &RunRec) -> (out: ChunkRec)
        requires
            self.inv(),
            agents_ok(*self, agents@),
            agent_names(*self, agents@).no_duplicates(),
            run_ok(*self, *r),
            chunks::names_chunk(agent_names(*self, agents@), run_chunk(*self, *r)),
        ensures
            out.told() == chunks::rec_of(agent_names(*self, agents@), run_chunk(*self, *r)),
    {
        let ghost names = agent_names(*self, agents@);
        let ghost c = run_chunk(*self, *r);
        let agent = self.agent_place(agents, r.agent).unwrap();
        let mut parents: Vec<(usize, usize)> = Vec::new();
        let mut j: usize = 0;
        proof {
            assert(names.contains(c.name));
            assert(names[names.index_of(c.name)] == c.name);
            assert(names.index_of(c.name) == agent);
        }
        while j < r.parents.0.len()
            invariant
                self.inv(),
                agents_ok(*self, agents@),
                names == agent_names(*self, agents@),
                names.no_duplicates(),
                run_ok(*self, *r),
                c == run_chunk(*self, *r),
                chunks::names_chunk(names, c),
                j <= c.parents.len(),
                parents@.len() == j,
                forall|k: int|
                    0 <= k < j ==> (#[trigger] parents@[k]).told() == chunks::id_rec(
                        names,
                        c.parents[k],
                    ),
            decreases c.parents.len() - j,
        {
            let p = r.parents.0[j];
            let ghost id = c.parents[j as int];
            proof {
                assert(r.parents@[j as int] == p);
                assert(p < self.size());
                assert(id == self.hist().ids[p as int]);
                assert(names.contains(id.0));
            }
            let (a, seq) = self.cg.agent_assignment.local_to_agent_version(p);
            let at = self.agent_place(agents, a).unwrap();
            proof {
                assert(names[names.index_of(id.0)] == id.0);
                assert(names.index_of(id.0) == at);
            }
            parents.push((at, seq));
            j += 1;
        }
        let out = ChunkRec { agent, seq: r.seq, parents, op: r.op.clone() };
        assert(out.told().parents =~= chunks::rec_of(names, c).parents);
        assert(out.told() =~= chunks::rec_of(names, c));
        out
    }

    /// The names of agents, as lists of characters.
    fn spell_out(&self, agents: &Vec<AgentId>) -> (out: Vec<Vec<char>>)
        requires
            self.inv(),
            agents_ok(*self, agents@),
        ensures
            out.told() == agent_names(*self, agents@),
    {
        let ghost names = agent_names(*self, agents@);
        let mut out: Vec<Vec<char>> = Vec::new();
        let mut i: usize = 0;
        while i < agents.len()
            invariant
                self.inv(),
                agents_ok(*self, agents@),
                names == agent_names(*self, agents@),
                i <= agents@.len(),
                out@.len() == i,
                forall|k: int| 0 <= k < i ==> (#[trigger] out@[k])@ == names[k],
            decreases agents@.len() - i,
        {
            assert(agents@[i as int] < self.cg.agent_assignment.agents());
            out.push(chars_of(self.cg.agent_assignment.get_agent_name(agents[i])));
            i += 1;
        }
        proof {
            assert forall|k: int| 0 <= k < names.len() implies #[trigger] out.told()[k]
                == names[k] by {
                assert(out@[k].told() =~= out@[k]@);
            }
            assert(out.told() =~= names);
        }
        out
    }

    /// The events of ranges as bytes.
    #[verifier::rlimit(50)]
    pub fn encode_ranges(&self, opts: &EncodeOptions, ranges: &[DTRange]) -> (out: Vec<u8>)
        requires
            self.inv(),
            forall|i: int|
                0 <= i < ranges@.len() ==> (#[trigger] ranges@[i]).start <= ranges@[i].end
                    <= self.size(),
        ensures
            out@ == encoded(events::events_in(self.hist(), ranges@), *opts),
            <Data as Wire>::fine(data_of(events::events_in(self.hist(), ranges@), *opts)),
    {
        let ghost evs = events::events_in(self.hist(), ranges@);
        let runs = self.chunk_ranges(ranges);
        let ghost list = run_chunks(*self, runs@);
        let agents = self.note_agents(&runs);
        let ghost names = agent_names(*self, agents@);
        let spelled = self.spell_out(&agents);
        let mut recs: Vec<ChunkRec> = Vec::new();
        let mut i: usize = 0;
        proof {
            assert forall|k: int| 0 <= k < list.len() implies chunks::chunk_fits(
                #[trigger] list[k],
            ) by {
                assert(run_ok(*self, runs@[k]));
            }
            chunks::lemma_names(list);
        }
        while i < runs.len()
            invariant
                self.inv(),
                agents_ok(*self, agents@),
                names == agent_names(*self, agents@),
                names == chunks::names_of(list),
                names.no_duplicates(),
                list == run_chunks(*self, runs@),
                runs_ok(*self, runs@),
                forall|k: int|
                    0 <= k < list.len() ==> chunks::names_chunk(names, #[trigger] list[k]),
                i <= runs@.len(),
                recs@.len() == i,
                forall|k: int|
                    0 <= k < i ==> (#[trigger] recs@[k]).told() == chunks::rec_of(names, list[k]),
            decreases runs@.len() - i,
        {
            proof {
                assert(run_ok(*self, runs@[i as int]));
                assert(list[i as int] == run_chunk(*self, runs@[i as int]));
                assert(chunks::names_chunk(names, list[i as int]));
            }
            let rec = self.record(&agents, &runs[i]);
            recs.push(rec);
            i += 1;
        }
        let kind: usize = match opts {
            EncodeOptions::Full => 0,
            EncodeOptions::Patch => 1,
        };
        let data: Data = (((MAGIC, kind), spelled), recs);
        proof {
            let d = data_of(evs, *opts);
            assert(data.1.told() =~= d.1);
            assert(data.told() == d);
            assert(data.1.len() == recs@.len());
            assert(spelled.len() == spelled@.len());
            lemma_data_fine(list, *opts, data);
        }
        let mut out: Vec<u8> = Vec::new();
        data.put(&mut out);
        assert(out@ =~= encoded(evs, *opts));
        out
    }
}

/// What is to be written of chunks can be.
proof fn lemma_data_fine(list: Seq<Chunk>, opts: EncodeOptions, data: Data)
    requires
        chunks::chunks_fit(list),
        data.told() == chunks_data(list, opts),
    ensures
        <Data as Wire>::fine(chunks_data(list, opts)),
{
    let d = chunks_data(list, opts);
    let names = chunks::names_of(list);
    chunks::lemma_names(list);
    assert(data.1.len() == data.1@.len());
    assert(data.0.1.len() == data.0.1@.len());
    assert(data.1.told() == d.1);
    assert(data.0.1.told() == names);
    assert(wire::fine_list::<ChunkRec>(d.1)) by {
        assert forall|i: int| 0 <= i < d.1.len() implies ChunkRec::fine(#[trigger] d.1[i]) by {
            let r = d.1[i];
            let c = list[i];
            assert(chunks::chunk_fits(c));
            assert(r == chunks::rec_of(names, c));
            assert(chunks::names_chunk(names, c));
            assert(names.contains(c.name));
            assert(wire::fine_list::<(usize, usize)>(r.parents)) by {
                assert forall|j: int| 0 <= j < r.parents.len() implies <(
                    usize,
                    usize,
                ) as Wire>::fine(#[trigger] r.parents[j]) by {
                    assert(names.contains(c.parents[j].0));
                    assert(chunks::id_fits(c.parents[j]));
                    assert(r.parents[j] == chunks::id_rec(names, c.parents[j]));
                }
            }
        }
    }
    assert(wire::fine_list::<Vec<char>>(names)) by {
        assert forall|i: int| 0 <= i < names.len() implies Vec::<char>::fine(
            #[trigger] names[i],
        ) by {
            let v = data.0.1@[i];
            assert(data.0.1.told()[i] == v.told());
            assert(v.len() == v@.len());
        }
    }
}

impl ListOpLog {
    /// All events as bytes.
    pub fn encode(&self, opts: &EncodeOptions) -> (out: Vec<u8>)
        requires
            self.inv(),
        ensures
            out@ == encoded(
                events::events_between(self.hist(), 0, self.size()),
                *opts,
            ),
    {
        let mut ranges: Vec<DTRange> = Vec::new();
        ranges.push(DTRange { start: 0, end: self.len() });
        proof {
            self.lemma_hist();
            let h = self.hist();
            assert(ranges@.drop_last() =~= Seq::<DTRange>::empty());
            assert(events::events_in(h, ranges@.drop_last()) =~= Seq::<EventAbs>::empty());
            assert(events::events_in(h, ranges@) =~= events::events_between(h, 0, self.size()));
        }
        self.encode_ranges(opts, ranges.as_slice())
    }

    /// What `version` had seen, as bytes: what [`ListOpLog::encode`] would have given when
    /// `version` was all there was. The complement of [`ListOpLog::encode_from`].
    pub fn encode_at(&self, version: &[LV], opts: &EncodeOptions) -> (out: Vec<u8>)
        requires
            self.inv(),
            graph::known(self.cg.parents(), version@),
        ensures
            out@ == encoded(
                events::events_chosen(
                    self.hist(),
                    self.size(),
                    |v: int| graph::in_cone(self.cg.parents(), version@, v),
                ),
                *opts,
            ),
    {
        let root: Vec<LV> = Vec::new();
        let (_, cone) = self.cg.graph.diff(root.as_slice(), version);
        proof {
            self.lemma_hist();
            let g = self.cg.parents();
            let chosen = |v: int| graph::in_cone(g, version@, v);
            let told = |v: int| graph::in_cone(g, version@, v) && !graph::in_cone(g, root@, v);
            assert forall|v: int| 0 <= v < self.size() implies #[trigger] told(v) == chosen(v) by {
                assert(!graph::in_cone(g, root@, v));
            }
            graph::lemma_ranges_below(self.size(), told, chosen);
            events::lemma_events_in(self.hist(), self.size(), chosen);
        }
        self.encode_ranges(opts, cone.as_slice())
    }

    /// What `version` had not seen, as bytes.
    pub fn encode_from(&self, opts: &EncodeOptions, version: &[LV]) -> (out: Vec<u8>)
        requires
            self.inv(),
            graph::known(self.cg.parents(), version@),
        ensures
            out@ == encoded(
                events::events_chosen(
                    self.hist(),
                    self.size(),
                    |v: int| !graph::in_cone(self.cg.parents(), version@, v),
                ),
                *opts,
            ),
    {
        let rest = self.cg.diff_since(version);
        proof {
            self.lemma_hist();
            events::lemma_events_in(
                self.hist(),
                self.size(),
                |v: int| !graph::in_cone(self.cg.parents(), version@, v),
            );
        }
        self.encode_ranges(opts, rest.as_slice())
    }
}

} // verus!
