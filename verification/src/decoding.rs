//! Reading events from bytes.

use crate::agent_assignment::{can_name, AgentId, AgentSpan, LV};
use crate::chunks;
use crate::chunks::{Chunk, ChunkRec};
use crate::encoding;
use crate::encoding::{Data, DataAbs, MAGIC};
use crate::events;
use crate::events::EventAbs;
use crate::frontier::Frontier;
use crate::graph;
use crate::graph::{GraphAbs, GraphRun};
use crate::history::Hist;
use crate::names;
use crate::operation;
use crate::operation::{OpAbs, TextOperation};
use crate::oplog;
use crate::oplog::ListOpLog;
use crate::range::DTRange;
use crate::remote_ops;
use crate::rle;
use crate::rle::{RleVal, Runs};
use crate::sorting;
use crate::sorting::sorted_numbers;
use crate::text::text_of_chars;
use crate::wire;
use crate::wire::Wire;
use vstd::prelude::*;

verus! {

/// Why bytes cannot be taken up.
#[derive(Debug, Clone, Copy, PartialEq, Eq, Structural)]
pub enum ParseError {
    /// They are not the bytes of any events.
    Malformed,
    /// They tell of an event that follows one that is not known.
    BaseVersionUnknown,
    /// There would be more events or more agents than can be counted.
    TooLarge,
}

/// Whether bytes are those of what is written.
pub open spec fn is_file(bytes: Seq<u8>, d: DataAbs) -> bool {
    &&& <Data as Wire>::fine(d)
    &&& encoding::data_fits(d)
    &&& bytes == <Data as Wire>::bytes(d)
}

/// Bytes are those of one thing at most.
pub proof fn law_one_file(bytes: Seq<u8>, a: DataAbs, b: DataAbs)
    requires
        is_file(bytes, a),
        is_file(bytes, b),
    ensures
        a == b,
{
    assert(bytes.take(bytes.len() as int) =~= bytes);
    <Data as Wire>::lemma_one(a, b, bytes);
}

/// What bytes are those of.
pub open spec fn file_of(bytes: Seq<u8>) -> Option<DataAbs> {
    if exists|d: DataAbs| is_file(bytes, d) {
        Some(choose|d: DataAbs| is_file(bytes, d))
    } else {
        None
    }
}

/// The events that bytes tell of.
pub open spec fn events_told(bytes: Seq<u8>) -> Seq<EventAbs> {
    match file_of(bytes) {
        Some(d) => encoding::data_events(d),
        None => Seq::empty(),
    }
}

/// What written events are is found again in the bytes.
pub proof fn law_file(bytes: Seq<u8>, d: DataAbs)
    requires
        is_file(bytes, d),
    ensures
        file_of(bytes) == Some(d),
        events_told(bytes) == encoding::data_events(d),
{
    law_one_file(bytes, d, choose|x: DataAbs| is_file(bytes, x));
}

/// Whether taking up events one after the other comes to more than can be counted.
pub open spec fn overflows(h: Hist, evs: Seq<EventAbs>) -> bool {
    exists|k: int|
        0 <= k <= evs.len() && events::receivable(h, #[trigger] evs.take(k))
            && events::received_all(h, evs.take(k)).len() > usize::MAX
}

/// Whether there would be more events or more agents than can be counted.
pub open spec fn too_large(h: Hist, agents: Seq<Seq<char>>, d: DataAbs) -> bool {
    ||| overflows(h, encoding::data_events(d))
    ||| names::with_names(agents, d.0.1).len() > AgentId::MAX
}

/// Events can be counted if all of them can be added up.
pub proof fn lemma_counted(h: Hist, evs: Seq<EventAbs>)
    requires
        h.len() + evs.len() <= usize::MAX,
    ensures
        !overflows(h, evs),
{
    assert forall|k: int| 0 <= k <= evs.len() implies events::received_all(
        h,
        #[trigger] evs.take(k),
    ).len() <= usize::MAX by {
        events::lemma_received_len(h, evs.take(k));
    }
}

/// What taking up the events that bytes tell of makes of a history with agents of the given
/// names, or why they cannot be taken up.
pub open spec fn decoded(h: Hist, agents: Seq<Seq<char>>, bytes: Seq<u8>) -> Result<
    Hist,
    ParseError,
> {
    match file_of(bytes) {
        None => Err(ParseError::Malformed),
        Some(d) => if too_large(h, agents, d) {
            Err(ParseError::TooLarge)
        } else if !events::receivable(h, encoding::data_events(d)) {
            Err(ParseError::BaseVersionUnknown)
        } else {
            Ok(events::received_all(h, encoding::data_events(d)))
        },
    }
}

/// Whether a list holds the newest ones of the events that bytes tell of.
pub open spec fn newest_told(log: ListOpLog, bytes: Seq<u8>, front: Seq<usize>) -> bool {
    exists|lvs: Seq<usize>|
        #![trigger lvs_of(log.hist(), events_told(bytes), lvs)]
        lvs_of(log.hist(), events_told(bytes), lvs) && graph::is_dominators(
            log.cg.parents(),
            lvs,
            front,
        )
}

fn names_fit(names: &Vec<Vec<char>>) -> (out: bool)
    ensures
        out == forall|i: int|
            0 <= i < names.told().len() ==> crate::agent_assignment::name_fits(
                #[trigger] names.told()[i],
            ),
{
    let ghost told = names.told();
    let mut i: usize = 0;
    while i < names.len()
        invariant
            told == names.told(),
            i <= names@.len(),
            forall|j: int|
                0 <= j < i ==> crate::agent_assignment::name_fits(#[trigger] told[j]),
        decreases names@.len() - i,
    {
        let text = text_of_chars(names[i].as_slice());
        proof {
            assert(names@[i as int].told() =~= names@[i as int]@);
            assert(told[i as int] == text@);
        }
        if !can_name(text.as_str()) {
            return false;
        }
        i += 1;
    }
    true
}

fn rec_fits(names: usize, r: &ChunkRec, Ghost(list): Ghost<Seq<Seq<char>>>) -> (out: bool)
    requires
        names == list.len(),
        ChunkRec::fine(r.told()),
    ensures
        out == chunks::rec_fits(list, r.told()),
{
    let ghost told = r.told();
    assert(r.parents.len() == told.parents.len());
    if r.agent >= names || r.op.len() > usize::MAX - r.seq {
        return false;
    }
    let mut i: usize = 0;
    while i < r.parents.len()
        invariant
            told == r.told(),
            names == list.len(),
            i <= r.parents@.len(),
            forall|j: int|
                0 <= j < i ==> 0 <= (#[trigger] told.parents[j]).0 < names && 0
                    <= told.parents[j].1 < usize::MAX,
        decreases r.parents@.len() - i,
    {
        let (a, seq) = r.parents[i];
        assert(told.parents[i as int] == r.parents@[i as int].told());
        if a >= names || seq == usize::MAX {
            return false;
        }
        i += 1;
    }
    true
}

/// Reads what is written.
#[verifier::rlimit(50)]
fn read(bytes: &[u8]) -> (out: Option<Data>)
    ensures
        match out {
            Some(d) => is_file(bytes@, d.told()),
            None => forall|d: DataAbs| !is_file(bytes@, d),
        },
{
    assert(bytes@.skip(0) =~= bytes@);
    match <Data as Wire>::get(bytes, 0) {
        None => {
            assert forall|d: DataAbs| !is_file(bytes@, d) by {
                if is_file(bytes@, d) {
                    assert(bytes@.take(bytes@.len() as int) =~= bytes@);
                    assert(!wire::begins(bytes@.skip(0), <Data as Wire>::bytes(d)));
                }
            }
            None
        },
        Some((data, end)) => {
            let ghost told = data.told();
            proof {
                wire::lemma_read(bytes@, 0, end as int);
                assert forall|d: DataAbs| is_file(bytes@, d) implies d == told && end
                    == bytes@.len() by {
                    assert(bytes@.take(bytes@.len() as int) =~= bytes@);
                    <Data as Wire>::lemma_one(d, told, bytes@);
                    assert(bytes@.subrange(0, end as int).len() == end);
                }
            }
            if end != bytes.len() || data.0.0.0 != MAGIC || data.0.0.1 > 1 || !names_fit(
                &data.0.1,
            ) {
                return None;
            }
            let ghost names = told.0.1;
            let count = data.0.1.len();
            let mut i: usize = 0;
            while i < data.1.len()
                invariant
                    told == data.told(),
                    <Data as Wire>::fine(told),
                    names == told.0.1,
                    count == names.len(),
                    i <= data.1@.len(),
                    forall|d: DataAbs| #[trigger] is_file(bytes@, d) ==> d == told,
                    forall|j: int|
                        0 <= j < i ==> chunks::rec_fits(names, #[trigger] told.1[j]),
                decreases data.1@.len() - i,
            {
                proof {
                    assert(told.1[i as int] == data.1@[i as int].told());
                    assert(ChunkRec::fine(told.1[i as int]));
                }
                if !rec_fits(count, &data.1[i], Ghost(names)) {
                    assert(!chunks::rec_fits(names, told.1[i as int]));
                    return None;
                }
                i += 1;
            }
            assert(bytes@.subrange(0, end as int) =~= bytes@);
            Some(data)
        },
    }
}

// ---- taking events up ----

/// Whether agents have the given names.
spec fn agents_named(log: ListOpLog, agents: Seq<AgentId>, names: Seq<Seq<char>>) -> bool {
    &&& agents.len() == names.len()
    &&& forall|i: int|
        0 <= i < agents.len() ==> {
            &&& (#[trigger] agents[i]) < log.cg.agent_assignment.agents()
            &&& log.cg.agent_assignment.name_of(agents[i] as int) == names[i]
        }
}

// ---- how events are kept ----

/// Whether the events of a log from `from` on are stored one by one behind runs of
/// operations, of parents and of authors.
pub open spec fn stored_behind(
    ops: Runs<OpAbs>,
    parents: Runs<GraphAbs>,
    ids: Runs<AgentSpan>,
    from: int,
    now: ListOpLog,
) -> bool {
    let h = now.hist();
    let count = (h.len() - from) as nat;
    &&& from <= h.len()
    &&& now.operations.runs() == rle::pushed_singly::<TextOperation>(
        ops,
        from,
        Seq::new(count, |k: int| operation::event_abs(h.ops[from + k])),
    )
    &&& now.cg.graph.entries.runs() == rle::pushed_singly::<GraphRun>(
        parents,
        from,
        Seq::new(count, |k: int| GraphAbs { len: 1, parents: h.parents[from + k] }),
    )
    &&& now.cg.agent_assignment.client_with_lv.runs() == rle::pushed_singly::<AgentSpan>(
        ids,
        from,
        Seq::new(count, |k: int| one_id(now.cg.agent_assignment.id_of(from + k))),
    )
}

/// The run that stands for one event of an agent.
pub open spec fn one_id(id: (AgentId, int)) -> AgentSpan {
    AgentSpan {
        agent: id.0,
        seq_range: DTRange { start: id.1 as usize, end: (id.1 + 1) as usize },
    }
}

/// Whether `now` is the log `was` with more events stored behind the others, one by one.
pub open spec fn stored_singly(was: ListOpLog, now: ListOpLog) -> bool {
    stored_behind(
        was.operations.runs(),
        was.cg.graph.entries.runs(),
        was.cg.agent_assignment.client_with_lv.runs(),
        was.size(),
        now,
    )
}

/// The names of the agents that bytes tell of.
pub open spec fn names_told(bytes: Seq<u8>) -> Seq<Seq<char>> {
    match file_of(bytes) {
        Some(d) => (d.0).1,
        None => Seq::empty(),
    }
}

/// Whether `now` is the log `was` with what bytes tell of behind the rest: events stored
/// one by one, and agents in the order in which the bytes name them.
pub open spec fn taken(was: ListOpLog, now: ListOpLog, bytes: Seq<u8>) -> bool {
    &&& stored_singly(was, now)
    &&& now.names() == names::with_names(was.names(), names_told(bytes))
}

/// Whether the events of a log are stored one by one, and nothing else is.
pub open spec fn stored_alone(now: ListOpLog) -> bool {
    stored_behind(Seq::empty(), Seq::empty(), Seq::empty(), 0, now)
}

/// The names of the agents that bytes tell of, each one once.
pub open spec fn agents_told(bytes: Seq<u8>) -> Seq<Seq<char>> {
    names::with_names(Seq::empty(), names_told(bytes))
}

/// Without events nothing is stored.
pub proof fn lemma_nothing_stored(log: ListOpLog)
    requires
        log.inv(),
        log.size() == 0,
    ensures
        log.operations.runs() == Seq::<(int, OpAbs)>::empty(),
        log.cg.graph.entries.runs() == Seq::<(int, GraphAbs)>::empty(),
        log.cg.agent_assignment.client_with_lv.runs() == Seq::<(int, AgentSpan)>::empty(),
{
    let ops = log.operations.runs();
    if ops.len() > 0 {
        assert(OpAbs::valid(ops[ops.len() - 1].1));
    }
    let graphs = log.cg.graph.entries.runs();
    if graphs.len() > 0 {
        assert(GraphRun::valid(graphs[graphs.len() - 1].1));
    }
    let ids = log.cg.agent_assignment.client_with_lv.runs();
    if ids.len() > 0 {
        assert(AgentSpan::valid(ids[ids.len() - 1].1));
    }
}

/// An event that is stored behind those that were stored one by one.
proof fn lemma_stored_next(
    first: ListOpLog,
    was: ListOpLog,
    now: ListOpLog,
    agent: AgentId,
    e: EventAbs,
)
    requires
        was.inv(),
        now.inv(),
        stored_singly(first, was),
        now.size() == was.size() + 1,
        now.hist().len() == was.hist().len() + 1,
        was.hist().len() == was.size(),
        now.hist().ops == was.hist().ops.push(e.op),
        forall|v: int| 0 <= v < was.size() ==> now.hist().parents[v] == was.hist().parents[v],
        was.cg.grown(
            now.cg,
            now.hist().parents[was.size()],
            agent,
            e.id.1,
            DTRange { start: was.size() as usize, end: now.size() as usize },
        ),
        now.operations.runs() == rle::pushed::<TextOperation>(
            was.operations.runs(),
            was.size(),
            operation::event_abs(e.op),
        ),
        0 <= was.size() < usize::MAX,
        0 <= first.size(),
    ensures
        stored_singly(first, now),
{
    let from = first.size();
    let g = was.hist();
    let h = now.hist();
    let n = (g.len() - from) as nat;
    let aa = was.cg.agent_assignment;
    let bb = now.cg.agent_assignment;
    let ops = Seq::new(n + 1, |k: int| operation::event_abs(h.ops[from + k]));
    let graphs = Seq::new(n + 1, |k: int| GraphAbs { len: 1, parents: h.parents[from + k] });
    let ids = Seq::new(n + 1, |k: int| one_id(bb.id_of(from + k)));
    assert(ops.drop_last() =~= Seq::new(n, |k: int| operation::event_abs(g.ops[from + k])));
    assert(graphs.drop_last() =~= Seq::new(
        n,
        |k: int| GraphAbs { len: 1, parents: g.parents[from + k] },
    ));
    assert(ids.drop_last() =~= Seq::new(n, |k: int| one_id(aa.id_of(from + k))));
    let span = DTRange { start: was.size() as usize, end: now.size() as usize };
    assert(span.has(was.size()));
    assert(bb.id_of(was.size()) == (agent, e.id.1));
}

impl ListOpLog {
    /// One more event, told by its parts.
    proof fn lemma_one_received(
        &self,
        parents: Seq<usize>,
        e: EventAbs,
    )
        requires
            self.inv(),
            !events::has_id(self.hist(), e.id),
            parents == events::places(self.hist(), e.parents),
            self.size() < usize::MAX,
        ensures
            oplog::extended(self.hist(), parents, e.id.0, e.id.1, seq![e.op]) == events::received(
                self.hist(),
                e,
            ),
    {
        let h = self.hist();
        self.lemma_hist();
        let a = oplog::extended(h, parents, e.id.0, e.id.1, seq![e.op]);
        let b = events::received(h, e);
        assert(a.parents =~= b.parents);
        assert(a.ops =~= b.ops);
        assert(a.ids =~= b.ids);
    }

    /// Takes up an event that is not known and follows known ones.
    fn receive_new(
        &mut self,
        agent: AgentId,
        seq: usize,
        parents: &[LV],
        op: TextOperation,
        Ghost(e): Ghost<EventAbs>,
    )
        requires
            old(self).inv(),
            old(self).size() < usize::MAX,
            seq < usize::MAX,
            agent < old(self).cg.agent_assignment.agents(),
            e.id == (old(self).cg.agent_assignment.name_of(agent as int), seq as int),
            !events::has_id(old(self).hist(), e.id),
            parents@ == events::places(old(self).hist(), e.parents),
            graph::known(old(self).cg.parents(), parents@),
            op@.valid(),
            op@ == operation::event_abs(e.op),
            op@.events() == seq![e.op],
        ensures
            final(self).inv(),
            final(self).same_agents(*old(self)),
            final(self).hist() == events::received(old(self).hist(), e),
            forall|first: ListOpLog| #[trigger]
                stored_singly(first, *old(self)) ==> stored_singly(first, *final(self)),
    {
        let ghost was = *self;
        let mut ops: Vec<TextOperation> = Vec::new();
        let ghost told = op@;
        ops.push(op);
        proof {
            let aa = self.cg.agent_assignment;
            assert(oplog::ops_view(ops@) =~= seq![told]);
            oplog::lemma_events_one(told);
            self.lemma_ids(e.id.0, e.id.1);
            assert(!aa.knows(agent as int, seq as int)) by {
                if aa.knows(agent as int, seq as int) {
                    assert(aa.name_of(agent as int) == e.id.0);
                }
            }
            assert(seq![e.op].subrange(0, 1) =~= seq![e.op]);
            self.lemma_one_received(parents@, e);
            let span = oplog::sent_span(agent, seq, 1);
            assert(crate::causal_graph::skip(aa, agent, seq as int, seq + 1, true) == seq);
            assert(crate::causal_graph::skip(aa, agent, seq as int, seq + 1, false) == seq + 1) by {
                reveal_with_fuel(crate::causal_graph::skip, 2);
            }
        }
        proof {
            remote_ops::lemma_new_count(self.hist(), e.id.0, seq as int, 1);
        }
        let _added = self.add_operations_remote(agent, parents, seq, ops.as_slice());
        proof {
            let runs = was.operations.runs();
            let parts = oplog::parts_of(seq![told], 0, 1);
            assert(seq![told].drop_last() =~= Seq::<OpAbs>::empty());
            assert(told.between(0, 1) =~= told);
            assert(told.size() == 1);
            reveal_with_fuel(oplog::parts_of, 2);
            assert(oplog::events_of(seq![told].drop_last()) =~= Seq::<operation::EvOp>::empty());
            assert(parts =~= seq![told]);
            assert(parts.drop_last() =~= Seq::<OpAbs>::empty());
            assert(oplog::pushed_all(runs, parts.drop_last()) == runs);
            assert forall|first: ListOpLog| #[trigger] stored_singly(first, was) implies stored_singly(
                first,
                *self,
            ) by {
                lemma_stored_next(first, was, *self, agent, e);
            }
        }
    }

    /// The local versions of the events that an event follows; none if one of them is
    /// not known.
    fn find_parents(
        &self,
        agents: &Vec<AgentId>,
        parents: &Vec<(usize, usize)>,
        Ghost(names): Ghost<Seq<Seq<char>>>,
    ) -> (out: Option<Vec<LV>>)
        requires
            self.inv(),
            agents_named(*self, agents@, names),
            forall|i: int| 0 <= i < parents@.len() ==> (#[trigger] parents@[i]).0 < names.len(),
        ensures
            ({
                let ids = parents.told().map_values(
                    |id: (int, int)| chunks::rec_id(names, id),
                );
                match out {
                    Some(list) => {
                        &&& list@ == events::places(self.hist(), ids)
                        &&& graph::known(self.cg.parents(), list@)
                        &&& forall|i: int|
                            0 <= i < ids.len() ==> events::has_id(self.hist(), #[trigger] ids[i])
                    },
                    None => exists|i: int|
                        0 <= i < ids.len() && !events::has_id(self.hist(), #[trigger] ids[i]),
                }
            }),
    {
        let ghost h = self.hist();
        let ghost told = parents.told();
        let ghost ids = told.map_values(|id: (int, int)| chunks::rec_id(names, id));
        let mut out: Vec<LV> = Vec::new();
        let mut i: usize = 0;
        while i < parents.len()
            invariant
                self.inv(),
                h == self.hist(),
                agents_named(*self, agents@, names),
                forall|j: int|
                    0 <= j < parents@.len() ==> (#[trigger] parents@[j]).0 < names.len(),
                told == parents.told(),
                ids == told.map_values(|id: (int, int)| chunks::rec_id(names, id)),
                i <= parents@.len(),
                out@.len() == i,
                forall|j: int|
                    0 <= j < i ==> events::has_id(h, #[trigger] ids[j]) && out@[j]
                        == events::place(h, ids[j]) && out@[j] < self.size(),
            decreases parents@.len() - i,
        {
            let (a, seq) = parents[i];
            proof {
                assert(told[i as int] == parents@[i as int].told());
                assert(a < names.len());
                assert(ids[i as int] == (names[a as int], seq as int));
                let agent = agents@[a as int];
                assert(agent < self.cg.agent_assignment.agents());
            }
            let name = self.cg.agent_assignment.get_agent_name(agents[a]);
            assert(name@ == names[a as int]);
            match self.find_event(name, seq) {
                Some(lv) => {
                    let ghost before = out@;
                    out.push(lv);
                    proof {
                        assert(events::has_id(h, ids[i as int]) && lv == events::place(
                            h,
                            ids[i as int],
                        ) && lv < self.size());
                        assert forall|j: int| 0 <= j < i + 1 implies events::has_id(
                            h,
                            #[trigger] ids[j],
                        ) && out@[j] == events::place(h, ids[j]) && out@[j] < self.size() by {
                            if j < i {
                                assert(out@[j] == before[j]);
                            }
                        }
                    }
                },
                None => {
                    assert(!events::has_id(h, ids[i as int]));
                    return None;
                },
            }
            i += 1;
        }
        assert(out@ =~= events::places_as_named(h, ids));
        let sorted = sorted_numbers(&out);
        proof {
            sorting::lemma_sorted(out@);
            assert forall|j: int| 0 <= j < sorted@.len() implies (#[trigger] sorted@[j])
                < self.size() by {
                assert(sorted@.contains(sorted@[j]));
                let k = out@.index_of(sorted@[j]);
                assert(events::has_id(h, ids[k]));
            }
        }
        Some(sorted)
    }

    /// Takes up the events of a chunk; gives up where one follows an event that is
    /// not known, and where there is no number left for one.
    #[verifier::rlimit(50)]
    fn receive_chunk(
        &mut self,
        agents: &Vec<AgentId>,
        r: &ChunkRec,
        places: &mut Vec<LV>,
        Ghost(names): Ghost<Seq<Seq<char>>>,
        Ghost(base): Ghost<Hist>,
        Ghost(done): Ghost<Seq<EventAbs>>,
    ) -> (out: Result<(), ParseError>)
        requires
            old(self).inv(),
            agents_named(*old(self), agents@, names),
            chunks::rec_fits(names, r.told()),
            old(self).hist() == events::received_all(base, done),
            events::receivable(base, done),
            lvs_of(old(self).hist(), done, old(places)@),
        ensures
            ({
                let evs = chunks::chunk_events(chunks::rec_chunk(names, r.told()));
                &&& out is Ok ==> {
                    &&& final(self).inv()
                    &&& agents_named(*final(self), agents@, names)
                    &&& final(self).same_agents(*old(self))
                    &&& forall|first: ListOpLog| #[trigger]
                        stored_singly(first, *old(self)) ==> stored_singly(first, *final(self))
                    &&& final(self).hist() == events::received_all(base, done + evs)
                    &&& events::receivable(base, done + evs)
                    &&& lvs_of(final(self).hist(), done + evs, final(places)@)
                }
                &&& out matches Err(e) ==> exists|k: int|
                    0 <= k < evs.len() && fails_at(
                        base,
                        #[trigger] (done + evs.take(k)),
                        evs[k],
                        e,
                    )
            }),
    {
        let ghost was = *self;
        let ghost c = chunks::rec_chunk(names, r.told());
        let ghost evs = chunks::chunk_events(c);
        let agent = agents[r.agent];
        let len = r.op.len();
        let mut k: usize = 0;
        proof {
            assert(done + evs.take(0) =~= done);
        }
        while k < len
            invariant
                self.inv(),
                agents_named(*self, agents@, names),
                chunks::rec_fits(names, r.told()),
                c == chunks::rec_chunk(names, r.told()),
                evs == chunks::chunk_events(c),
                len == r.op@.size(),
                r.agent < agents@.len(),
                agent == agents@[r.agent as int],
                k <= len,
                self.same_agents(was),
                forall|first: ListOpLog| #[trigger]
                    stored_singly(first, was) ==> stored_singly(first, *self),
                self.hist() == events::received_all(base, done + evs.take(k as int)),
                events::receivable(base, done + evs.take(k as int)),
                lvs_of(self.hist(), done + evs.take(k as int), places@),
                k > 0 ==> events::has_id(self.hist(), (c.name, c.seq + k - 1)),
            decreases len - k,
        {
            let ghost e = evs[k as int];
            let ghost before = self.hist();
            let ghost list = done + evs.take(k as int);
            let ghost more = done + evs.take(k + 1);
            let seq = r.seq + k;
            proof {
                assert(e == chunks::chunk_event(c, k as int));
                assert(more.drop_last() =~= list);
                assert(more.last() == e);
                assert(c.name == self.cg.agent_assignment.name_of(agent as int));
                self.lemma_hist();
            }
            let name = self.cg.agent_assignment.get_agent_name(agent);
            if self.find_event(name, seq).is_none() {
                let found = if k == 0 {
                    assert(forall|i: int|
                        0 <= i < r.parents@.len() ==> (#[trigger] r.parents@[i]).told()
                            == r.told().parents[i]);
                    self.find_parents(agents, &r.parents, Ghost(names))
                } else {
                    let last = self.find_event(name, seq - 1).unwrap();
                    let mut one: Vec<LV> = Vec::new();
                    one.push(last);
                    assert(e.parents.len() == 1 && e.parents[0] == (c.name, c.seq + k - 1));
                    proof {
                        assert(one@ =~= events::places_as_named(before, e.parents));
                        sorting::lemma_sorted_unique(one@, one@);
                    }
                    Some(one)
                };
                match found {
                    None => {
                        proof {
                            let ids = r.parents.told().map_values(
                                |id: (int, int)| chunks::rec_id(names, id),
                            );
                            assert(e.parents =~= ids);
                            let i = choose|i: int|
                                0 <= i < ids.len() && !events::has_id(before, #[trigger] ids[i]);
                            assert(!events::has_id(before, e.parents[i]));
                            assert(!events::follows_known(before, e));
                            assert(fails_at(
                                base,
                                done + evs.take(k as int),
                                evs[k as int],
                                ParseError::BaseVersionUnknown,
                            ));
                        }
                        return Err(ParseError::BaseVersionUnknown);
                    },
                    Some(parents) => {
                        if self.len() == usize::MAX {
                            assert(fails_at(
                                base,
                                done + evs.take(k as int),
                                evs[k as int],
                                ParseError::TooLarge,
                            ));
                            return Err(ParseError::TooLarge);
                        }
                        let op = r.op.one(k);
                        proof {
                            assert(events::follows_known(before, e));
                        }
                        self.receive_new(agent, seq, parents.as_slice(), op, Ghost(e));
                    },
                }
            }
            let ghost after = self.hist();
            proof {
                assert(after == events::received(before, e));
                events::lemma_received(before, e);
                assert forall|i: int| 0 <= i < agents@.len() implies {
                    &&& (#[trigger] agents@[i]) < self.cg.agent_assignment.agents()
                    &&& self.cg.agent_assignment.name_of(agents@[i] as int) == names[i]
                } by {}
            }
            let name = self.cg.agent_assignment.get_agent_name(agent);
            let lv = self.find_event(name, seq).unwrap();
            let ghost lvs = places@;
            places.push(lv);
            proof {
                lemma_lvs(before, after, list, lvs, e, lv);
                assert(more =~= list.push(e));
            }
            k += 1;
        }
        proof {
            assert(evs.take(k as int) =~= evs);
        }
        Ok(())
    }
}

/// Whether events can be taken up, and the one behind them, which is not known, cannot be:
/// as it follows an event that is not known, or as there is no number left for it.
spec fn fails_at(h: Hist, evs: Seq<EventAbs>, e: EventAbs, why: ParseError) -> bool {
    let g = events::received_all(h, evs);
    &&& events::receivable(h, evs)
    &&& g.len() <= usize::MAX
    &&& !events::has_id(g, e.id)
    &&& match why {
        ParseError::BaseVersionUnknown => !events::follows_known(g, e),
        ParseError::TooLarge => events::follows_known(g, e) && g.len() == usize::MAX,
        ParseError::Malformed => false,
    }
}

/// What happens at the first event that cannot be taken up.
proof fn lemma_fails(h: Hist, all: Seq<EventAbs>, m: int, why: ParseError)
    requires
        0 <= m < all.len(),
        fails_at(h, all.take(m), all[m], why),
    ensures
        why == ParseError::TooLarge ==> overflows(h, all),
        why == ParseError::BaseVersionUnknown ==> !overflows(h, all) && !events::receivable(h, all),
{
    let more = all.take(m + 1);
    assert(more.drop_last() =~= all.take(m));
    assert(more.last() == all[m]);
    if why == ParseError::BaseVersionUnknown {
        assert(!events::receivable(h, more));
        assert forall|k: int|
            0 <= k <= all.len() && events::receivable(h, #[trigger] all.take(k)) implies k <= m by {
            if k > m {
                assert(all.take(k) =~= more + all.subrange(m + 1, k));
                lemma_receivable_front(h, more, all.subrange(m + 1, k));
            }
        }
        assert(all.take(all.len() as int) =~= all);
        assert forall|k: int|
            0 <= k <= all.len() && events::receivable(
                h,
                #[trigger] all.take(k),
            ) implies events::received_all(h, all.take(k)).len() <= usize::MAX by {
            events::lemma_received_more(h, all.take(m), k);
            assert(all.take(m).take(k) =~= all.take(k));
        }
    } else {
        assert(events::receivable(h, more));
        assert(events::received_all(h, more).len() == usize::MAX + 1);
    }
}

/// Whether local versions are those of events, one by one.
pub open spec fn lvs_of(h: Hist, evs: Seq<EventAbs>, lvs: Seq<usize>) -> bool {
    &&& lvs.len() == evs.len()
    &&& forall|i: int|
        0 <= i < evs.len() ==> (#[trigger] lvs[i]) < h.len() && h.ids[lvs[i] as int] == evs[i].id
}

proof fn lemma_lvs(
    before: Hist,
    after: Hist,
    evs: Seq<EventAbs>,
    lvs: Seq<usize>,
    e: EventAbs,
    lv: usize,
)
    requires
        before.valid(),
        lvs_of(before, evs, lvs),
        after == events::received(before, e),
        lv < after.len(),
        after.ids[lv as int] == e.id,
    ensures
        lvs_of(after, evs.push(e), lvs.push(lv)),
{
    let all = evs.push(e);
    let out = lvs.push(lv);
    assert forall|i: int| 0 <= i < all.len() implies (#[trigger] out[i]) < after.len()
        && after.ids[out[i] as int] == all[i].id by {
        if i < evs.len() {
            assert(lvs[i] < before.len());
            assert(out[i] == lvs[i]);
            assert(after.ids[lvs[i] as int] == before.ids[lvs[i] as int]);
        }
    }
}

/// What cannot be taken up in part cannot be taken up.
proof fn lemma_receivable_front(h: Hist, a: Seq<EventAbs>, b: Seq<EventAbs>)
    requires
        events::receivable(h, a + b),
    ensures
        events::receivable(h, a),
    decreases b.len(),
{
    if b.len() == 0 {
        assert(a + b =~= a);
    } else {
        assert((a + b).drop_last() =~= a + b.drop_last());
        lemma_receivable_front(h, a, b.drop_last());
    }
}

pub proof fn lemma_chunks_concat(a: Seq<Chunk>, b: Seq<Chunk>)
    ensures
        chunks::chunks_events(a + b) == chunks::chunks_events(a) + chunks::chunks_events(b),
    decreases b.len(),
{
    if b.len() == 0 {
        assert(a + b =~= a);
        assert(chunks::chunks_events(a + b) =~= chunks::chunks_events(a) + chunks::chunks_events(
            b,
        ));
    } else {
        lemma_chunks_concat(a, b.drop_last());
        assert((a + b).drop_last() =~= a + b.drop_last());
        assert(chunks::chunks_events(a + b) =~= chunks::chunks_events(a) + chunks::chunks_events(
            b,
        ));
    }
}

impl ListOpLog {
    /// The agents with the given names, which are new ones where there are none; nothing
    /// if there are not numbers for all of them.
    #[verifier::rlimit(40)]
    fn name_agents(&mut self, names: &Vec<Vec<char>>) -> (out: Option<Vec<AgentId>>)
        requires
            old(self).inv(),
            forall|i: int|
                0 <= i < names.told().len() ==> crate::agent_assignment::name_fits(
                    #[trigger] names.told()[i],
                ),
        ensures
            final(self).inv(),
            final(self).hist() == old(self).hist(),
            final(self).size() == old(self).size(),
            match out {
                Some(ids) => {
                    &&& agents_named(*final(self), ids@, names.told())
                    &&& final(self).names() == names::with_names(
                        old(self).names(),
                        names.told(),
                    )
                },
                None => names::with_names(old(self).names(), names.told()).len()
                    > AgentId::MAX,
            },
            final(self).keeps_agents(*old(self)),
            final(self).operations == old(self).operations,
            final(self).cg.graph == old(self).cg.graph,
            final(self).cg.agent_assignment.client_with_lv
                == old(self).cg.agent_assignment.client_with_lv,
    {
        let ghost told = names.told();
        let mut out: Vec<AgentId> = Vec::new();
        let mut i: usize = 0;
        while i < names.len()
            invariant
                self.inv(),
                self.hist() == old(self).hist(),
                self.size() == old(self).size(),
                told == names.told(),
                i <= names@.len(),
                forall|j: int|
                    0 <= j < told.len() ==> crate::agent_assignment::name_fits(
                        #[trigger] told[j],
                    ),
                agents_named(*self, out@, told.take(i as int)),
                self.keeps_agents(*old(self)),
                self.names() == names::with_names(old(self).names(), told.take(i as int)),
                self.operations == old(self).operations,
                self.cg.graph == old(self).cg.graph,
                self.cg.agent_assignment.client_with_lv
                    == old(self).cg.agent_assignment.client_with_lv,
            decreases names@.len() - i,
        {
            let text = text_of_chars(names[i].as_slice());
            let ghost before = *self;
            proof {
                assert(names@[i as int].told() =~= names@[i as int]@);
                assert(told[i as int] == text@);
                assert(told.take(i + 1).drop_last() =~= told.take(i as int));
                names::lemma_longer(old(self).names(), told, i + 1);
            }
            if !self.cg.agent_assignment.has_room_for(text.as_str()) {
                return None;
            }
            let id = self.get_or_create_agent_id(text.as_str());
            let ghost ids = out@;
            out.push(id);
            proof {
                let aa = self.cg.agent_assignment;
                assert(told.take(i + 1).drop_last() =~= told.take(i as int));
                assert forall|j: int| 0 <= j < out@.len() implies {
                    &&& (#[trigger] out@[j]) < aa.agents()
                    &&& aa.name_of(out@[j] as int) == told.take(i + 1)[j]
                } by {
                    if j < i {
                        assert(out@[j] == ids[j]);
                        assert(ids[j] < before.cg.agent_assignment.agents());
                        assert(told.take(i + 1)[j] == told.take(i as int)[j]);
                        assert(aa.name_of(ids[j] as int) == before.cg.agent_assignment.name_of(
                            ids[j] as int,
                        ));
                    }
                }
            }
            i += 1;
        }
        assert(told.take(i as int) =~= told);
        Some(out)
    }

    /// Takes up the events that bytes tell of; those that are known already change
    /// nothing. Where they cannot be taken up, the log stays as it is.
    ///
    /// Gives the newest ones of the events that the bytes tell of.
    #[verifier::spinoff_prover]
    #[verifier::rlimit(100)]
    pub fn decode_and_add(&mut self, bytes: &[u8]) -> (out: Result<Frontier, ParseError>)
        requires
            old(self).inv(),
        ensures
            final(self).inv(),
            final(self).keeps_agents(*old(self)),
            match decoded(
                old(self).hist(),
                old(self).names(),
                bytes@,
            ) {
                Ok(h) => {
                    &&& final(self).hist() == h
                    &&& taken(*old(self), *final(self), bytes@)
                    &&& out matches Ok(front) && newest_told(*final(self), bytes@, front@)
                },
                Err(e) => out == Err::<Frontier, ParseError>(e) && *final(self) == *old(self),
            },
    {
        let ghost base = self.hist();
        let data = match read(bytes) {
            Some(data) => data,
            None => {
                return Err(ParseError::Malformed);
            },
        };
        let ghost d = data.told();
        let ghost names = d.0.1;
        let ghost all = encoding::data_chunks(d);
        let ghost evs = encoding::data_events(d);
        proof {
            law_file(bytes@, d);
            assert forall|i: int| 0 <= i < data.1@.len() implies chunks::rec_fits(
                names,
                (#[trigger] data.1@[i]).told(),
            ) by {
                assert(d.1[i] == data.1@[i].told());
            }
            assert(data.0.1.told() == names);
            assert(names.len() == data.0.1@.len());
            self.lemma_hist();
        }
        let mut work = self.copied();
        assert(work.names() =~= self.names());
        let agents = match work.name_agents(&data.0.1) {
            Some(agents) => agents,
            None => {
                return Err(ParseError::TooLarge);
            },
        };
        let mut places: Vec<LV> = Vec::new();
        let mut i: usize = 0;
        proof {
            assert(all.take(0) =~= Seq::<Chunk>::empty());
            assert(chunks::chunks_events(all.take(0)) =~= Seq::<EventAbs>::empty());
        }
        while i < data.1.len()
            invariant
                work.inv(),
                d == data.told(),
                file_of(bytes@) == Some(d),
                names == d.0.1,
                all == encoding::data_chunks(d),
                evs == encoding::data_events(d),
                base == self.hist(),
                *self == *old(self),
                self.inv(),
                names::with_names(self.names(), names).len() <= AgentId::MAX,
                agents_named(work, agents@, names),
                work.keeps_agents(*self),
                stored_singly(*self, work),
                work.names() == names::with_names(self.names(), names),
                forall|j: int|
                    0 <= j < data.1@.len() ==> chunks::rec_fits(
                        names,
                        (#[trigger] data.1@[j]).told(),
                    ),
                i <= data.1@.len(),
                work.hist() == events::received_all(
                    base,
                    chunks::chunks_events(all.take(i as int)),
                ),
                events::receivable(base, chunks::chunks_events(all.take(i as int))),
                lvs_of(work.hist(), chunks::chunks_events(all.take(i as int)), places@),
            decreases data.1@.len() - i,
        {
            let ghost done = chunks::chunks_events(all.take(i as int));
            let ghost c = all[i as int];
            let ghost more = chunks::chunk_events(c);
            let ghost rest = chunks::chunks_events(all.skip(i + 1));
            proof {
                assert(chunks::rec_fits(names, data.1@[i as int].told()));
                assert(c == chunks::rec_chunk(names, data.1@[i as int].told()));
                assert(all.take(i + 1).drop_last() =~= all.take(i as int));
                assert(all.take(i + 1).last() == c);
                lemma_chunks_concat(all.take(i + 1), all.skip(i + 1));
                assert(all.take(i + 1) + all.skip(i + 1) =~= all);
                assert(evs == done + more + rest);
            }
            let received = work.receive_chunk(
                &agents,
                &data.1[i],
                &mut places,
                Ghost(names),
                Ghost(base),
                Ghost(done),
            );
            if let Err(e) = received {
                proof {
                    let k = choose|k: int|
                        0 <= k < more.len() && fails_at(
                            base,
                            #[trigger] (done + more.take(k)),
                            more[k],
                            e,
                        );
                    let m = done.len() + k;
                    assert(evs.take(m) =~= done + more.take(k));
                    assert(evs[m] == more[k]);
                    lemma_fails(base, evs, m, e);
                }
                return Err(e);
            }
            i += 1;
        }
        proof {
            assert(all.take(i as int) =~= all);
            work.lemma_hist();
            assert(!overflows(base, evs)) by {
                assert forall|k: int|
                    0 <= k <= evs.len() implies events::received_all(
                    base,
                    #[trigger] evs.take(k),
                ).len() <= usize::MAX by {
                    events::lemma_received_more(base, evs, k);
                }
            }
            assert(graph::known(work.cg.parents(), places@)) by {
                work.lemma_hist();
                assert forall|j: int| 0 <= j < places@.len() implies (#[trigger] places@[j])
                    < work.cg.parents().len() by {}
            }
        }
        let none: Vec<LV> = Vec::new();
        let front = work.cg.graph.find_dominators_2(places.as_slice(), none.as_slice());
        assert(places@ + none@ =~= places@);
        *self = work;
        assert(lvs_of(self.hist(), events_told(bytes@), places@));
        Ok(front)
    }

    /// The log of the events that bytes tell of.
    pub fn load_from(bytes: &[u8]) -> (out: Result<ListOpLog, ParseError>)
        ensures
            match decoded(events::nothing(), Seq::empty(), bytes@) {
                Ok(h) => out matches Ok(log) && {
                    &&& log.inv()
                    &&& log.hist() == h
                    &&& stored_alone(log)
                    &&& log.names() == agents_told(bytes@)
                },
                Err(e) => out matches Err(x) && x == e,
            },
    {
        let mut log = ListOpLog::new();
        proof {
            assert(log.hist() == events::nothing());
            assert(log.names() =~= Seq::<Seq<char>>::empty());
            lemma_nothing_stored(log);
        }
        match log.decode_and_add(bytes) {
            Ok(_) => Ok(log),
            Err(e) => Err(e),
        }
    }
}

} // verus!
