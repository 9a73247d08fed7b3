//! Which agent wrote which event: the mapping between local versions and pairs
//! of an agent and a sequence number.

use crate::names;
use crate::range::DTRange;
use crate::rle;
use crate::rle::{KVPair, RleVal, RleVec};
use crate::smart_string;
use crate::smart_string::SmartString;
use std::cmp::Ordering;
use vstd::hash_map::StringHashMap;
use vstd::prelude::*;
use vstd::string::*;
use vstd::utf8::*;

verus! {

/// A local version: the place of an event in the order in which this peer
/// learnt of the events.
pub type LV = usize;

/// The number that an agent has at this peer.
pub type AgentId = u32;

/// An event by its author and the author's own count.
pub type AgentVersion = (AgentId, usize);

/// Consecutive events of one agent.
#[derive(Debug, Clone, Copy, PartialEq, Eq, Structural)]
pub struct AgentSpan {
    pub agent: AgentId,
    pub seq_range: DTRange,
}

impl RleVal for DTRange {
    type Abs = DTRange;

    type Item = int;

    open spec fn abs(&self) -> DTRange {
        *self
    }

    open spec fn valid(a: DTRange) -> bool {
        a.start < a.end
    }

    open spec fn size(a: DTRange) -> int {
        a.end - a.start
    }

    open spec fn item(a: DTRange, start: int, k: int) -> int {
        a.start + k
    }

    open spec fn joins(a: DTRange, b: DTRange, at: int) -> bool {
        a.end == b.start
    }

    open spec fn join(a: DTRange, b: DTRange) -> DTRange {
        DTRange { start: a.start, end: b.end }
    }

    open spec fn part(a: DTRange, start: int, from: int, to: int) -> DTRange {
        DTRange { start: (a.start + from) as usize, end: (a.start + to) as usize }
    }

    proof fn lemma_size(a: DTRange) {
    }

    proof fn lemma_join(a: DTRange, b: DTRange, start: int) {
    }

    proof fn lemma_part(a: DTRange, start: int, from: int, to: int) {
    }

    fn len(&self) -> (out: usize) {
        self.end - self.start
    }

    fn can_append_at(&self, other: &DTRange, at: usize) -> (out: bool) {
        self.end == other.start
    }

    fn append(&mut self, other: DTRange, at: usize) {
        self.end = other.end;
    }

    fn slice(&self, start: usize, from: usize, to: usize) -> (out: DTRange) {
        DTRange { start: self.start + from, end: self.start + to }
    }

    fn copied(&self) -> (out: DTRange) {
        *self
    }
}

impl RleVal for AgentSpan {
    type Abs = AgentSpan;

    type Item = (AgentId, int);

    open spec fn abs(&self) -> AgentSpan {
        *self
    }

    open spec fn valid(a: AgentSpan) -> bool {
        a.seq_range.start < a.seq_range.end
    }

    open spec fn size(a: AgentSpan) -> int {
        a.seq_range.end - a.seq_range.start
    }

    open spec fn item(a: AgentSpan, start: int, k: int) -> (AgentId, int) {
        (a.agent, a.seq_range.start + k)
    }

    open spec fn joins(a: AgentSpan, b: AgentSpan, at: int) -> bool {
        a.agent == b.agent && a.seq_range.end == b.seq_range.start
    }

    open spec fn join(a: AgentSpan, b: AgentSpan) -> AgentSpan {
        AgentSpan {
            agent: a.agent,
            seq_range: DTRange { start: a.seq_range.start, end: b.seq_range.end },
        }
    }

    open spec fn part(a: AgentSpan, start: int, from: int, to: int) -> AgentSpan {
        AgentSpan {
            agent: a.agent,
            seq_range: DTRange {
                start: (a.seq_range.start + from) as usize,
                end: (a.seq_range.start + to) as usize,
            },
        }
    }

    proof fn lemma_size(a: AgentSpan) {
    }

    proof fn lemma_join(a: AgentSpan, b: AgentSpan, start: int) {
    }

    proof fn lemma_part(a: AgentSpan, start: int, from: int, to: int) {
    }

    fn len(&self) -> (out: usize) {
        self.seq_range.end - self.seq_range.start
    }

    fn can_append_at(&self, other: &AgentSpan, at: usize) -> (out: bool) {
        self.agent == other.agent && self.seq_range.end == other.seq_range.start
    }

    fn append(&mut self, other: AgentSpan, at: usize) {
        self.seq_range.end = other.seq_range.end;
    }

    fn slice(&self, start: usize, from: usize, to: usize) -> (out: AgentSpan) {
        AgentSpan {
            agent: self.agent,
            seq_range: DTRange {
                start: self.seq_range.start + from,
                end: self.seq_range.start + to,
            },
        }
    }

    fn copied(&self) -> (out: AgentSpan) {
        *self
    }
}

/// What is known of one agent.
#[derive(Debug)]
pub struct ClientData {
    pub name: SmartString,
    /// The agent's events in order of their sequence numbers: each run begins
    /// at a sequence number, and gives the local versions of the events from
    /// there on.
    ///
    /// An agent may write in several branches, so the local versions mostly but
    /// not always ascend.
    pub lv_for_seq: RleVec<DTRange>,
}

impl ClientData {
    pub open spec fn inv(&self) -> bool {
        rle::sorted::<DTRange>(self.lv_for_seq.runs())
    }

    /// Whether the agent's event `seq` is known.
    pub open spec fn knows(&self, seq: int) -> bool {
        rle::has::<DTRange>(self.lv_for_seq.runs(), seq)
    }

    /// The local version of the agent's event `seq`.
    pub open spec fn lv_of(&self, seq: int) -> int {
        rle::at::<DTRange>(self.lv_for_seq.runs(), seq)
    }

    /// One more than the highest known sequence number; 0 if none is known.
    pub open spec fn next_seq(&self) -> int {
        self.lv_for_seq.ends()
    }

    pub fn get_next_seq(&self) -> (out: usize)
        requires
            self.inv(),
        ensures
            out == self.next_seq(),
            !self.knows(out as int),
            out > 0 ==> self.knows(out - 1),
            forall|seq: int| self.knows(seq) ==> seq < out,
    {
        let ghost runs = self.lv_for_seq.runs();
        let out = self.lv_for_seq.end();
        proof {
            assert forall|seq: int| self.knows(seq) implies seq < out by {
                rle::lemma_past_end::<DTRange>(runs, seq);
            }
            if out > 0 {
                assert(DTRange::valid(runs[runs.len() - 1].1));
                assert(rle::covers::<DTRange>(runs, runs.len() - 1, out - 1));
            }
        }
        out
    }

    pub fn is_empty(&self) -> (out: bool)
        requires
            self.inv(),
        ensures
            out == (forall|seq: int| !self.knows(seq)),
    {
        let out = self.lv_for_seq.is_empty();
        proof {
            let runs = self.lv_for_seq.runs();
            if runs.len() > 0 {
                assert(DTRange::valid(runs[0].1));
                assert(rle::covers::<DTRange>(runs, 0, runs[0].0));
                assert(self.knows(runs[0].0));
            }
        }
        out
    }

    pub fn try_seq_to_lv(&self, seq: usize) -> (out: Option<LV>)
        requires
            self.inv(),
        ensures
            out is Some <==> self.knows(seq as int),
            out matches Some(lv) ==> lv == self.lv_of(seq as int),
    {
        match self.lv_for_seq.find_index(seq) {
            Some(i) => {
                let entry = &self.lv_for_seq.0[i];
                assert(self.lv_for_seq.runs()[i as int] == (entry.0 as int, entry.1));
                Some(entry.1.start + (seq - entry.0))
            },
            None => None,
        }
    }

    pub fn seq_to_lv(&self, seq: usize) -> (out: LV)
        requires
            self.inv(),
            self.knows(seq as int),
        ensures
            out == self.lv_of(seq as int),
    {
        self.try_seq_to_lv(seq).unwrap()
    }

    /// The local versions of the events from `seq_range.start` on, as far as they
    /// are stored together; at most as many as `seq_range` has.
    pub fn try_seq_to_lv_span(&self, seq_range: DTRange) -> (out: Option<DTRange>)
        requires
            self.inv(),
            seq_range.ordered(),
        ensures
            out is Some <==> self.knows(seq_range.start as int),
            out matches Some(span) ==> self.span_from(seq_range, span),
    {
        match self.lv_for_seq.find_index(seq_range.start) {
            Some(i) => {
                let entry = &self.lv_for_seq.0[i];
                let ghost runs = self.lv_for_seq.runs();
                assert(runs[i as int] == (entry.0 as int, entry.1));
                let start = entry.1.start + (seq_range.start - entry.0);
                let room = entry.1.end - start;
                let want = seq_range.end - seq_range.start;
                let end = if room < want {
                    entry.1.end
                } else {
                    start + want
                };
                let span = DTRange { start, end };
                proof {
                    assert forall|k: int| 0 <= k < span.size() implies self.knows(
                        #[trigger] (seq_range.start + k),
                    ) && self.lv_of(seq_range.start + k) == span.start + k by {
                        let key = seq_range.start + k;
                        assert(rle::covers::<DTRange>(runs, i as int, key));
                        rle::lemma_unique::<DTRange>(runs, i as int, key);
                    }
                    assert(rle::end_of::<DTRange>(runs, i as int) == entry.0 + entry.1.size());
                }
                Some(span)
            },
            None => None,
        }
    }

    /// Whether `span` holds the local versions of the events from
    /// `seq_range.start` on, all of them or up to the end of a stored run.
    pub open spec fn span_from(&self, seq_range: DTRange, span: DTRange) -> bool {
        let runs = self.lv_for_seq.runs();
        let i = rle::run_of::<DTRange>(runs, seq_range.start as int);
        &&& span.ordered()
        &&& forall|k: int|
            0 <= k < span.size() ==> self.knows(#[trigger] (seq_range.start + k)) && self.lv_of(
                seq_range.start + k,
            ) == span.start + k
        &&& span.start == self.lv_of(seq_range.start as int)
        &&& if rle::end_of::<DTRange>(runs, i) < seq_range.end {
            span.size() == rle::end_of::<DTRange>(runs, i) - seq_range.start
        } else {
            span.size() == seq_range.size()
        }
    }

    /// Where stored run `i` ends.
    fn seq_end(&self, i: usize) -> (out: usize)
        requires
            self.inv(),
            i < self.lv_for_seq.runs().len(),
        ensures
            out == rle::end_of::<DTRange>(self.lv_for_seq.runs(), i as int),
    {
        let entry = &self.lv_for_seq.0[i];
        assert(self.lv_for_seq.runs()[i as int] == (entry.0 as int, entry.1));
        entry.0 + entry.1.len()
    }

    pub fn seq_to_time_span(&self, seq_range: DTRange) -> (out: DTRange)
        requires
            self.inv(),
            seq_range.ordered(),
            self.knows(seq_range.start as int),
        ensures
            self.span_from(seq_range, out),
    {
        self.try_seq_to_lv_span(seq_range).unwrap()
    }
}

pub const MAX_AGENT_NAME_LENGTH: usize = 50;

/// Whether an agent can have this name: not the reserved one, and not too long.
pub open spec fn name_fits(name: Seq<char>) -> bool {
    &&& name != "ROOT"@
    &&& encode_utf8(name).len() < MAX_AGENT_NAME_LENGTH
}

/// An agent can have every name of less than fifty bytes in UTF-8 but the reserved one.
pub proof fn law_name_fits(name: Seq<char>)
    ensures
        name_fits(name) <==> name != seq!['R', 'O', 'O', 'T'] && encode_utf8(name).len() < 50,
{
    reveal_strlit("ROOT");
    assert("ROOT"@ =~= seq!['R', 'O', 'O', 'T']);
}

/// Whether an agent can have this name.
pub fn can_name(name: &str) -> (out: bool)
    ensures
        out == name_fits(name@),
        out == (name@ != "ROOT"@ && encode_utf8(name@).len() < 50),
{
    !SmartString::from_text(name).is_text("ROOT") && name.as_bytes().len() < MAX_AGENT_NAME_LENGTH
}

pub struct AgentAssignment {
    /// For each local version the event's author and the author's count.
    pub client_with_lv: RleVec<AgentSpan>,
    /// For each agent what is known of it.
    pub client_data: Vec<ClientData>,
    /// The agents by name.
    pub agent_ids: StringHashMap<AgentId>,
}

impl AgentAssignment {
    /// The author and the author's count of the event with local version `lv`.
    pub open spec fn id_of(&self, lv: int) -> (AgentId, int) {
        rle::at::<AgentSpan>(self.client_with_lv.runs(), lv)
    }

    /// How many events there are.
    pub open spec fn size(&self) -> int {
        self.client_with_lv.ends()
    }

    /// Whether the event `seq` of `agent` is known.
    pub open spec fn knows(&self, agent: int, seq: int) -> bool {
        0 <= agent < self.client_data@.len() && self.client_data@[agent].knows(seq)
    }

    /// The local version of the event `seq` of `agent`.
    pub open spec fn lv_of(&self, agent: int, seq: int) -> int {
        self.client_data@[agent].lv_of(seq)
    }

    pub open spec fn name_of(&self, agent: int) -> Seq<char> {
        self.client_data@[agent].name@
    }

    /// How many agents there are.
    pub open spec fn agents(&self) -> int {
        self.client_data@.len() as int
    }

    /// The names of the agents, in the order of their numbers.
    pub open spec fn names(&self) -> Seq<Seq<char>> {
        Seq::new(self.agents() as nat, |a: int| self.name_of(a))
    }

    /// Whether there is a number for the agent of this name.
    pub open spec fn room_for(&self, name: Seq<char>) -> bool {
        names::with_name(self.names(), name).len() <= AgentId::MAX
    }

    /// One more than the highest count of an agent that is known.
    pub open spec fn next_seq(&self, agent: int) -> int {
        self.client_data@[agent].next_seq()
    }

    /// Whether every agent is found by its name, and by no other.
    pub open spec fn named(&self) -> bool {
        &&& self.client_data@.len() <= AgentId::MAX
        &&& forall|a: int|
            0 <= a < self.client_data@.len() ==> {
                &&& self.agent_ids@.contains_key(#[trigger] self.name_of(a))
                &&& self.agent_ids@[self.name_of(a)] == a
                &&& name_fits(self.name_of(a))
            }
        &&& forall|name: Seq<char>| #[trigger]
            self.agent_ids@.contains_key(name) ==> {
                let a = self.agent_ids@[name] as int;
                a < self.client_data@.len() && self.name_of(a) == name
            }
    }

    /// Whether local versions and events by author correspond.
    pub open spec fn matched(&self) -> bool {
        &&& forall|lv: int|
            #![trigger self.id_of(lv)]
            0 <= lv < self.size() ==> {
                let (agent, seq) = self.id_of(lv);
                self.knows(agent as int, seq) && self.lv_of(agent as int, seq) == lv
            }
        &&& forall|agent: int, seq: int|
            #![trigger self.knows(agent, seq)]
            self.knows(agent, seq) ==> {
                let lv = self.lv_of(agent, seq);
                0 <= lv < self.size() && self.id_of(lv) == (agent as AgentId, seq)
            }
    }

    pub open spec fn inv(&self) -> bool {
        &&& rle::packed::<AgentSpan>(self.client_with_lv.runs())
        &&& forall|a: int|
            0 <= a < self.client_data@.len() ==> (#[trigger] self.client_data@[a]).inv()
        &&& self.named()
        &&& self.matched()
    }

    pub fn new() -> (out: AgentAssignment)
        ensures
            out.inv(),
            out.size() == 0,
            out.agents() == 0,
            out.client_with_lv.runs().len() == 0,
    {
        let out = AgentAssignment {
            client_with_lv: RleVec::new(),
            client_data: Vec::new(),
            agent_ids: StringHashMap::new(),
        };
        out
    }

    pub fn get_agent_id(&self, name: &str) -> (out: Option<AgentId>)
        requires
            self.inv(),
        ensures
            out is Some <==> exists|a: int|
                0 <= a < self.agents() && #[trigger] self.name_of(a) == name@,
            out matches Some(a) ==> a < self.agents() && self.name_of(a as int) == name@,
    {
        let out = self.agent_ids.get(name);
        match out {
            Some(a) => {
                assert(self.name_of(*a as int) == name@);
                Some(*a)
            },
            None => None,
        }
    }

    #[verifier::rlimit(50)]
    pub fn get_or_create_agent_id(&mut self, name: &str) -> (out: AgentId)
        requires
            old(self).inv(),
            name_fits(name@),
            old(self).room_for(name@),
        ensures
            final(self).inv(),
            final(self).client_with_lv == old(self).client_with_lv,
            out < final(self).agents(),
            final(self).name_of(out as int) == name@,
            // The agent was there, or is added behind the others.
            *final(self) == *old(self) || {
                &&& forall|a: int| 0 <= a < old(self).agents() ==> old(self).name_of(a) != name@
                &&& out == old(self).agents()
                &&& final(self).client_data@.drop_last() == old(self).client_data@
                &&& final(self).agents() == old(self).agents() + 1
                &&& forall|seq: int| !final(self).knows(out as int, seq)
                &&& final(self).next_seq(out as int) == 0
            },
    {
        if let Some(id) = self.get_agent_id(name) {
            id
        } else {
            assert(!self.names().contains(name@)) by {
                if self.names().contains(name@) {
                    let a = self.names().index_of(name@);
                    assert(self.name_of(a) == name@);
                }
            }
            let id: AgentId = self.client_data.len() as AgentId;
            self.client_data.push(
                ClientData { name: SmartString::from_text(name), lv_for_seq: RleVec::new() },
            );
            self.agent_ids.insert(String::from_str(name), id);
            proof {
                let was = *old(self);
                assert(self.client_data@.drop_last() =~= was.client_data@);
                assert forall|a: int| 0 <= a < was.agents() implies was.client_data@[a]
                    == self.client_data@[a] && was.name_of(a) != name@ by {
                    assert(self.client_data@.drop_last()[a] == self.client_data@[a]);
                }
                assert forall|a: int| 0 <= a < self.client_data@.len() implies (
                #[trigger] self.client_data@[a]).inv() by {
                    if a < was.agents() {
                        assert(was.client_data@[a].inv());
                    }
                }
                assert forall|a: int| 0 <= a < self.client_data@.len() implies {
                    &&& self.agent_ids@.contains_key(#[trigger] self.name_of(a))
                    &&& self.agent_ids@[self.name_of(a)] == a
                    &&& name_fits(self.name_of(a))
                } by {
                    if a < was.agents() {
                        assert(was.agent_ids@.contains_key(was.name_of(a)));
                    }
                }
                assert forall|n: Seq<char>| #[trigger] self.agent_ids@.contains_key(n) implies {
                    let a = self.agent_ids@[n] as int;
                    a < self.client_data@.len() && self.name_of(a) == n
                } by {
                    if n != name@ {
                        assert(was.agent_ids@.contains_key(n));
                    }
                }
                assert forall|agent: int, seq: int| #[trigger] self.knows(agent, seq) implies {
                    let lv = self.lv_of(agent, seq);
                    0 <= lv < self.size() && self.id_of(lv) == (agent as AgentId, seq)
                } by {
                    if agent < was.agents() {
                        assert(was.knows(agent, seq));
                    }
                }
                assert forall|lv: int|
                    #![trigger self.id_of(lv)]
                    0 <= lv < self.size() implies {
                    let (agent, seq) = self.id_of(lv);
                    self.knows(agent as int, seq) && self.lv_of(agent as int, seq) == lv
                } by {
                    assert(was.id_of(lv) == self.id_of(lv));
                }
            }
            id
        }
    }

    /// Whether `run` holds the last event of `agent` within `seq_range` that is
    /// known, and all known ones before and after it without a gap.
    pub open spec fn is_known_span(&self, agent: int, seq_range: DTRange, run: DTRange) -> bool {
        &&& run.start < run.end
        &&& forall|seq: int| run.has(seq) ==> #[trigger] self.knows(agent, seq)
        &&& !self.knows(agent, run.start - 1)
        &&& !self.knows(agent, run.end as int)
        &&& run.start < seq_range.end
        &&& seq_range.start < run.end
        &&& forall|seq: int|
            run.end <= seq < seq_range.end ==> !#[trigger] self.knows(agent, seq)
    }

    /// The run of sequence numbers from `agent` that is known and overlaps
    /// `seq_range`; the last one if there are several, none if none of the
    /// range is known.
    ///
    /// It is the whole run, which may extend past `seq_range` in both directions.
    /// An author's sequence numbers stay contiguous even when the local versions
    /// they map to do not, so one run can span several stored entries.
    #[verifier::rlimit(80)]
    pub fn known_seq_span(&self, agent: AgentId, seq_range: DTRange) -> (out: Option<DTRange>)
        requires
            self.inv(),
        ensures
            match out {
                None => forall|seq: int|
                    seq_range.has(seq) ==> !#[trigger] self.knows(agent as int, seq),
                Some(run) => self.is_known_span(agent as int, seq_range, run),
            },
            seq_range.start >= seq_range.end ==> out is None,
    {
        if seq_range.start >= seq_range.end {
            return None;
        }
        if agent as usize >= self.client_data.len() {
            return None;
        }
        let client = &self.client_data[agent as usize];
        let ghost runs = client.lv_for_seq.runs();
        let entries = &client.lv_for_seq.0;
        assert(client.inv());
        // The last entry that begins at or before the end of the query.
        let after = client.lv_for_seq.count_to(seq_range.last());
        proof {
            assert forall|seq: int| seq_range.has(seq) && client.knows(seq) implies {
                &&& after > 0
                &&& exists|i: int| 0 <= i < after && #[trigger] rle::covers::<DTRange>(runs, i, seq)
            } by {
                let i = rle::run_of::<DTRange>(runs, seq);
                assert(rle::covers::<DTRange>(runs, i, seq));
                assert(runs[i].0 <= seq_range.end - 1);
            }
        }
        if after == 0 {
            assert forall|seq: int| seq_range.has(seq) implies !#[trigger] self.knows(
                agent as int,
                seq,
            ) by {
                if client.knows(seq) {
                    assert(after > 0);
                }
            }
            return None;
        }
        let mut i: usize = after - 1;
        proof {
            assert(runs[i as int] == (entries@[i as int].0 as int, entries@[i as int].1));
        }
        let mut start: usize = entries[i].0;
        let mut end: usize = client.seq_end(i);
        if seq_range.start >= end {
            proof {
                assert forall|seq: int| seq_range.has(seq) implies !#[trigger] self.knows(
                    agent as int,
                    seq,
                ) by {
                    if client.knows(seq) {
                        let m = choose|m: int|
                            0 <= m < after && #[trigger] rle::covers::<DTRange>(runs, m, seq);
                        if m < i {
                            assert(rle::end_of::<DTRange>(runs, m) <= runs[i as int].0);
                        }
                    }
                }
            }
            return None;
        }
        proof {
            assert forall|seq: int| start <= seq < end implies #[trigger] client.knows(seq) by {
                assert(rle::covers::<DTRange>(runs, i as int, seq));
            }
        }
        while i > 0 && client.seq_end(i - 1) == start
            invariant
                i < runs.len(),
                client.inv(),
                runs == client.lv_for_seq.runs(),
                entries == &client.lv_for_seq.0,
                start == runs[i as int].0,
                start < end,
                forall|seq: int| start <= seq < end ==> #[trigger] client.knows(seq),
                forall|m: int|
                    0 <= m < runs.len() ==> (#[trigger] runs[m]) == (
                        entries@[m].0 as int,
                        entries@[m].1,
                    ),
                start <= runs[after - 1].0,
            decreases i,
        {
            let ghost was = start;
            i -= 1;
            assert(runs[i as int] == (entries@[i as int].0 as int, entries@[i as int].1));
            start = entries[i].0;
            proof {
                assert forall|seq: int| start <= seq < end implies #[trigger] client.knows(
                    seq,
                ) by {
                    if seq < was {
                        assert(rle::covers::<DTRange>(runs, i as int, seq));
                    }
                }
            }
        }
        assert(!client.knows(start - 1)) by {
            if client.knows(start - 1) {
                let m = rle::run_of::<DTRange>(runs, start - 1);
                assert(rle::covers::<DTRange>(runs, m, start - 1));
                if m > i {
                    assert(rle::end_of::<DTRange>(runs, i as int) <= runs[m].0);
                } else if m < i {
                    assert(rle::end_of::<DTRange>(runs, m) <= runs[i as int].0);
                    if m < i - 1 {
                        assert(rle::end_of::<DTRange>(runs, m) <= runs[i - 1].0);
                        assert(DTRange::valid(runs[i - 1].1));
                        assert(rle::end_of::<DTRange>(runs, i - 1) <= runs[i as int].0);
                    }
                }
            }
        }
        let mut j: usize = after;
        while j < entries.len() && entries[j].0 == end
            invariant
                0 < after <= j <= runs.len(),
                client.inv(),
                runs == client.lv_for_seq.runs(),
                entries == &client.lv_for_seq.0,
                end == rle::end_of::<DTRange>(runs, j - 1),
                start < end,
                seq_range.start < end,
                forall|m: int| after <= m < runs.len() ==> (#[trigger] runs[m]).0 > seq_range.end - 1,
                forall|seq: int| start <= seq < end ==> #[trigger] client.knows(seq),
                forall|m: int|
                    0 <= m < runs.len() ==> (#[trigger] runs[m]) == (
                        entries@[m].0 as int,
                        entries@[m].1,
                    ),
            decreases entries.len() - j,
        {
            let ghost was = end;
            assert(runs[j as int] == (entries@[j as int].0 as int, entries@[j as int].1));
            end = client.seq_end(j);
            proof {
                assert forall|seq: int| start <= seq < end implies #[trigger] client.knows(
                    seq,
                ) by {
                    if seq >= was {
                        assert(rle::covers::<DTRange>(runs, j as int, seq));
                    }
                }
            }
            j += 1;
        }
        assert forall|seq: int| client.knows(seq) && seq >= end implies seq > end && seq
            >= seq_range.end by {
            let m = rle::run_of::<DTRange>(runs, seq);
            assert(rle::covers::<DTRange>(runs, m, seq));
            if m < j - 1 {
                assert(rle::end_of::<DTRange>(runs, m) <= runs[j - 1].0);
                assert(DTRange::valid(runs[j - 1].1));
            }
            assert(m >= j);
            assert(rle::end_of::<DTRange>(runs, j - 1) <= runs[j as int].0);
            assert(runs[m].0 > seq_range.end - 1);
            if m > j {
                assert(rle::end_of::<DTRange>(runs, j as int) <= runs[m].0);
                assert(DTRange::valid(runs[j as int].1));
            }
        }
        let out = DTRange { start, end };
        proof {
            assert forall|seq: int| out.has(seq) implies #[trigger] self.knows(
                agent as int,
                seq,
            ) by {
                assert(client.knows(seq));
            }
            assert forall|seq: int| out.end <= seq < seq_range.end implies !#[trigger] self.knows(
                agent as int,
                seq,
            ) by {
                if client.knows(seq) {
                    assert(seq >= seq_range.end);
                }
            }
        }
        Some(out)
    }

    /// Drops every agent from `keep` on, none of which may have an event. Used when
    /// a partly decoded file is rolled back.
    #[verifier::rlimit(50)]
    pub fn truncate_agents(&mut self, keep: usize)
        requires
            old(self).inv(),
            keep <= old(self).agents(),
            forall|lv: int|
                0 <= lv < old(self).size() ==> (#[trigger] old(self).id_of(lv)).0 < keep,
        ensures
            final(self).inv(),
            final(self).client_with_lv == old(self).client_with_lv,
            final(self).client_data@ == old(self).client_data@.take(keep as int),
    {
        let ghost was = *self;
        while self.client_data.len() > keep
            invariant
                was.inv(),
                keep <= self.client_data@.len() <= was.client_data@.len(),
                self.client_with_lv == was.client_with_lv,
                self.client_data@ == was.client_data@.take(self.client_data@.len() as int),
                self.named(),
            decreases self.client_data@.len(),
        {
            let ghost before = *self;
            match self.client_data.pop() {
                Some(client) => {
                    self.agent_ids.remove(client.name.as_str());
                    proof {
                        let n = self.client_data@.len() as int;
                        assert(client.name@ == before.name_of(n));
                        assert(self.client_data@ =~= was.client_data@.take(n));
                        assert forall|a: int| 0 <= a < n implies {
                            &&& self.agent_ids@.contains_key(#[trigger] self.name_of(a))
                            &&& self.agent_ids@[self.name_of(a)] == a
                        } by {
                            assert(self.name_of(a) == before.name_of(a));
                            assert(before.agent_ids@[before.name_of(n)] == n);
                        }
                        assert forall|name: Seq<char>| #[trigger]
                            self.agent_ids@.contains_key(name) implies {
                            let a = self.agent_ids@[name] as int;
                            a < n && self.name_of(a) == name
                        } by {
                            assert(before.agent_ids@.contains_key(name));
                        }
                    }
                },
                None => {},
            }
        }
        proof {
            assert forall|a: int| 0 <= a < self.client_data@.len() implies (
            #[trigger] self.client_data@[a]).inv() by {
                assert(was.client_data@[a].inv());
            }
            assert forall|agent: int, seq: int| #[trigger] self.knows(agent, seq) implies {
                let lv = self.lv_of(agent, seq);
                0 <= lv < self.size() && self.id_of(lv) == (agent as AgentId, seq)
            } by {
                assert(was.knows(agent, seq));
            }
            assert forall|lv: int|
                #![trigger self.id_of(lv)]
                0 <= lv < self.size() implies {
                let (agent, seq) = self.id_of(lv);
                self.knows(agent as int, seq) && self.lv_of(agent as int, seq) == lv
            } by {
                assert(was.id_of(lv) == self.id_of(lv));
                assert(was.id_of(lv).0 < keep);
            }
        }
    }

    /// The name of an agent.
    pub fn get_agent_name(&self, agent: AgentId) -> (out: &str)
        requires
            agent < self.agents(),
        ensures
            out@ == self.name_of(agent as int),
    {
        self.client_data[agent as usize].name.as_str()
    }

    /// The events of an agent as triples of a sequence number, a local version and
    /// a length, in sequence order: the sequence numbers from the first on stand
    /// for the local versions from the second on.
    pub fn iter_lv_map_for_agent(&self, agent: AgentId) -> (out: Vec<(usize, usize, usize)>)
        requires
            self.inv(),
            agent < self.agents(),
        ensures
            ({
                let runs = self.client_data@[agent as int].lv_for_seq.runs();
                &&& out@.len() == runs.len()
                &&& forall|i: int|
                    0 <= i < out@.len() ==> {
                        let (seq, lv, len) = #[trigger] out@[i];
                        &&& seq == runs[i].0
                        &&& lv == runs[i].1.start
                        &&& len == runs[i].1.size()
                    }
            }),
    {
        let client = &self.client_data[agent as usize];
        let ghost runs = client.lv_for_seq.runs();
        let entries = &client.lv_for_seq.0;
        let mut out: Vec<(usize, usize, usize)> = Vec::new();
        let mut i: usize = 0;
        assert(client.inv());
        while i < entries.len()
            invariant
                client.inv(),
                runs == client.lv_for_seq.runs(),
                entries == &client.lv_for_seq.0,
                i <= runs.len(),
                out@.len() == i,
                forall|j: int|
                    0 <= j < i ==> {
                        let (seq, lv, len) = #[trigger] out@[j];
                        &&& seq == runs[j].0
                        &&& lv == runs[j].1.start
                        &&& len == runs[j].1.size()
                    },
            decreases entries.len() - i,
        {
            let KVPair(seq, range) = entries[i];
            assert(runs[i as int] == (seq as int, range));
            out.push((seq, range.start, range.len()));
            i += 1;
        }
        out
    }

    /// How many events there are.
    pub fn len(&self) -> (out: usize)
        requires
            self.inv(),
        ensures
            out == self.size(),
    {
        self.client_with_lv.end()
    }

    pub fn is_empty(&self) -> (out: bool)
        requires
            self.inv(),
        ensures
            out == (self.size() == 0),
    {
        proof {
            let runs = self.client_with_lv.runs();
            if runs.len() > 0 {
                assert(AgentSpan::valid(runs[runs.len() - 1].1));
            }
        }
        self.client_with_lv.is_empty()
    }

    pub fn local_to_agent_version(&self, version: LV) -> (out: AgentVersion)
        requires
            self.inv(),
            version < self.size(),
        ensures
            out.0 == self.id_of(version as int).0,
            out.1 == self.id_of(version as int).1,
            out.0 < self.agents(),
            self.knows(out.0 as int, out.1 as int),
            self.lv_of(out.0 as int, out.1 as int) == version,
    {
        let ghost runs = self.client_with_lv.runs();
        proof {
            rle::lemma_packed::<AgentSpan>(runs, version as int);
            let (agent, seq) = self.id_of(version as int);
            assert(self.knows(agent as int, seq));
        }
        let i = self.client_with_lv.find_index(version).unwrap();
        let entry = &self.client_with_lv.0[i];
        assert(runs[i as int] == (entry.0 as int, entry.1));
        (entry.1.agent, entry.1.seq_range.start + (version - entry.0))
    }

    /// The events from `version.start` on, as far as they are stored together; at
    /// most as many as `version` has.
    pub fn local_span_to_agent_span(&self, version: DTRange) -> (out: AgentSpan)
        requires
            self.inv(),
            version.start < self.size(),
            version.start < version.end,
        ensures
            out.seq_range.start < out.seq_range.end,
            forall|k: int|
                0 <= k < out.seq_range.size() ==> #[trigger] self.id_of(version.start + k) == (
                    out.agent,
                    out.seq_range.start + k,
                ),
            out.seq_range.size() == self.together(version),
    {
        let ghost runs = self.client_with_lv.runs();
        proof {
            rle::lemma_packed::<AgentSpan>(runs, version.start as int);
        }
        let i = self.client_with_lv.find_index(version.start).unwrap();
        let entry = &self.client_with_lv.0[i];
        assert(runs[i as int] == (entry.0 as int, entry.1));
        let start = entry.1.seq_range.start + (version.start - entry.0);
        let room = entry.1.seq_range.end - start;
        let want = version.end - version.start;
        let end = if room < want {
            entry.1.seq_range.end
        } else {
            start + want
        };
        proof {
            assert forall|k: int| 0 <= k < end - start implies #[trigger] self.id_of(
                version.start + k,
            ) == (entry.1.agent, start + k) by {
                let key = version.start + k;
                assert(rle::covers::<AgentSpan>(runs, i as int, key));
                rle::lemma_unique::<AgentSpan>(runs, i as int, key);
            }
        }
        AgentSpan { agent: entry.1.agent, seq_range: DTRange { start, end } }
    }

    /// How many events from `version.start` on are stored together, up to the end
    /// of `version`.
    pub open spec fn together(&self, version: DTRange) -> int {
        let runs = self.client_with_lv.runs();
        let end = rle::end_of::<AgentSpan>(
            runs,
            rle::run_of::<AgentSpan>(runs, version.start as int),
        );
        if end < version.end {
            end - version.start
        } else {
            version.size()
        }
    }

    pub fn try_agent_version_to_lv(&self, version: AgentVersion) -> (out: Option<LV>)
        requires
            self.inv(),
        ensures
            out is Some <==> self.knows(version.0 as int, version.1 as int),
            out matches Some(lv) ==> {
                &&& lv < self.size()
                &&& lv == self.lv_of(version.0 as int, version.1 as int)
                &&& self.id_of(lv as int) == (version.0, version.1 as int)
            },
    {
        if (version.0 as usize) < self.client_data.len() {
            proof {
                assert(self.client_data@[version.0 as int].inv());
                if self.knows(version.0 as int, version.1 as int) {
                    let lv = self.lv_of(version.0 as int, version.1 as int);
                    assert(self.id_of(lv) == (version.0, version.1 as int));
                }
            }
            self.client_data[version.0 as usize].try_seq_to_lv(version.1)
        } else {
            None
        }
    }

    /// Whether another assignment counts on where this one stopped, with events of
    /// `agent` up to before `end`.
    pub open spec fn counts_on(&self, now: AgentAssignment, agent: AgentId, end: int) -> bool {
        forall|a: int|
            0 <= a < self.agents() ==> #[trigger] now.next_seq(a) == if a == agent && end
                > self.next_seq(a) {
                end
            } else {
                self.next_seq(a)
            }
    }

    /// Gives the next local versions to events of an agent none of which is known.
    pub fn assign_lv_to_span(&mut self, agent: AgentId, seq: usize, span: DTRange)
        requires
            old(self).inv(),
            agent < old(self).agents(),
            span.start == old(self).size(),
            span.start < span.end,
            seq + span.size() <= usize::MAX,
            forall|s: int|
                seq <= s < seq + span.size() ==> !#[trigger] old(self).knows(agent as int, s),
        ensures
            final(self).inv(),
            final(self).size() == span.end,
            final(self).agents() == old(self).agents(),
            forall|a: int|
                0 <= a < old(self).agents() ==> #[trigger] final(self).name_of(a) == old(self).name_of(a),
            forall|lv: int|
                0 <= lv < span.start ==> #[trigger] final(self).id_of(lv) == old(self).id_of(lv),
            forall|lv: int|
                span.has(lv) ==> #[trigger] final(self).id_of(lv) == (
                    agent,
                    seq + (lv - span.start),
                ),
            final(self).client_with_lv.runs() == rle::pushed::<AgentSpan>(
                old(self).client_with_lv.runs(),
                span.start as int,
                assigned(agent, seq as int, span),
            ),
            old(self).counts_on(*final(self), agent, seq + span.size()),
    {
        let ghost was = *self;
        let ghost runs = self.client_with_lv.runs();
        let ghost theirs = self.client_data@[agent as int].lv_for_seq.runs();
        let added = AgentSpan {
            agent,
            seq_range: DTRange { start: seq, end: seq + (span.end - span.start) },
        };
        proof {
            assert(self.client_data@[agent as int].inv());
            assert(rle::clear::<DTRange>(theirs, seq as int, seq + span.size())) by {
                assert forall|s: int| seq <= s < seq + span.size() implies !#[trigger] rle::has::<
                    DTRange,
                >(theirs, s) by {
                    assert(!self.knows(agent as int, s));
                }
            }
            rle::lemma_pushed::<AgentSpan>(runs, span.start as int, added);
        }
        self.client_data[agent as usize].lv_for_seq.insert(seq, span);
        self.client_with_lv.push(span.start, added);
        proof {
            self.lemma_assigned(was, agent, seq as int, span);
            if was.next_seq(agent as int) > seq {
                lemma_hole(theirs, seq as int, seq + span.size());
            }
        }
    }

    #[verifier::rlimit(50)]
    proof fn lemma_assigned(&self, was: AgentAssignment, agent: AgentId, seq: int, span: DTRange)
        requires
            was.inv(),
            agent < was.agents(),
            span.start == was.size(),
            span.start < span.end,
            0 <= seq && seq + span.size() <= usize::MAX,
            forall|s: int| seq <= s < seq + span.size() ==> !#[trigger] was.knows(agent as int, s),
            self.client_data@.len() == was.client_data@.len(),
            forall|a: int|
                0 <= a < was.agents() && a != agent ==> self.client_data@[a]
                    == #[trigger] was.client_data@[a],
            self.client_data@[agent as int].name == was.client_data@[agent as int].name,
            rle::added::<DTRange>(
                was.client_data@[agent as int].lv_for_seq.runs(),
                self.client_data@[agent as int].lv_for_seq.runs(),
                seq,
                span,
            ),
            self.client_with_lv.runs() == rle::pushed::<AgentSpan>(
                was.client_with_lv.runs(),
                span.start as int,
                assigned(agent, seq, span),
            ),
            self.agent_ids == was.agent_ids,
        ensures
            self.inv(),
            self.size() == span.end,
            forall|a: int|
                0 <= a < was.agents() ==> #[trigger] self.name_of(a) == was.name_of(a),
            forall|lv: int| 0 <= lv < span.start ==> #[trigger] self.id_of(lv) == was.id_of(lv),
            forall|lv: int|
                span.has(lv) ==> #[trigger] self.id_of(lv) == (agent, seq + (lv - span.start)),
    {
        let runs = was.client_with_lv.runs();
        let added = assigned(agent, seq, span);
        rle::lemma_pushed::<AgentSpan>(runs, span.start as int, added);
        assert forall|a: int| 0 <= a < was.agents() implies #[trigger] self.name_of(a)
            == was.name_of(a) by {
            if a != agent {
                assert(self.client_data@[a] == was.client_data@[a]);
            }
        }
        assert forall|lv: int| 0 <= lv < span.start implies #[trigger] self.id_of(lv)
            == was.id_of(lv) by {
            rle::lemma_packed::<AgentSpan>(runs, lv);
        }
        assert forall|lv: int| span.has(lv) implies #[trigger] self.id_of(lv) == (
            agent,
            seq + (lv - span.start),
        ) by {}
        assert forall|a: int| 0 <= a < self.client_data@.len() implies (
        #[trigger] self.client_data@[a]).inv() by {
            if a != agent {
                assert(self.client_data@[a] == was.client_data@[a]);
            }
        }
        assert(self.named()) by {
            assert forall|a: int| 0 <= a < self.client_data@.len() implies {
                &&& self.agent_ids@.contains_key(#[trigger] self.name_of(a))
                &&& self.agent_ids@[self.name_of(a)] == a
            } by {
                assert(was.agent_ids@.contains_key(was.name_of(a)));
            }
            assert forall|n: Seq<char>| #[trigger] self.agent_ids@.contains_key(n) implies {
                let a = self.agent_ids@[n] as int;
                a < self.client_data@.len() && self.name_of(a) == n
            } by {
                assert(was.agent_ids@.contains_key(n));
                assert(self.name_of(was.agent_ids@[n] as int) == was.name_of(
                    was.agent_ids@[n] as int,
                ));
            }
        }
        assert forall|lv: int|
            #![trigger self.id_of(lv)]
            0 <= lv < self.size() implies {
            let (a, s) = self.id_of(lv);
            self.knows(a as int, s) && self.lv_of(a as int, s) == lv
        } by {
            let (a, s) = self.id_of(lv);
            if lv < span.start {
                assert(was.id_of(lv) == self.id_of(lv));
                assert(was.knows(a as int, s));
                if a != agent {
                    assert(self.client_data@[a as int] == was.client_data@[a as int]);
                }
            }
        }
        assert forall|a: int, s: int| #[trigger] self.knows(a, s) implies {
            let lv = self.lv_of(a, s);
            0 <= lv < self.size() && self.id_of(lv) == (a as AgentId, s)
        } by {
            if a != agent {
                assert(self.client_data@[a] == was.client_data@[a]);
                assert(was.knows(a, s));
                assert(self.id_of(was.lv_of(a, s)) == was.id_of(was.lv_of(a, s)));
            } else if seq <= s < seq + span.size() {
                let lv = self.lv_of(a, s);
                assert(lv == span.start + (s - seq));
                assert(span.has(lv));
            } else {
                assert(was.knows(a, s));
                assert(self.id_of(was.lv_of(a, s)) == was.id_of(was.lv_of(a, s)));
            }
        }
    }

    /// Gives the next local versions, `span`, to the next events of an agent.
    pub fn assign_lv_to_client_next_seq(&mut self, agent: AgentId, span: DTRange)
        requires
            old(self).inv(),
            agent < old(self).agents(),
            span.start == old(self).size(),
            span.start < span.end,
            old(self).client_data@[agent as int].next_seq() + span.size() <= usize::MAX,
        ensures
            final(self).inv(),
            final(self).size() == span.end,
            final(self).agents() == old(self).agents(),
            forall|a: int|
                0 <= a < old(self).agents() ==> #[trigger] final(self).name_of(a) == old(self).name_of(a),
            forall|lv: int|
                0 <= lv < span.start ==> #[trigger] final(self).id_of(lv) == old(self).id_of(lv),
            forall|lv: int|
                span.has(lv) ==> #[trigger] final(self).id_of(lv) == (
                    agent,
                    old(self).client_data@[agent as int].next_seq() + (lv - span.start),
                ),
            final(self).client_with_lv.runs() == rle::pushed::<AgentSpan>(
                old(self).client_with_lv.runs(),
                span.start as int,
                assigned(agent, old(self).client_data@[agent as int].next_seq(), span),
            ),
            old(self).counts_on(
                *final(self),
                agent,
                old(self).next_seq(agent as int) + span.size(),
            ),
    {
        assert(self.client_data@[agent as int].inv());
        let next_seq = self.client_data[agent as usize].get_next_seq();
        proof {
            assert forall|s: int| next_seq <= s < next_seq + span.size() implies !#[trigger] self.knows(
                agent as int,
                s,
            ) by {
                if self.client_data@[agent as int].knows(s) {
                    assert(s < next_seq);
                }
            }
        }
        self.assign_lv_to_span(agent, next_seq, span);
    }

    /// Whether one event comes before another: by the authors' names, then by
    /// the authors' counts.
    pub open spec fn version_less(&self, v1: AgentVersion, v2: AgentVersion) -> bool {
        let n1 = self.name_of(v1.0 as int);
        let n2 = self.name_of(v2.0 as int);
        smart_string::text_less(n1, n2) || n1 == n2 && v1.1 < v2.1
    }

    /// Whether the event with one local version comes before that with another,
    /// by author.
    pub open spec fn lv_less(&self, v1: LV, v2: LV) -> bool {
        let (a1, s1) = self.id_of(v1 as int);
        let (a2, s2) = self.id_of(v2 as int);
        self.version_less((a1, s1 as usize), (a2, s2 as usize))
    }

    /// No event comes before itself.
    proof fn lemma_not_less(&self, v: AgentVersion)
        ensures
            !self.version_less(v, v),
    {
        let name = self.name_of(v.0 as int);
        smart_string::lemma_text_less(name, name);
    }

    /// Breaks ties between events.
    pub fn tie_break_agent_versions(&self, v1: AgentVersion, v2: AgentVersion) -> (out: Ordering)
        requires
            v1 != v2 ==> v1.0 < self.agents() && v2.0 < self.agents(),
        ensures
            out == Ordering::Less <==> self.version_less(v1, v2),
            out == Ordering::Greater <==> self.version_less(v2, v1),
            v1 == v2 ==> out == Ordering::Equal,
    {
        if v1.0 == v2.0 && v1.1 == v2.1 {
            proof {
                self.lemma_not_less(v1);
            }
            Ordering::Equal
        } else {
            let c1 = self.client_of(v1.0);
            let c2 = self.client_of(v2.0);
            match c1.name.text_order(&c2.name) {
                Ordering::Less => Ordering::Less,
                Ordering::Greater => Ordering::Greater,
                Ordering::Equal => if v1.1 < v2.1 {
                    Ordering::Less
                } else if v1.1 > v2.1 {
                    Ordering::Greater
                } else {
                    Ordering::Equal
                },
            }
        }
    }

    fn client_of(&self, agent: AgentId) -> (out: &ClientData)
        requires
            agent < self.agents(),
        ensures
            *out == self.client_data@[agent as int],
    {
        &self.client_data[agent as usize]
    }

    pub fn tie_break_versions(&self, v1: LV, v2: LV) -> (out: Ordering)
        requires
            self.inv(),
            v1 < self.size(),
            v2 < self.size(),
        ensures
            out == Ordering::Less <==> self.lv_less(v1, v2),
            out == Ordering::Greater <==> self.lv_less(v2, v1),
            out == Ordering::Equal <==> v1 == v2,
    {
        proof {
            self.lemma_tie(v1, v2);
        }
        if v1 == v2 {
            Ordering::Equal
        } else {
            let a1 = self.local_to_agent_version(v1);
            let a2 = self.local_to_agent_version(v2);
            self.tie_break_agent_versions(a1, a2)
        }
    }

    /// Whether the event with one local version comes before that with another,
    /// by author.
    pub fn comes_before(&self, v1: LV, v2: LV) -> (out: bool)
        requires
            self.inv(),
            v1 < self.size(),
            v2 < self.size(),
        ensures
            out == self.lv_less(v1, v2),
    {
        match self.tie_break_versions(v1, v2) {
            Ordering::Less => true,
            Ordering::Equal => false,
            Ordering::Greater => false,
        }
    }

    /// Of two different events one comes before the other, and only one; none
    /// comes before itself.
    pub proof fn lemma_tie(&self, v1: LV, v2: LV)
        requires
            self.inv(),
            v1 < self.size(),
            v2 < self.size(),
        ensures
            v1 == v2 ==> !self.lv_less(v1, v2),
            v1 != v2 ==> self.lv_less(v1, v2) != self.lv_less(v2, v1),
    {
        let (a1, s1) = self.id_of(v1 as int);
        let (a2, s2) = self.id_of(v2 as int);
        assert(self.knows(a1 as int, s1) && self.knows(a2 as int, s2));
        rle::lemma_past_end::<DTRange>(self.client_data@[a1 as int].lv_for_seq.runs(), s1);
        rle::lemma_past_end::<DTRange>(self.client_data@[a2 as int].lv_for_seq.runs(), s2);
        assert(self.client_data@[a1 as int].inv());
        assert(self.client_data@[a2 as int].inv());
        let n1 = self.name_of(a1 as int);
        let n2 = self.name_of(a2 as int);
        smart_string::lemma_text_less(n1, n2);
        if n1 == n2 {
            assert(self.agent_ids@[n1] == a1 as int);
            assert(self.agent_ids@[n2] == a2 as int);
        }
    }
}

/// A hole in the counts that are known ends before they do.
proof fn lemma_hole(runs: rle::Runs<DTRange>, from: int, to: int)
    requires
        rle::sorted::<DTRange>(runs),
        rle::clear::<DTRange>(runs, from, to),
        0 <= from < rle::end::<DTRange>(runs),
    ensures
        to < rle::end::<DTRange>(runs),
{
    let n = runs.len() - 1;
    let last = rle::end::<DTRange>(runs) - 1;
    assert(runs[n].0 <= last);
    assert(rle::covers::<DTRange>(runs, n, last));
    assert(rle::has::<DTRange>(runs, last));
}

/// The run that stands for the events of `agent` from `seq` on under the local
/// versions `span`.
pub open spec fn assigned(agent: AgentId, seq: int, span: DTRange) -> AgentSpan {
    AgentSpan {
        agent,
        seq_range: DTRange { start: seq as usize, end: (seq + span.size()) as usize },
    }
}

} // verus!
