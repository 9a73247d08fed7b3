//! Events by their author's name and count, which is how peers name them to each other.

use crate::agent_assignment::{AgentAssignment, AgentId, AgentSpan, LV};
use crate::events;
use crate::full_range::RemoteVersionSpan;
use crate::oplog::ListOpLog;
use crate::range::DTRange;
use crate::rle;
use crate::rle::RleVal;
use vstd::prelude::*;

verus! {

/// An event by its author's name and count.
#[derive(Debug, Clone, Copy, PartialEq, Eq)]
pub struct RemoteVersion<'a>(pub &'a str, pub usize);

impl<'a> View for RemoteVersion<'a> {
    type V = (Seq<char>, int);

    open spec fn view(&self) -> (Seq<char>, int) {
        (self.0@, self.1 as int)
    }
}

/// Why an event is not known.
#[derive(Debug, Clone, Copy, PartialEq, Eq, Structural)]
pub enum VersionConversionError {
    /// No event of its author is.
    UnknownAgent,
    /// Its author is, but not the event.
    SeqInFuture,
}

impl AgentAssignment {
    /// Whether an agent has this name.
    pub open spec fn knows_name(&self, name: Seq<char>) -> bool {
        exists|a: int| 0 <= a < self.agents() && #[trigger] self.name_of(a) == name
    }

    /// The local version of an event.
    pub fn try_remote_to_local_version(&self, rv: RemoteVersion<'_>) -> (out: Result<
        LV,
        VersionConversionError,
    >)
        requires
            self.inv(),
        ensures
            match out {
                Ok(lv) => {
                    &&& lv < self.size()
                    &&& rv@ == (
                        self.name_of(self.id_of(lv as int).0 as int),
                        self.id_of(lv as int).1,
                    )
                },
                Err(e) => forall|a: int|
                    0 <= a < self.agents() && #[trigger] self.name_of(a) == rv@.0
                        ==> !self.knows(a, rv@.1),
            },
            out == Err::<LV, VersionConversionError>(VersionConversionError::UnknownAgent)
                <==> !self.knows_name(rv@.0),
    {
        match self.get_agent_id(rv.0) {
            None => Err(VersionConversionError::UnknownAgent),
            Some(agent) => {
                assert(self.name_of(agent as int) == rv@.0);
                match self.try_agent_version_to_lv((agent, rv.1)) {
                    Some(lv) => Ok(lv),
                    None => {
                        assert forall|a: int|
                            0 <= a < self.agents() && #[trigger] self.name_of(a)
                                == rv@.0 implies !self.knows(a, rv@.1) by {
                            assert(self.agent_ids@[self.name_of(a)] == a);
                            assert(self.agent_ids@[self.name_of(agent as int)] == agent);
                        }
                        Err(VersionConversionError::SeqInFuture)
                    },
                }
            },
        }
    }

    /// The name of an event.
    pub fn local_to_remote_version(&self, lv: LV) -> (out: RemoteVersion<'_>)
        requires
            self.inv(),
            lv < self.size(),
        ensures
            out@ == (self.name_of(self.id_of(lv as int).0 as int), self.id_of(lv as int).1),
    {
        let (agent, seq) = self.local_to_agent_version(lv);
        RemoteVersion(self.get_agent_name(agent), seq)
    }

    /// The names of the newest events of a version.
    pub fn local_to_remote_frontier(&self, frontier: &[LV]) -> (out: Vec<RemoteVersion<'_>>)
        requires
            self.inv(),
            forall|i: int| 0 <= i < frontier@.len() ==> (#[trigger] frontier@[i]) < self.size(),
        ensures
            out@.len() == frontier@.len(),
            forall|i: int|
                0 <= i < out@.len() ==> (#[trigger] out@[i])@ == (
                    self.name_of(self.id_of(frontier@[i] as int).0 as int),
                    self.id_of(frontier@[i] as int).1,
                ),
    {
        let mut out: Vec<RemoteVersion<'_>> = Vec::new();
        let mut i: usize = 0;
        while i < frontier.len()
            invariant
                self.inv(),
                i <= frontier@.len(),
                out@.len() == i,
                forall|j: int|
                    0 <= j < frontier@.len() ==> (#[trigger] frontier@[j]) < self.size(),
                forall|j: int|
                    0 <= j < out@.len() ==> (#[trigger] out@[j])@ == (
                        self.name_of(self.id_of(frontier@[j] as int).0 as int),
                        self.id_of(frontier@[j] as int).1,
                    ),
            decreases frontier@.len() - i,
        {
            out.push(self.local_to_remote_version(frontier[i]));
            i += 1;
        }
        out
    }

    /// For each stored run of events its author's name and the author's counts.
    pub open spec fn is_mapping(&self, i: int, s: RemoteVersionSpan) -> bool {
        let run = self.client_with_lv.runs()[i];
        s.0@ == self.name_of(run.1.agent as int) && s.1 == run.1.seq_range
    }

    /// The events as runs of their author's counts, in the order of their local versions.
    pub fn iter_remote_mappings(&self) -> (out: Vec<RemoteVersionSpan<'_>>)
        requires
            self.inv(),
        ensures
            out@.len() == self.client_with_lv.runs().len(),
            forall|i: int| 0 <= i < out@.len() ==> self.is_mapping(i, #[trigger] out@[i]),
    {
        let mut out: Vec<RemoteVersionSpan<'_>> = Vec::new();
        let mut i: usize = 0;
        while i < self.client_with_lv.0.len()
            invariant
                self.inv(),
                i <= self.client_with_lv.runs().len(),
                out@.len() == i,
                forall|j: int| 0 <= j < out@.len() ==> self.is_mapping(j, #[trigger] out@[j]),
            decreases self.client_with_lv.runs().len() - i,
        {
            let entry = &self.client_with_lv.0[i];
            proof {
                let runs = self.client_with_lv.runs();
                assert(runs[i as int] == (entry.0 as int, entry.1));
                assert(rle::covers::<AgentSpan>(runs, i as int, entry.0 as int));
                rle::lemma_unique::<AgentSpan>(runs, i as int, entry.0 as int);
                rle::lemma_packed::<AgentSpan>(runs, entry.0 as int);
                let (agent, seq) = self.id_of(entry.0 as int);
                assert(self.knows(agent as int, seq));
            }
            out.push(
                RemoteVersionSpan(self.get_agent_name(entry.1.agent), entry.1.seq_range),
            );
            i += 1;
        }
        out
    }
}

impl ListOpLog {
    /// Who wrote what is known in the history by what is known of the authors.
    pub proof fn lemma_ids(&self, name: Seq<char>, seq: int)
        requires
            self.inv(),
        ensures
            ({
                let aa = self.cg.agent_assignment;
                events::has_id(self.hist(), (name, seq)) == exists|a: int|
                    0 <= a < aa.agents() && #[trigger] aa.name_of(a) == name && aa.knows(a, seq)
            }),
    {
        let aa = self.cg.agent_assignment;
        let h = self.hist();
        self.lemma_hist();
        if events::has_id(h, (name, seq)) {
            let v = events::place(h, (name, seq));
            assert(h.ids[v] == (name, seq));
            let (agent, s) = aa.id_of(v);
            assert(aa.knows(agent as int, s));
            assert(aa.name_of(agent as int) == name);
        }
        if exists|a: int|
            0 <= a < aa.agents() && #[trigger] aa.name_of(a) == name && aa.knows(a, seq) {
            let a = choose|a: int|
                0 <= a < aa.agents() && #[trigger] aa.name_of(a) == name && aa.knows(a, seq);
            let v = aa.lv_of(a, seq);
            assert(aa.knows(a, seq));
            assert(aa.id_of(v) == (a as u32, seq));
            assert(h.ids[v] == (name, seq));
        }
    }

    /// An agent counts on behind the last of its events that is known.
    pub proof fn law_next_seq(&self, agent: AgentId)
        requires
            self.inv(),
            agent < self.cg.agent_assignment.agents(),
        ensures
            ({
                let name = self.cg.agent_assignment.name_of(agent as int);
                &&& self.next_seq(agent) >= 0
                &&& self.next_seq(agent) > 0 ==> events::has_id(
                    self.hist(),
                    (name, self.next_seq(agent) - 1),
                )
                &&& forall|seq: int| #[trigger]
                    events::has_id(self.hist(), (name, seq)) ==> seq < self.next_seq(agent)
            }),
    {
        let aa = self.cg.agent_assignment;
        let name = aa.name_of(agent as int);
        let client = aa.client_data@[agent as int];
        let runs = client.lv_for_seq.runs();
        let next = self.next_seq(agent);
        assert(client.inv());
        if runs.len() > 0 {
            let n = runs.len() - 1;
            assert(runs[n].0 >= 0);
            assert(rle::covers::<DTRange>(runs, n, next - 1));
            assert(rle::has::<DTRange>(runs, next - 1));
            assert(aa.knows(agent as int, next - 1));
            self.lemma_ids(name, next - 1);
            assert(aa.name_of(agent as int) == name);
        }
        assert forall|seq: int| #[trigger] events::has_id(self.hist(), (name, seq)) implies seq
            < next by {
            self.lemma_ids(name, seq);
            let a = choose|a: int|
                0 <= a < aa.agents() && #[trigger] aa.name_of(a) == name && aa.knows(a, seq);
            assert(aa.agent_ids@[aa.name_of(a)] == a);
            assert(aa.agent_ids@[aa.name_of(agent as int)] == agent);
            rle::lemma_past_end::<DTRange>(runs, seq);
        }
    }

    /// The local version of an event.
    pub fn find_event(&self, name: &str, seq: usize) -> (out: Option<LV>)
        requires
            self.inv(),
        ensures
            match out {
                Some(lv) => {
                    &&& lv < self.size()
                    &&& self.hist().ids[lv as int] == (name@, seq as int)
                    &&& lv == events::place(self.hist(), (name@, seq as int))
                },
                None => !events::has_id(self.hist(), (name@, seq as int)),
            },
            out is Some == events::has_id(self.hist(), (name@, seq as int)),
    {
        proof {
            self.lemma_hist();
            self.lemma_ids(name@, seq as int);
        }
        match self.cg.agent_assignment.try_remote_to_local_version(RemoteVersion(name, seq)) {
            Ok(lv) => {
                proof {
                    let h = self.hist();
                    assert(h.ids[lv as int] == (name@, seq as int));
                    events::lemma_place(h, lv as int);
                }
                Some(lv)
            },
            Err(_) => None,
        }
    }

    /// The names of the newest events.
    pub fn remote_frontier(&self) -> (out: Vec<RemoteVersion<'_>>)
        requires
            self.inv(),
        ensures
            out@.len() == self.cg.version@.len(),
            forall|i: int|
                0 <= i < out@.len() ==> (#[trigger] out@[i])@ == self.hist().ids[self.cg.version@[i] as int],
    {
        proof {
            self.lemma_hist();
            assert forall|i: int| 0 <= i < self.cg.version@.len() implies (
            #[trigger] self.cg.version@[i]) < self.size() by {}
        }
        self.cg.agent_assignment.local_to_remote_frontier(self.cg.version.as_ref())
    }

    /// The events as runs of their author's counts, in the order of their local versions.
    pub fn iter_remote_mappings(&self) -> (out: Vec<RemoteVersionSpan<'_>>)
        requires
            self.inv(),
        ensures
            out@.len() == self.cg.agent_assignment.client_with_lv.runs().len(),
            forall|i: int|
                0 <= i < out@.len() ==> self.cg.agent_assignment.is_mapping(
                    i,
                    #[trigger] out@[i],
                ),
    {
        self.cg.agent_assignment.iter_remote_mappings()
    }
}

} // verus!
