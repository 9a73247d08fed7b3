//! Copies of a log.

use crate::agent_assignment::{AgentAssignment, AgentId, ClientData};
use crate::causal_graph::CausalGraph;
use crate::graph::Graph;
use crate::oplog::ListOpLog;
use crate::rle::RleVal;
use vstd::prelude::*;
use vstd::hash_map::StringHashMap;

verus! {

impl AgentAssignment {
    /// Whether another assignment says the same.
    pub open spec fn same(&self, other: AgentAssignment) -> bool {
        &&& self.client_with_lv.runs() == other.client_with_lv.runs()
        &&& self.agents() == other.agents()
        &&& forall|a: int|
            0 <= a < self.agents() ==> {
                &&& #[trigger] self.name_of(a) == other.name_of(a)
                &&& self.client_data@[a].lv_for_seq.runs()
                    == other.client_data@[a].lv_for_seq.runs()
            }
        &&& self.agent_ids@ == other.agent_ids@
    }

    #[verifier::rlimit(50)]
    pub fn copied(&self) -> (out: AgentAssignment)
        requires
            self.inv(),
        ensures
            out.inv(),
            out.same(*self),
    {
        let mut client_data: Vec<ClientData> = Vec::new();
        let mut agent_ids: StringHashMap<AgentId> = StringHashMap::new();
        let mut i: usize = 0;
        while i < self.client_data.len()
            invariant
                self.inv(),
                i <= self.client_data@.len(),
                client_data@.len() == i,
                forall|a: int|
                    0 <= a < i ==> {
                        &&& (#[trigger] client_data@[a]).name@ == self.name_of(a)
                        &&& client_data@[a].lv_for_seq.runs()
                            == self.client_data@[a].lv_for_seq.runs()
                    },
                forall|name: Seq<char>| #[trigger]
                    agent_ids@.contains_key(name) <==> self.agent_ids@.contains_key(name)
                        && self.agent_ids@[name] < i,
                forall|name: Seq<char>| #[trigger]
                    agent_ids@.contains_key(name) ==> agent_ids@[name] == self.agent_ids@[name],
            decreases self.client_data@.len() - i,
        {
            let c = &self.client_data[i];
            proof {
                assert(self.name_of(i as int) == c.name@);
                assert(self.agent_ids@.contains_key(self.name_of(i as int)));
            }
            let ghost before = agent_ids@;
            agent_ids.insert(c.name.to_string(), i as AgentId);
            client_data.push(
                ClientData { name: c.name.clone(), lv_for_seq: c.lv_for_seq.copied() },
            );
            proof {
                let name = self.name_of(i as int);
                assert forall|n: Seq<char>| #[trigger] agent_ids@.contains_key(
                    n,
                ) <==> self.agent_ids@.contains_key(n) && self.agent_ids@[n] < i + 1 by {
                    if self.agent_ids@.contains_key(n) && self.agent_ids@[n] == i {
                        assert(self.name_of(i as int) == n);
                    }
                    if n != name {
                        assert(agent_ids@.contains_key(n) == before.contains_key(n));
                    }
                }
                assert forall|n: Seq<char>| #[trigger]
                    agent_ids@.contains_key(n) implies agent_ids@[n] == self.agent_ids@[n] by {
                    if n != name {
                        assert(before.contains_key(n));
                    }
                }
            }
            i += 1;
        }
        let out = AgentAssignment {
            client_with_lv: self.client_with_lv.copied(),
            client_data,
            agent_ids,
        };
        proof {
            assert(out.agent_ids@ =~= self.agent_ids@) by {
                assert forall|n: Seq<char>| #[trigger] self.agent_ids@.contains_key(
                    n,
                ) implies out.agent_ids@.contains_key(n) by {}
            }
            assert forall|a: int| 0 <= a < out.agents() implies {
                &&& #[trigger] out.name_of(a) == self.name_of(a)
                &&& out.client_data@[a].lv_for_seq.runs()
                    == self.client_data@[a].lv_for_seq.runs()
            } by {
                assert(out.client_data@[a].name@ == self.name_of(a));
            }
            self.lemma_same(out);
        }
        out
    }

    /// An assignment that says the same is as sound.
    #[verifier::rlimit(40)]
    proof fn lemma_same(&self, other: AgentAssignment)
        requires
            self.inv(),
            other.same(*self),
        ensures
            other.inv(),
    {
        assert forall|a: int| 0 <= a < other.client_data@.len() implies (
        #[trigger] other.client_data@[a]).inv() by {
            assert(other.name_of(a) == self.name_of(a));
            assert(self.client_data@[a].inv());
        }
        assert forall|a: int| 0 <= a < other.client_data@.len() implies {
            &&& other.agent_ids@.contains_key(#[trigger] other.name_of(a))
            &&& other.agent_ids@[other.name_of(a)] == a
            &&& crate::agent_assignment::name_fits(other.name_of(a))
        } by {
            assert(self.agent_ids@.contains_key(self.name_of(a)));
        }
        assert forall|n: Seq<char>| #[trigger] other.agent_ids@.contains_key(n) implies {
            let a = other.agent_ids@[n] as int;
            a < other.client_data@.len() && other.name_of(a) == n
        } by {
            assert(self.agent_ids@.contains_key(n));
            let a = self.agent_ids@[n] as int;
            assert(self.name_of(a) == n);
            assert(other.name_of(a) == self.name_of(a));
        }
        assert forall|agent: int, seq: int| #[trigger] other.knows(agent, seq) == self.knows(
            agent,
            seq,
        ) by {
            if 0 <= agent < self.agents() {
                assert(other.name_of(agent) == self.name_of(agent));
            }
        }
        assert forall|lv: int|
            #![trigger other.id_of(lv)]
            0 <= lv < other.size() implies {
            let (agent, seq) = other.id_of(lv);
            other.knows(agent as int, seq) && other.lv_of(agent as int, seq) == lv
        } by {
            let (agent, seq) = self.id_of(lv);
            assert(self.knows(agent as int, seq) && self.lv_of(agent as int, seq) == lv);
            assert(other.knows(agent as int, seq));
            assert(other.name_of(agent as int) == self.name_of(agent as int));
        }
        assert forall|agent: int, seq: int|
            #![trigger other.knows(agent, seq)]
            other.knows(agent, seq) implies {
            let lv = other.lv_of(agent, seq);
            0 <= lv < other.size() && other.id_of(lv) == (agent as AgentId, seq)
        } by {
            assert(self.knows(agent, seq));
            assert(other.name_of(agent) == self.name_of(agent));
        }
    }
}

impl ListOpLog {
    /// A copy of the log, with the same numbers for events and agents.
    pub fn copied(&self) -> (out: ListOpLog)
        requires
            self.inv(),
        ensures
            out.inv(),
            out.hist() == self.hist(),
            out.cg.version@ == self.cg.version@,
            out.cg.agent_assignment.same(self.cg.agent_assignment),
            out.cg.graph.entries.runs() == self.cg.graph.entries.runs(),
            out.operations.runs() == self.operations.runs(),
    {
        let out = ListOpLog {
            cg: CausalGraph {
                graph: Graph { entries: self.cg.graph.entries.copied() },
                agent_assignment: self.cg.agent_assignment.copied(),
                version: self.cg.version.clone(),
            },
            operations: self.operations.copied(),
        };
        proof {
            assert(out.cg.parents() =~= self.cg.parents());
            self.lemma_hist();
            assert forall|v: int| 0 <= v < self.size() implies #[trigger] out.id_of(v)
                == self.id_of(v) by {
                let a = self.cg.agent_assignment.id_of(v).0 as int;
                assert(out.cg.agent_assignment.id_of(v) == self.cg.agent_assignment.id_of(v));
                assert(a < self.cg.agent_assignment.agents());
                assert(out.cg.agent_assignment.name_of(a) == self.cg.agent_assignment.name_of(a));
            }
            assert(out.hist() =~= self.hist());
        }
        out
    }
}

} // verus!
