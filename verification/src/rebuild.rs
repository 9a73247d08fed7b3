//! Writing what a version had seen by way of a second log.

use crate::agent_assignment::{AgentId, LV};
use crate::causal_graph;
use crate::encoding;
use crate::encoding::EncodeOptions;
use crate::events;
use crate::events::EventAbs;
use crate::full_range;
use crate::graph;
use crate::history::Hist;
use crate::observed_history;
use crate::operation::{OpAbs, TextOperation};
use crate::oplog;
use crate::oplog::ListOpLog;
use crate::remote_ops;
use vstd::prelude::*;

verus! {

pub proof fn lemma_chosen_same(
    h: Hist,
    n: int,
    p: spec_fn(int) -> bool,
    q: spec_fn(int) -> bool,
)
    requires
        forall|v: int| 0 <= v < n ==> #[trigger] p(v) == q(v),
    ensures
        events::events_chosen(h, n, p) == events::events_chosen(h, n, q),
    decreases n,
{
    if n > 0 {
        lemma_chosen_same(h, n - 1, p, q);
        assert(p(n - 1) == q(n - 1));
    }
}

pub proof fn lemma_gap(h: Hist, a: int, b: int, chosen: spec_fn(int) -> bool)
    requires
        0 <= a <= b,
        forall|v: int| a <= v < b ==> !#[trigger] chosen(v),
    ensures
        events::events_chosen(h, b, chosen) == events::events_chosen(h, a, chosen),
    decreases b - a,
{
    if a < b {
        lemma_gap(h, a, b - 1, chosen);
        assert(!chosen(b - 1));
    }
}

pub proof fn lemma_span(h: Hist, a: int, b: int, chosen: spec_fn(int) -> bool)
    requires
        0 <= a <= b,
        forall|v: int| a <= v < b ==> #[trigger] chosen(v),
    ensures
        events::events_chosen(h, b, chosen) == events::events_chosen(h, a, chosen)
            + events::events_between(h, a, b),
    decreases b - a,
{
    if a < b {
        lemma_span(h, a, b - 1, chosen);
        assert(chosen(b - 1));
        assert(events::events_between(h, a, b) =~= events::events_between(h, a, b - 1).push(
            events::event_of(h, b - 1),
        ));
        assert(events::events_chosen(h, b, chosen) =~= events::events_chosen(h, a, chosen)
            + events::events_between(h, a, b));
    } else {
        assert(events::events_chosen(h, b, chosen) =~= events::events_chosen(h, a, chosen)
            + events::events_between(h, a, b));
    }
}

/// Which event is the one that comes at place `i` of those chosen.
pub proof fn lemma_chosen_at(h: Hist, n: int, chosen: spec_fn(int) -> bool, i: int) -> (v: int)
    requires
        0 <= i < events::events_chosen(h, n, chosen).len(),
    ensures
        0 <= v < n,
        chosen(v),
        events::events_chosen(h, n, chosen)[i] == events::event_of(h, v),
    decreases n,
{
    let before = events::events_chosen(h, n - 1, chosen);
    if i < before.len() {
        lemma_chosen_at(h, n - 1, chosen, i)
    } else {
        n - 1
    }
}

/// Where a chosen event comes.
pub proof fn lemma_chosen_has(h: Hist, n: int, chosen: spec_fn(int) -> bool, v: int) -> (i: int)
    requires
        0 <= v < n,
        chosen(v),
    ensures
        0 <= i < events::events_chosen(h, n, chosen).len(),
        events::events_chosen(h, n, chosen)[i] == events::event_of(h, v),
    decreases n,
{
    let before = events::events_chosen(h, n - 1, chosen);
    if v == n - 1 {
        before.len() as int
    } else {
        lemma_chosen_has(h, n - 1, chosen, v)
    }
}

/// Whether a log holds exactly the given events.
pub open spec fn holds(log: ListOpLog, evs: Seq<EventAbs>) -> bool {
    log.inv() && events::events_between(log.hist(), 0, log.size()) == evs
}

/// Events that are taken over from another history are what they are there.
proof fn lemma_adopted(
    h: Hist,
    b: Hist,
    here: Seq<usize>,
    parents: Seq<usize>,
    name: Seq<char>,
    seq: int,
    op: OpAbs,
    start: int,
)
    requires
        h.valid(),
        h.len() + op.size() <= usize::MAX,
        full_range::is_run(b, start, op, parents, name, seq),
        events::ids_of(h, here) == events::ids_of(b, parents),
        graph::known(h.parents, here),
    ensures
        events::events_between(
            oplog::extended(h, here, name, seq, op.events()),
            0,
            h.len() + op.size(),
        ) == events::events_between(h, 0, h.len() as int) + events::events_between(
            b,
            start,
            start + op.size(),
        ),
{
    let n = h.len() as int;
    let len = op.size();
    let after = oplog::extended(h, here, name, seq, op.events());
    let told = events::events_between(h, 0, n) + events::events_between(b, start, start + len);
    assert forall|v: int| 0 <= v < n + len implies #[trigger] events::event_of(after, v)
        == told[v] by {
        if v < n {
            let list = h.parents[v];
            assert(after.parents[v] == list);
            assert(events::ids_of(after, list) =~= events::ids_of(h, list)) by {
                assert forall|i: int| 0 <= i < list.len() implies after.ids[list[i] as int]
                    == h.ids[#[trigger] list[i] as int] by {
                    assert(h.parents[v][i] < v);
                }
            }
        } else {
            let k = v - n;
            assert(told[v] == events::event_of(b, start + k));
            assert(b.ops[start + k] == op.event(k));
            assert(op.events()[k] == op.event(k));
            if k == 0 {
                assert(after.parents[v] == here);
                assert(events::ids_of(after, here) =~= events::ids_of(h, here)) by {
                    assert forall|i: int| 0 <= i < here.len() implies after.ids[here[i] as int]
                        == h.ids[#[trigger] here[i] as int] by {
                        assert(here[i] < n);
                    }
                }
            } else {
                let p = (v - 1) as usize;
                let q = (start + k - 1) as usize;
                assert(after.parents[v] == seq![p]);
                assert(b.parents[start + k] == seq![q]);
                assert(b.ids[start + (k - 1)] == (name, seq + (k - 1)));
                assert(after.ids[v - 1] == (name, seq + (k - 1)));
                assert(events::ids_of(after, seq![p]) =~= events::ids_of(b, seq![q]));
            }
        }
    }
    assert(events::events_between(after, 0, n + len) =~= told);
}

impl ListOpLog {
    /// Takes the agents of another log over, under the same numbers.
    fn adopt_agents(&mut self, other: &ListOpLog)
        requires
            old(self).inv(),
            old(self).cg.agent_assignment.agents() == 0,
            other.inv(),
        ensures
            final(self).inv(),
            final(self).hist() == old(self).hist(),
            final(self).size() == old(self).size(),
            final(self).same_agents(*other),
    {
        let n = other.cg.agent_assignment.client_data.len();
        let mut a: usize = 0;
        while a < n
            invariant
                other.inv(),
                n == other.cg.agent_assignment.agents(),
                a <= n,
                self.inv(),
                self.hist() == old(self).hist(),
                self.size() == old(self).size(),
                self.cg.agent_assignment.agents() == a,
                forall|b: int|
                    0 <= b < a ==> #[trigger] self.cg.agent_assignment.name_of(b)
                        == other.cg.agent_assignment.name_of(b),
            decreases n - a,
        {
            let ghost theirs = other.cg.agent_assignment;
            let ghost mine = self.cg.agent_assignment;
            let name = other.cg.agent_assignment.get_agent_name(a as AgentId);
            proof {
                assert(theirs.agent_ids@[theirs.name_of(a as int)] == a);
                assert(crate::agent_assignment::name_fits(theirs.name_of(a as int)));
                assert forall|b: int| 0 <= b < a implies mine.name_of(b) != name@ by {
                    assert(theirs.agent_ids@[theirs.name_of(b)] == b);
                }
            }
            let id = self.get_or_create_agent_id(name);
            proof {
                let now = self.cg.agent_assignment;
                if id < a {
                    assert(now.name_of(id as int) == mine.name_of(id as int));
                }
                assert(id == a);
                assert(now.agents() == a + 1);
                assert forall|b: int| 0 <= b < a + 1 implies #[trigger] now.name_of(b)
                    == theirs.name_of(b) by {
                    if b < a {
                        assert(now.name_of(b) == mine.name_of(b));
                    }
                }
            }
            a += 1;
        }
    }

    /// The local versions here of events of another log.
    fn carry_over(&self, other: &ListOpLog, list: &[LV]) -> (out: Vec<LV>)
        requires
            self.inv(),
            other.inv(),
            forall|i: int|
                0 <= i < list@.len() ==> (#[trigger] list@[i]) < other.size() && events::has_id(
                    self.hist(),
                    other.hist().ids[list@[i] as int],
                ),
        ensures
            events::ids_of(self.hist(), out@) == events::ids_of(other.hist(), list@),
            graph::known(self.cg.parents(), out@),
    {
        let ghost h = self.hist();
        let mut out: Vec<LV> = Vec::new();
        let mut i: usize = 0;
        while i < list.len()
            invariant
                self.inv(),
                other.inv(),
                h == self.hist(),
                forall|j: int|
                    0 <= j < list@.len() ==> (#[trigger] list@[j]) < other.size()
                        && events::has_id(h, other.hist().ids[list@[j] as int]),
                i <= list@.len(),
                out@.len() == i,
                forall|j: int|
                    0 <= j < i ==> (#[trigger] out@[j]) < self.size() && h.ids[out@[j] as int]
                        == other.hist().ids[list@[j] as int],
            decreases list@.len() - i,
        {
            assert(list@[i as int] < other.size());
            let rv = other.cg.agent_assignment.local_to_remote_version(list[i]);
            proof {
                other.lemma_hist();
                assert(other.hist().ids[list@[i as int] as int] == rv@);
            }
            let lv = self.find_event(rv.0, rv.1).unwrap();
            out.push(lv);
            i += 1;
        }
        assert(events::ids_of(h, out@) =~= events::ids_of(other.hist(), list@));
        out
    }

    /// Takes over events of another log that are not here, and follow events that are.
    fn adopt_piece(
        &mut self,
        other: &ListOpLog,
        agent: AgentId,
        seq: usize,
        parents: &[LV],
        op: &TextOperation,
        Ghost(start): Ghost<int>,
        Ghost(done): Ghost<Seq<EventAbs>>,
    )
        requires
            other.inv(),
            holds(*old(self), done),
            agent < old(self).cg.agent_assignment.agents(),
            full_range::is_run(
                other.hist(),
                start,
                op@,
                parents@,
                old(self).cg.agent_assignment.name_of(agent as int),
                seq as int,
            ),
            old(self).size() + op@.size() <= usize::MAX,
            forall|v: int|
                start <= v < start + op@.size() ==> !events::has_id(
                    old(self).hist(),
                    #[trigger] other.hist().ids[v],
                ),
            forall|i: int|
                0 <= i < parents@.len() ==> (#[trigger] parents@[i]) < other.size()
                    && events::has_id(old(self).hist(), other.hist().ids[parents@[i] as int]),
        ensures
            holds(
                *final(self),
                done + events::events_between(other.hist(), start, start + op@.size()),
            ),
            final(self).same_agents(*old(self)),
            final(self).size() == old(self).size() + op@.size(),
    {
        let ghost h = self.hist();
        let ghost b = other.hist();
        let ghost aa = self.cg.agent_assignment;
        let ghost n = self.size();
        let ghost len = op@.size();
        let ghost name = aa.name_of(agent as int);
        let here = self.carry_over(other, parents);
        let mut ops: Vec<TextOperation> = Vec::new();
        ops.push(op.clone());
        proof {
            self.lemma_hist();
            other.lemma_hist();
            assert(oplog::ops_view(ops@) =~= seq![op@]);
            oplog::lemma_events_one(op@);
            assert forall|s: int| seq <= s < seq + len implies !#[trigger] aa.knows(
                agent as int,
                s,
            ) by {
                let v = start + (s - seq);
                assert(b.ids[start + (s - seq)] == (name, s));
                assert(!events::has_id(h, b.ids[v]));
                self.lemma_ids(name, s);
                if aa.knows(agent as int, s) {
                    assert(aa.name_of(agent as int) == name);
                }
            }
            assert(!aa.knows(agent as int, seq as int));
            causal_graph::lemma_skip(aa, agent, seq as int, seq + len, false);
            causal_graph::lemma_skip(aa, agent, seq as int, seq + len, true);
            let evs = op@.events();
            assert(evs.subrange(0, len) =~= evs);
        }
        proof {
            remote_ops::lemma_new_count(
                self.hist(),
                self.cg.agent_assignment.name_of(agent as int),
                seq as int,
                oplog::events_of(oplog::ops_view(ops@)).len(),
            );
        }
        let _added = self.add_operations_remote(agent, here.as_slice(), seq, ops.as_slice());
        proof {
            self.lemma_hist();
            lemma_adopted(h, b, here@, parents@, name, seq as int, op@, start);
        }
    }

    /// What `version` had seen, as bytes, by way of taking it over into a second log.
    ///
    /// Gives what [`ListOpLog::encode_at`] gives.
    #[verifier::rlimit(80)]
    pub fn encode_at_via_rebuild(&self, version: &[LV], opts: &EncodeOptions) -> (out: Vec<u8>)
        requires
            self.inv(),
            graph::known(self.cg.parents(), version@),
        ensures
            out@ == encoding::encoded(
                events::events_chosen(
                    self.hist(),
                    self.size(),
                    |v: int| graph::in_cone(self.cg.parents(), version@, v),
                ),
                *opts,
            ),
    {
        let ghost h = self.hist();
        let ghost g = self.cg.parents();
        let root: Vec<LV> = Vec::new();
        let (_, cone) = self.cg.graph.diff(root.as_slice(), version);
        let ghost seen = |v: int| graph::in_cone(g, version@, v);
        let ghost chosen = |v: int|
            graph::in_cone(g, version@, v) && !graph::in_cone(g, root@, v);
        let mut rebuilt = ListOpLog::new();
        rebuilt.adopt_agents(self);
        let mut i: usize = 0;
        let ghost mut at: int = 0;
        proof {
            self.lemma_hist();
            assert forall|v: int| 0 <= v < self.size() implies #[trigger] chosen(v) == seen(v) by {
                assert(!graph::in_cone(g, root@, v));
            }
            assert(events::events_between(rebuilt.hist(), 0, 0) =~= events::events_chosen(
                h,
                0,
                chosen,
            ));
        }
        while i < cone.len()
            invariant
                self.inv(),
                h == self.hist(),
                h.valid(),
                h.len() == self.size(),
                self.size() <= usize::MAX,
                g == self.cg.parents(),
                graph::are_ranges(cone@, self.size(), chosen),
                seen == |v: int| graph::in_cone(g, version@, v),
                forall|v: int| 0 <= v < self.size() ==> #[trigger] chosen(v) == seen(v),
                i <= cone@.len(),
                at == if i == 0 {
                    0
                } else {
                    cone@[i - 1].end as int
                },
                0 <= at <= self.size(),
                holds(rebuilt, events::events_chosen(h, at, chosen)),
                rebuilt.size() <= at,
                rebuilt.same_agents(*self),
            decreases cone@.len() - i,
        {
            let range = cone[i];
            let pieces = self.iter_full_range(range);
            let ghost all = full_range::pieces_view(pieces@);
            proof {
                assert(cone@[i as int] == range);
                assert forall|v: int| at <= v < range.start implies !#[trigger] chosen(v) by {
                    if chosen(v) {
                        let j = choose|j: int|
                            0 <= j < cone@.len() && (#[trigger] cone@[j]).has(v);
                        if j < i - 1 {
                            assert(cone@[j].end < cone@[i - 1].start);
                        } else if j > i {
                            assert(cone@[i as int].end < cone@[j].start);
                        }
                    }
                }
                if i > 0 {
                    assert(cone@[i - 1].end < cone@[i as int].start);
                }
                lemma_gap(h, at, range.start as int, chosen);
                assert forall|v: int| range.start <= v < range.end implies #[trigger] chosen(
                    v,
                ) by {
                    assert(cone@[i as int].has(v));
                }
                observed_history::lemma_pieces(*self, range.start as int, range.end as int);
                at = range.start as int;
                assert(all.take(0) =~= Seq::<full_range::Piece>::empty());
            }
            let mut j: usize = 0;
            while j < pieces.len()
                invariant
                    self.inv(),
                    h == self.hist(),
                    h.valid(),
                    h.len() == self.size(),
                    self.size() <= usize::MAX,
                    g == self.cg.parents(),
                    seen == |v: int| graph::in_cone(g, version@, v),
                    forall|v: int| 0 <= v < self.size() ==> #[trigger] chosen(v) == seen(v),
                    range.start < range.end <= self.size(),
                    forall|v: int| range.start <= v < range.end ==> #[trigger] chosen(v),
                    all == full_range::pieces_view(pieces@),
                    observed_history::in_a_row(h, all, range.start as int),
                    observed_history::row_end(all, range.start as int) == range.end,
                    j <= pieces@.len(),
                    at == observed_history::row_end(all.take(j as int), range.start as int),
                    range.start <= at <= range.end,
                    holds(rebuilt, events::events_chosen(h, at, chosen)),
                    rebuilt.size() <= at,
                    rebuilt.same_agents(*self),
                decreases pieces@.len() - j,
            {
                let (op, entry, ids) = &pieces[j];
                let ghost p = all[j as int];
                let ghost done = events::events_chosen(h, at, chosen);
                proof {
                    assert(p == full_range::piece_view(pieces@[j as int]));
                    assert(observed_history::piece_holds(h, p));
                    assert(p.start == at);
                    assert(all.take(j + 1).last() == p);
                    lemma_row_bound(h, all, range.start as int, j as int);
                    // The author is one of the log's.
                    assert(h.ids[p.start + 0] == (p.name, p.seq + 0));
                    assert(self.cg.agent_assignment.id_of(at).0
                        < self.cg.agent_assignment.agents());
                    let a = self.cg.agent_assignment.id_of(at).0 as int;
                    assert(rebuilt.cg.agent_assignment.name_of(a) == p.name);
                }
                let agent = rebuilt.cg.agent_assignment.get_agent_id(ids.0).unwrap();
                proof {
                    let r = rebuilt.hist();
                    rebuilt.lemma_hist();
                    assert forall|v: int| p.start <= v < p.start + p.op.size() implies
                        !events::has_id(r, #[trigger] h.ids[v]) by {
                        if events::has_id(r, h.ids[v]) {
                            let x = events::place(r, h.ids[v]);
                            assert(r.ids[x] == h.ids[v]);
                            assert(events::events_between(r, 0, rebuilt.size())[x]
                                == events::event_of(r, x));
                            let w = lemma_chosen_at(h, at, chosen, x);
                            assert(h.ids[w] == h.ids[v]);
                            events::lemma_place(h, w);
                            events::lemma_place(h, v);
                        }
                    }
                    let list = p.parents;
                    assert(h.parents[p.start + 0] == list);
                    assert forall|k: int| 0 <= k < list.len() implies (#[trigger] list[k])
                        < self.size() && events::has_id(r, h.ids[list[k] as int]) by {
                        let q = list[k] as int;
                        assert(h.parents[at][k] == q);
                        assert(h.parents[at][k] < at);
                        assert(graph::reaches(g, q, q));
                        assert(graph::reaches(g, at, q));
                        assert(chosen(at));
                        assert(seen(at));
                        graph::lemma_cone_closed(g, version@, at, q);
                        assert(seen(q));
                        assert(chosen(q));
                        let x = lemma_chosen_has(h, at, chosen, q);
                        assert(events::events_between(r, 0, rebuilt.size())[x]
                            == events::event_of(r, x));
                        assert(r.ids[x] == h.ids[q]);
                    }
                }
                let ghost before = rebuilt.cg.agent_assignment;
                rebuilt.adopt_piece(
                    self,
                    agent,
                    ids.1.start,
                    entry.parents.as_ref(),
                    op,
                    Ghost(at),
                    Ghost(done),
                );
                proof {
                    lemma_span(h, at, p.end, chosen);
                    assert forall|a: int|
                        0 <= a < self.cg.agent_assignment.agents() implies #[trigger] rebuilt.cg.agent_assignment.name_of(a)
                        == self.cg.agent_assignment.name_of(a) by {
                        assert(before.name_of(a) == self.cg.agent_assignment.name_of(a));
                    }
                    at = p.end;
                }
                j += 1;
            }
            proof {
                assert(all.take(j as int) =~= all);
            }
            i += 1;
        }
        proof {
            assert forall|v: int| at <= v < self.size() implies !#[trigger] chosen(v) by {
                if chosen(v) {
                    let j = choose|j: int| 0 <= j < cone@.len() && (#[trigger] cone@[j]).has(v);
                    if j < i - 1 {
                        assert(cone@[j].end < cone@[i - 1].start);
                    }
                }
            }
            lemma_gap(h, at, self.size(), chosen);
            lemma_chosen_same(h, self.size(), chosen, seen);
        }
        rebuilt.encode(opts)
    }
}

/// Parts that stand one behind the other end in order.
proof fn lemma_row_bound(h: Hist, list: Seq<full_range::Piece>, from: int, j: int)
    requires
        observed_history::in_a_row(h, list, from),
        0 <= j < list.len(),
    ensures
        from <= list[j].start < list[j].end <= observed_history::row_end(list, from),
    decreases list.len() - j,
{
    assert(observed_history::piece_holds(h, list[j]));
    assert(list[j].start == observed_history::row_end(list.take(j), from));
    lemma_row_start(h, list, from, j);
    if j < list.len() - 1 {
        lemma_row_bound(h, list, from, j + 1);
        assert(list[j + 1].start == observed_history::row_end(list.take(j + 1), from));
        assert(list.take(j + 1).last() == list[j]);
    }
}

proof fn lemma_row_start(h: Hist, list: Seq<full_range::Piece>, from: int, j: int)
    requires
        observed_history::in_a_row(h, list, from),
        0 <= j < list.len(),
    ensures
        from <= list[j].start,
    decreases j,
{
    assert(list[j].start == observed_history::row_end(list.take(j), from));
    if j > 0 {
        lemma_row_start(h, list, from, j - 1);
        assert(observed_history::piece_holds(h, list[j - 1]));
        assert(list.take(j).last() == list[j - 1]);
    }
}

} // verus!
