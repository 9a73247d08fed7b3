//! The events of a document: what each one follows and who wrote it.

use crate::agent_assignment;
use crate::agent_assignment::{AgentAssignment, AgentId, AgentSpan, LV};
use crate::frontier;
use crate::frontier::{list_has, Frontier};
use crate::graph;
use crate::graph::{Graph, GraphAbs, GraphRun, Parents};
use crate::range::DTRange;
use crate::rle;
use vstd::prelude::*;

verus! {

/// Whether some event follows `x` directly.
pub open spec fn has_child(g: Parents, x: int) -> bool {
    exists|w: int| 0 <= w < g.len() && (#[trigger] g[w]).contains(x as usize)
}

/// Whether `front` holds, in ascending order, the events that no other follows.
pub open spec fn is_tips(g: Parents, front: Seq<usize>) -> bool {
    &&& frontier::ascending(front)
    &&& forall|x: usize| #[trigger] front.contains(x) <==> x < g.len() && !has_child(g, x as int)
}

/// The events that no other follows make up the version that holds all events.
pub proof fn lemma_tips_cone(g: Parents, front: Seq<usize>, a: int)
    requires
        graph::causal(g),
        is_tips(g, front),
        0 <= a < g.len(),
        g.len() <= usize::MAX,
    ensures
        graph::in_cone(g, front, a),
    decreases g.len() - a,
{
    if has_child(g, a) {
        let w = choose|w: int| 0 <= w < g.len() && (#[trigger] g[w]).contains(a as usize);
        let i = g[w].index_of(a as usize);
        assert(g[w][i] == a);
        lemma_tips_cone(g, front, w);
        assert(graph::reaches(g, a, a));
        assert(graph::reaches(g, w, a));
        graph::lemma_cone_closed(g, front, w, a);
    } else {
        assert(front.contains(a as usize));
        let i = front.index_of(a as usize);
        assert(graph::reaches(g, front[i] as int, a));
    }
}

pub struct CausalGraph {
    pub graph: Graph,
    pub agent_assignment: AgentAssignment,
    /// The version that holds all events.
    pub version: Frontier,
}

impl CausalGraph {
    pub open spec fn inv(&self) -> bool {
        &&& self.graph.inv()
        &&& self.agent_assignment.inv()
        &&& self.graph.size() == self.agent_assignment.size()
        &&& is_tips(self.graph.parents(), self.version@)
        &&& graph::known(self.graph.parents(), self.version@)
    }

    /// How many events there are.
    pub open spec fn size(&self) -> int {
        self.graph.size()
    }

    pub open spec fn parents(&self) -> Parents {
        self.graph.parents()
    }

    pub fn new() -> (out: CausalGraph)
        ensures
            out.inv(),
            out.parents() == Parents::empty(),
            out.agent_assignment.agents() == 0,
            out.version@ == Seq::<usize>::empty(),
            out.graph.entries.runs().len() == 0,
            out.agent_assignment.client_with_lv.runs().len() == 0,
    {
        CausalGraph {
            graph: Graph::new(),
            agent_assignment: AgentAssignment::new(),
            version: Frontier::root(),
        }
    }

    pub fn len(&self) -> (out: usize)
        requires
            self.inv(),
        ensures
            out == self.size(),
            out == self.parents().len(),
    {
        self.graph.len()
    }

    /// The number of the agent with this name, which is a new one if there is none.
    pub fn get_or_create_agent_id(&mut self, name: &str) -> (out: AgentId)
        requires
            old(self).inv(),
            agent_assignment::name_fits(name@),
            old(self).agent_assignment.room_for(name@),
        ensures
            final(self).inv(),
            final(self).graph == old(self).graph,
            final(self).version == old(self).version,
            final(self).agent_assignment.client_with_lv
                == old(self).agent_assignment.client_with_lv,
            out < final(self).agent_assignment.agents(),
            final(self).agent_assignment.name_of(out as int) == name@,
            *final(self) == *old(self) || {
                &&& forall|a: int|
                    0 <= a < old(self).agent_assignment.agents()
                        ==> old(self).agent_assignment.name_of(a) != name@
                &&& out == old(self).agent_assignment.agents()
                &&& final(self).agent_assignment.client_data@.drop_last()
                    == old(self).agent_assignment.client_data@
                &&& final(self).agent_assignment.next_seq(out as int) == 0
            },
    {
        self.agent_assignment.get_or_create_agent_id(name)
    }

    /// Whether `now` holds the events of `self` and after them those of `span`: events of
    /// `agent` from `seq` on, of which the first follows `parents` and each
    /// other one the one before it.
    pub open spec fn grown(
        &self,
        now: CausalGraph,
        parents: Seq<usize>,
        agent: AgentId,
        seq: int,
        span: DTRange,
    ) -> bool {
        let aa = self.agent_assignment;
        let bb = now.agent_assignment;
        &&& now.inv()
        &&& now.parents() == self.parents() + graph::chain(parents, span)
        &&& now.size() == span.end
        &&& bb.agents() == aa.agents()
        &&& forall|a: int| 0 <= a < aa.agents() ==> #[trigger] bb.name_of(a) == aa.name_of(a)
        &&& forall|lv: int| 0 <= lv < self.size() ==> #[trigger] bb.id_of(lv) == aa.id_of(lv)
        &&& forall|lv: int| span.has(lv) ==> #[trigger] bb.id_of(lv) == (agent, seq + (lv - span.start))
        &&& aa.counts_on(bb, agent, seq + span.size())
        &&& bb.client_with_lv.runs() == rle::pushed::<AgentSpan>(
            aa.client_with_lv.runs(),
            span.start as int,
            agent_assignment::assigned(agent, seq, span),
        )
        &&& now.graph.entries.runs() == rle::pushed::<GraphRun>(
            self.graph.entries.runs(),
            span.start as int,
            GraphAbs { len: span.size(), parents },
        )
    }

    /// Adds events of `agent` from `seq` on, none of which is known, under the next
    /// local versions.
    #[verifier::rlimit(50)]
    fn push_events(&mut self, parents: &[LV], agent: AgentId, seq: usize, span: DTRange)
        requires
            old(self).inv(),
            agent < old(self).agent_assignment.agents(),
            span.start == old(self).size(),
            span.start < span.end,
            seq + span.size() <= usize::MAX,
            graph::known(old(self).parents(), parents@),
            forall|s: int|
                seq <= s < seq + span.size() ==> !#[trigger] old(self).agent_assignment.knows(
                    agent as int,
                    s,
                ),
        ensures
            old(self).grown(*final(self), parents@, agent, seq as int, span),
    {
        let ghost was = *self;
        let ghost g = self.graph.parents();
        self.graph.push(parents, span);
        self.agent_assignment.assign_lv_to_span(agent, seq, span);
        let mut front: Vec<LV> = Vec::new();
        let mut i: usize = 0;
        while i < self.version.0.len()
            invariant
                i <= was.version@.len(),
                self.version == was.version,
                frontier::ascending(was.version@),
                graph::known(g, was.version@),
                frontier::ascending(front@),
                forall|j: int| 0 <= j < front@.len() ==> (#[trigger] front@[j]) < g.len(),
                forall|j: int, k: int|
                    0 <= j < front@.len() && i <= k < was.version@.len() ==> front@[j]
                        < was.version@[k],
                forall|x: usize| #[trigger]
                    front@.contains(x) <==> was.version@.take(i as int).contains(x)
                        && !parents@.contains(x),
            decreases was.version@.len() - i,
        {
            let lv = self.version.0[i];
            let ghost before = front@;
            assert(was.version@[i as int] == lv);
            if !list_has(parents, lv) {
                front.push(lv);
            }
            proof {
                let a = was.version@.take(i as int);
                let b = was.version@.take(i + 1);
                assert(b =~= a.push(lv));
                assert forall|x: usize| #[trigger] front@.contains(x) <==> b.contains(x)
                    && !parents@.contains(x) by {
                    if b.contains(x) && x != lv {
                        assert(a[b.index_of(x)] == x);
                        assert(a.contains(x));
                    }
                    if a.contains(x) {
                        assert(b[a.index_of(x)] == x);
                    }
                    if x == lv {
                        assert(b[i as int] == lv);
                    }
                    if before.contains(x) && front@.len() > before.len() {
                        assert(front@[before.index_of(x)] == x);
                    }
                    if front@.contains(x) && front@.len() > before.len() {
                        let k = front@.index_of(x);
                        if k < before.len() {
                            assert(before[k] == x);
                            assert(before.contains(x));
                        } else {
                            assert(x == lv);
                        }
                    }
                    if front@.len() > before.len() && x == lv {
                        assert(front@[before.len() as int] == lv);
                    }
                }
            }
            i += 1;
        }
        let ghost kept = front@;
        front.push(span.end - 1);
        proof {
            assert(was.version@.take(i as int) =~= was.version@);
            let h = self.graph.parents();
            lemma_grown_tips(g, h, was.version@, parents@, span, kept, front@);
        }
        self.version = Frontier(front);
    }

    /// Adds the next events of `agent`, of which the first follows `parents`.
    pub fn assign_local_op_with_parents(&mut self, parents: &[LV], agent: AgentId, num: usize) -> (out:
        DTRange)
        requires
            old(self).inv(),
            agent < old(self).agent_assignment.agents(),
            graph::known(old(self).parents(), parents@),
            num > 0,
            old(self).size() + num <= usize::MAX,
            old(self).agent_assignment.client_data@[agent as int].next_seq() + num <= usize::MAX,
        ensures
            out.start == old(self).size(),
            out.size() == num,
            old(self).grown(
                *final(self),
                parents@,
                agent,
                old(self).agent_assignment.client_data@[agent as int].next_seq(),
                out,
            ),
    {
        let start = self.len();
        let span = DTRange { start, end: start + num };
        proof {
            assert(self.agent_assignment.client_data@[agent as int].inv());
        }
        let client = &self.agent_assignment.client_data[agent as usize];
        let seq = client.get_next_seq();
        proof {
            assert forall|s: int| seq <= s < seq + span.size() implies !#[trigger] self.agent_assignment.knows(
                agent as int,
                s,
            ) by {
                if client.knows(s) {
                    assert(s < seq);
                }
            }
        }
        self.push_events(parents, agent, seq, span);
        span
    }

    /// Which of the events of `span` are new, given that those at its front that
    /// are known are left out: the ones from the first unknown one on, up to the
    /// next one that is known.
    pub open spec fn fresh_part(&self, span: AgentSpan) -> DTRange {
        let from = skip(
            self.agent_assignment,
            span.agent,
            span.seq_range.start as int,
            span.seq_range.end as int,
            true,
        );
        let to = skip(self.agent_assignment, span.agent, from, span.seq_range.end as int, false);
        DTRange { start: from as usize, end: to as usize }
    }

    /// Adds those events of `span` that are new: an event that is known already is
    /// not added again. The first of `span` follows `parents`; where it is known,
    /// the first new one follows the last known one before it.
    ///
    /// Gives the local versions of what was added.
    pub fn merge_and_assign(&mut self, parents: &[LV], span: AgentSpan) -> (out: DTRange)
        requires
            old(self).inv(),
            span.agent < old(self).agent_assignment.agents(),
            span.seq_range.ordered(),
            graph::known(old(self).parents(), parents@),
            old(self).size() + old(self).fresh_part(span).size() <= usize::MAX,
        ensures
            out.start == old(self).size(),
            out.ordered(),
            out.size() == old(self).fresh_part(span).size(),
            span.seq_range.start <= old(self).fresh_part(span).start,
            old(self).fresh_part(span).start <= old(self).fresh_part(span).end
                <= span.seq_range.end,
            out.start == out.end ==> *final(self) == *old(self),
            out.start < out.end ==> old(self).grown(
                *final(self),
                old(self).fresh_parents(span, parents@),
                span.agent,
                old(self).fresh_part(span).start as int,
                out,
            ),
    {
        let start = self.len();
        let from = self.skip_events(span.agent, span.seq_range.start, span.seq_range.end, true);
        let to = self.skip_events(span.agent, from, span.seq_range.end, false);
        let out = DTRange { start, end: start + (to - from) };
        if from == to {
            return out;
        }
        proof {
            lemma_skip(
                self.agent_assignment,
                span.agent,
                span.seq_range.start as int,
                span.seq_range.end as int,
                true,
            );
            lemma_skip(
                self.agent_assignment,
                span.agent,
                from as int,
                span.seq_range.end as int,
                false,
            );
        }
        if from == span.seq_range.start {
            self.push_events(parents, span.agent, from, out);
        } else {
            assert(self.agent_assignment.knows(span.agent as int, from - 1));
            let last = self.agent_assignment.try_agent_version_to_lv((span.agent, from - 1)).unwrap();
            let follows = Frontier::new_1(last);
            assert(follows@[0] < self.parents().len());
            self.push_events(follows.as_ref(), span.agent, from, out);
        }
        out
    }

    /// What the first new event of `span` follows.
    pub open spec fn fresh_parents(&self, span: AgentSpan, parents: Seq<usize>) -> Seq<usize> {
        let from = self.fresh_part(span).start;
        if from == span.seq_range.start {
            parents
        } else {
            seq![self.agent_assignment.lv_of(span.agent as int, from - 1) as usize]
        }
    }

    pub fn skip_events(&self, agent: AgentId, from: usize, to: usize, known: bool) -> (out: usize)
        requires
            self.inv(),
            from <= to,
        ensures
            out == skip(self.agent_assignment, agent, from as int, to as int, known),
            from <= out <= to,
    {
        let mut s: usize = from;
        while s < to && self.agent_assignment.try_agent_version_to_lv((agent, s)).is_some() == known
            invariant
                self.inv(),
                from <= s <= to,
                skip(self.agent_assignment, agent, s as int, to as int, known) == skip(
                    self.agent_assignment,
                    agent,
                    from as int,
                    to as int,
                    known,
                ),
            decreases to - s,
        {
            s += 1;
        }
        s
    }

    /// The events that a version does not hold, as ranges.
    pub fn diff_since(&self, version: &[LV]) -> (out: Vec<DTRange>)
        requires
            self.inv(),
            graph::known(self.parents(), version@),
        ensures
            graph::are_ranges(
                out@,
                self.size(),
                |v: int| !graph::in_cone(self.parents(), version@, v),
            ),
            out@ == graph::ranges_below(
                self.size(),
                |v: int| !graph::in_cone(self.parents(), version@, v),
            ),
    {
        self.graph.diff_since(version)
    }
}

/// The first number from `from` on, or `to`, where being known is not as given.
pub open spec fn skip(aa: AgentAssignment, agent: AgentId, from: int, to: int, known: bool) -> int
    decreases to - from,
{
    if from < to && aa.knows(agent as int, from) == known {
        skip(aa, agent, from + 1, to, known)
    } else {
        from
    }
}

pub proof fn lemma_skip(aa: AgentAssignment, agent: AgentId, from: int, to: int, known: bool)
    requires
        from <= to,
    ensures
        from <= skip(aa, agent, from, to, known) <= to,
        forall|s: int|
            from <= s < skip(aa, agent, from, to, known) ==> #[trigger] aa.knows(agent as int, s)
                == known,
        skip(aa, agent, from, to, known) == to || aa.knows(
            agent as int,
            skip(aa, agent, from, to, known),
        ) != known,
    decreases to - from,
{
    if from < to && aa.knows(agent as int, from) == known {
        lemma_skip(aa, agent, from + 1, to, known);
    }
}

proof fn lemma_grown_tips(
    g: Parents,
    h: Parents,
    tips: Seq<usize>,
    parents: Seq<usize>,
    span: DTRange,
    kept: Seq<usize>,
    front: Seq<usize>,
)
    requires
        is_tips(g, tips),
        graph::causal(h),
        span.start == g.len(),
        span.start < span.end,
        h == g + graph::chain(parents, span),
        frontier::ascending(kept),
        forall|j: int| 0 <= j < kept.len() ==> (#[trigger] kept[j]) < g.len(),
        forall|x: usize| #[trigger]
            kept.contains(x) <==> tips.contains(x) && !parents.contains(x),
        front == kept.push((span.end - 1) as usize),
    ensures
        is_tips(h, front),
        graph::known(h, front),
{
    let last = (span.end - 1) as usize;
    assert(h.len() == span.end);
    assert forall|x: usize| #[trigger] front.contains(x) <==> x < h.len() && !has_child(
        h,
        x as int,
    ) by {
        if kept.contains(x) {
            assert(front[kept.index_of(x)] == x);
        }
        assert(front[kept.len() as int] == last);
        if front.contains(x) && x != last {
            let k = front.index_of(x);
            assert(kept[k] == x);
            assert(kept.contains(x));
        }
        // Which of the events have a child now.
        if x < g.len() {
            if has_child(g, x as int) {
                let w = choose|w: int| 0 <= w < g.len() && (#[trigger] g[w]).contains(x);
                assert(h[w] == g[w]);
                assert(h[w].contains(x));
            }
            if parents.contains(x) {
                assert(h[g.len() as int] == parents);
            }
            if has_child(h, x as int) {
                let w = choose|w: int| 0 <= w < h.len() && (#[trigger] h[w]).contains(x);
                if w < g.len() {
                    assert(g[w] == h[w]);
                } else if w > g.len() {
                    assert(h[w] == seq![(w - 1) as usize]);
                    let k = h[w].index_of(x);
                    assert(h[w][k] == x);
                } else {
                    assert(h[w] == parents);
                }
            }
        } else if x < h.len() {
            if x < last {
                let w = x + 1;
                assert(h[w] == seq![(w - 1) as usize]);
                assert(h[w][0] == x);
                assert(h[w].contains(x));
            } else {
                if has_child(h, x as int) {
                    let w = choose|w: int| 0 <= w < h.len() && (#[trigger] h[w]).contains(x);
                    let k = h[w].index_of(x);
                    assert(h[w][k] < w);
                }
            }
        }
    }
}

} // verus!
