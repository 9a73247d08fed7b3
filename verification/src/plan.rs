//! The order in which events are taken up when one version is merged into another,
//! and which of them can be taken as they are.

use crate::agent_assignment::LV;
use crate::frontier::{copy_of, list_has, same_list};
use crate::graph;
use crate::graph::{Graph, Parents};
use crate::range::DTRange;
use vstd::prelude::*;

verus! {

/// A step of a plan.
#[derive(Debug, Clone, Copy, PartialEq, Eq, Structural)]
pub enum M1PlanAction {
    /// What was known of concurrent events is no longer needed.
    Clear,
    /// Events that have to be transformed.
    Apply(DTRange),
    /// Events that can be taken as they are: each one was made on the very document
    /// that it finds.
    FF(DTRange),
}

#[derive(Debug)]
pub struct M1Plan(pub Vec<M1PlanAction>);

/// The numbers of `list` that are not in `out`.
pub open spec fn minus(list: Seq<usize>, out: Seq<usize>) -> Seq<usize>
    decreases list.len(),
{
    if list.len() == 0 {
        list
    } else {
        let before = minus(list.drop_last(), out);
        if out.contains(list.last()) {
            before
        } else {
            before.push(list.last())
        }
    }
}

/// Whether event `v` is to be taken up: it is part of the version that is merged, and not
/// of the one that it is merged into.
pub open spec fn due(g: Parents, from: Seq<usize>, merging: Seq<usize>, v: int) -> bool {
    graph::in_cone(g, merging, v) && !graph::in_cone(g, from, v)
}

/// The version that is there when all events before `k` have been taken up.
pub open spec fn front_at(g: Parents, from: Seq<usize>, merging: Seq<usize>, k: int) -> Seq<usize>
    decreases k,
{
    if k <= 0 {
        from
    } else {
        let front = front_at(g, from, merging, k - 1);
        if due(g, from, merging, k - 1) {
            minus(front, g[k - 1]).push((k - 1) as usize)
        } else {
            front
        }
    }
}

/// Whether event `v` was made on the very document that it finds.
pub open spec fn fast(g: Parents, from: Seq<usize>, merging: Seq<usize>, v: int) -> bool {
    g[v] == front_at(g, from, merging, v)
}

/// The plan with one more event.
pub open spec fn plan_step(plan: Seq<M1PlanAction>, v: usize, ff: bool) -> Seq<M1PlanAction> {
    let one = DTRange { start: v, end: (v + 1) as usize };
    if ff {
        match plan.last() {
            M1PlanAction::FF(r) if plan.len() > 0 && r.end == v => plan.drop_last().push(
                M1PlanAction::FF(DTRange { start: r.start, end: (v + 1) as usize }),
            ),
            M1PlanAction::Apply(_) if plan.len() > 0 => plan.push(M1PlanAction::Clear).push(
                M1PlanAction::FF(one),
            ),
            _ => plan.push(M1PlanAction::FF(one)),
        }
    } else {
        match plan.last() {
            M1PlanAction::Apply(r) if plan.len() > 0 && r.end == v => plan.drop_last().push(
                M1PlanAction::Apply(DTRange { start: r.start, end: (v + 1) as usize }),
            ),
            _ => plan.push(M1PlanAction::Apply(one)),
        }
    }
}

/// The plan for the events before `k`.
pub open spec fn plan_to(
    g: Parents,
    from: Seq<usize>,
    merging: Seq<usize>,
    allow_ff: bool,
    k: int,
) -> Seq<M1PlanAction>
    decreases k,
{
    if k <= 0 {
        Seq::empty()
    } else {
        let before = plan_to(g, from, merging, allow_ff, k - 1);
        if due(g, from, merging, k - 1) {
            plan_step(before, (k - 1) as usize, allow_ff && fast(g, from, merging, k - 1))
        } else {
            before
        }
    }
}

impl Graph {
    /// The plan for merging one version into another.
    pub fn make_m1_plan(&self, from: &[LV], merging: &[LV], allow_ff: bool) -> (out: M1Plan)
        requires
            self.inv(),
            graph::known(self.parents(), from@),
            graph::known(self.parents(), merging@),
        ensures
            out.0@ == plan_to(self.parents(), from@, merging@, allow_ff, self.size()),
    {
        let ghost g = self.parents();
        let have = self.cone_marks(from);
        let want = self.cone_marks(merging);
        let n = self.len();
        let mut plan: Vec<M1PlanAction> = Vec::new();
        let mut front = copy_of(from);
        let mut v: usize = 0;
        while v < n
            invariant
                self.inv(),
                g == self.parents(),
                n == self.size(),
                n == g.len(),
                v <= n,
                have@.len() == n,
                want@.len() == n,
                forall|a: int| 0 <= a < n ==> #[trigger] have@[a] == graph::in_cone(g, from@, a),
                forall|a: int| 0 <= a < n ==> #[trigger] want@[a] == graph::in_cone(g, merging@, a),
                front@ == front_at(g, from@, merging@, v as int),
                plan@ == plan_to(g, from@, merging@, allow_ff, v as int),
            decreases n - v,
        {
            if want[v] && !have[v] {
                let parents = self.parents_at(v);
                let ff = allow_ff && same_list(parents.as_ref(), front.as_slice());
                push_step(&mut plan, v, ff);
                front = without(&front, parents.as_ref());
                front.push(v);
            }
            v += 1;
        }
        M1Plan(plan)
    }
}

fn push_step(plan: &mut Vec<M1PlanAction>, v: usize, ff: bool)
    requires
        v < usize::MAX,
    ensures
        final(plan)@ == plan_step(old(plan)@, v, ff),
{
    let one = DTRange { start: v, end: v + 1 };
    let n = plan.len();
    if n > 0 {
        match plan[n - 1] {
            M1PlanAction::FF(r) => {
                if ff && r.end == v {
                    plan.set(n - 1, M1PlanAction::FF(DTRange { start: r.start, end: v + 1 }));
                    assert(plan@ =~= plan_step(old(plan)@, v, ff));
                    return ;
                }
            },
            M1PlanAction::Apply(r) => {
                if !ff && r.end == v {
                    plan.set(n - 1, M1PlanAction::Apply(DTRange { start: r.start, end: v + 1 }));
                    assert(plan@ =~= plan_step(old(plan)@, v, ff));
                    return ;
                }
                if ff {
                    plan.push(M1PlanAction::Clear);
                }
            },
            M1PlanAction::Clear => {},
        }
    }
    if ff {
        plan.push(M1PlanAction::FF(one));
    } else {
        plan.push(M1PlanAction::Apply(one));
    }
    assert(plan@ =~= plan_step(old(plan)@, v, ff));
}

/// The numbers of `list` that are not in `out`.
pub fn without(list: &Vec<LV>, out: &[LV]) -> (res: Vec<LV>)
    ensures
        res@ == minus(list@, out@),
{
    let mut res: Vec<LV> = Vec::new();
    let mut i: usize = 0;
    assert(list@.take(0) =~= Seq::<usize>::empty());
    while i < list.len()
        invariant
            i <= list@.len(),
            res@ == minus(list@.take(i as int), out@),
        decreases list@.len() - i,
    {
        let x = list[i];
        proof {
            assert(list@.take(i + 1).drop_last() =~= list@.take(i as int));
        }
        if !list_has(out, x) {
            res.push(x);
        }
        i += 1;
    }
    assert(list@.take(i as int) =~= list@);
    res
}

// ---- what a plan does ----

/// The events of a range, each with whether it is taken as it is.
pub open spec fn flagged(r: DTRange, ff: bool) -> Seq<(int, bool)> {
    Seq::new(r.size() as nat, |k: int| (r.start + k, ff))
}

/// The events that a step takes up, each with whether it is taken as it is.
pub open spec fn taken_by(action: M1PlanAction) -> Seq<(int, bool)> {
    match action {
        M1PlanAction::Clear => Seq::empty(),
        M1PlanAction::Apply(r) => flagged(r, false),
        M1PlanAction::FF(r) => flagged(r, true),
    }
}

/// The events that a plan takes up, each with whether it is taken as it is.
pub open spec fn taken(plan: Seq<M1PlanAction>) -> Seq<(int, bool)>
    decreases plan.len(),
{
    if plan.len() == 0 {
        Seq::empty()
    } else {
        taken(plan.drop_last()) + taken_by(plan.last())
    }
}

/// The events before `k` that are due, each with whether it can be taken as it is.
pub open spec fn due_to(
    g: Parents,
    from: Seq<usize>,
    merging: Seq<usize>,
    allow_ff: bool,
    k: int,
) -> Seq<(int, bool)>
    decreases k,
{
    if k <= 0 {
        Seq::empty()
    } else {
        let before = due_to(g, from, merging, allow_ff, k - 1);
        if due(g, from, merging, k - 1) {
            before.push((k - 1, allow_ff && fast(g, from, merging, k - 1)))
        } else {
            before
        }
    }
}

/// Whether a step takes up events, if it is not one that clears.
pub open spec fn action_ok(action: M1PlanAction) -> bool {
    match action {
        M1PlanAction::Clear => true,
        M1PlanAction::Apply(r) => r.start < r.end,
        M1PlanAction::FF(r) => r.start < r.end,
    }
}

/// Whether the steps of a plan are as they should be.
pub open spec fn plan_ok(plan: Seq<M1PlanAction>) -> bool {
    forall|i: int| 0 <= i < plan.len() ==> action_ok(#[trigger] plan[i])
}

#[verifier::rlimit(40)]
proof fn lemma_plan_step(plan: Seq<M1PlanAction>, v: usize, ff: bool)
    requires
        plan_ok(plan),
        v < usize::MAX,
    ensures
        plan_ok(plan_step(plan, v, ff)),
        taken(plan_step(plan, v, ff)) == taken(plan).push((v as int, ff)),
{
    let one = DTRange { start: v, end: (v + 1) as usize };
    let out = plan_step(plan, v, ff);
    assert(flagged(one, ff) =~= seq![(v as int, ff)]);
    if plan.len() > 0 {
        let last = plan.last();
        assert(last == plan[plan.len() - 1]);
        match last {
            M1PlanAction::FF(r) => {
                if ff && r.end == v {
                    let more = DTRange { start: r.start, end: (v + 1) as usize };
                    assert(flagged(more, true) =~= flagged(r, true).push((v as int, true)));
                    assert(out.drop_last() =~= plan.drop_last());
                    assert(taken(out) =~= taken(plan).push((v as int, ff)));
                } else {
                    assert(out.drop_last() =~= plan);
                    assert(taken(out) =~= taken(plan).push((v as int, ff)));
                }
            },
            M1PlanAction::Apply(r) => {
                if !ff && r.end == v {
                    let more = DTRange { start: r.start, end: (v + 1) as usize };
                    assert(flagged(more, false) =~= flagged(r, false).push((v as int, false)));
                    assert(out.drop_last() =~= plan.drop_last());
                    assert(taken(out) =~= taken(plan).push((v as int, ff)));
                } else if ff {
                    let mid = plan.push(M1PlanAction::Clear);
                    assert(mid.drop_last() =~= plan);
                    assert(taken(mid) =~= taken(plan));
                    assert(out.drop_last() =~= mid);
                    assert(taken(out) =~= taken(plan).push((v as int, ff)));
                } else {
                    assert(out.drop_last() =~= plan);
                    assert(taken(out) =~= taken(plan).push((v as int, ff)));
                }
            },
            M1PlanAction::Clear => {
                assert(out.drop_last() =~= plan);
                assert(taken(out) =~= taken(plan).push((v as int, ff)));
            },
        }
    } else {
        assert(out.drop_last() =~= plan);
        assert(taken(out) =~= taken(plan).push((v as int, ff)));
    }
}

/// A plan takes up all events that are due, in order, and no other.
pub proof fn law_plan(
    g: Parents,
    from: Seq<usize>,
    merging: Seq<usize>,
    allow_ff: bool,
    k: int,
)
    requires
        0 <= k <= usize::MAX,
    ensures
        taken(plan_to(g, from, merging, allow_ff, k)) == due_to(g, from, merging, allow_ff, k),
{
    lemma_plan_to(g, from, merging, allow_ff, k);
}

proof fn lemma_plan_to(
    g: Parents,
    from: Seq<usize>,
    merging: Seq<usize>,
    allow_ff: bool,
    k: int,
)
    requires
        0 <= k <= usize::MAX,
    ensures
        plan_ok(plan_to(g, from, merging, allow_ff, k)),
        taken(plan_to(g, from, merging, allow_ff, k)) == due_to(g, from, merging, allow_ff, k),
    decreases k,
{
    if k > 0 {
        lemma_plan_to(g, from, merging, allow_ff, k - 1);
        if due(g, from, merging, k - 1) {
            lemma_plan_step(
                plan_to(g, from, merging, allow_ff, k - 1),
                (k - 1) as usize,
                allow_ff && fast(g, from, merging, k - 1),
            );
        }
    }
}

// ---- how much a plan does ----

/// How many of the steps of a plan clear.
pub open spec fn clears(plan: Seq<M1PlanAction>) -> int
    decreases plan.len(),
{
    if plan.len() == 0 {
        0
    } else {
        clears(plan.drop_last()) + if plan.last() is Clear {
            1int
        } else {
            0
        }
    }
}

/// How many events a plan takes as they are, or transforms.
pub open spec fn advances(plan: Seq<M1PlanAction>, ff: bool) -> int
    decreases plan.len(),
{
    if plan.len() == 0 {
        0
    } else {
        advances(plan.drop_last(), ff) + match plan.last() {
            M1PlanAction::Clear => 0,
            M1PlanAction::Apply(r) => if ff {
                0
            } else {
                r.size()
            },
            M1PlanAction::FF(r) => if ff {
                r.size()
            } else {
                0
            },
        }
    }
}

/// What a plan takes as it is and what it transforms add up to what is due.
pub proof fn law_plan_adds_up(
    g: Parents,
    from: Seq<usize>,
    merging: Seq<usize>,
    allow_ff: bool,
    k: int,
)
    requires
        0 <= k <= usize::MAX,
    ensures
        ({
            let plan = plan_to(g, from, merging, allow_ff, k);
            advances(plan, false) + advances(plan, true) == due_to(
                g,
                from,
                merging,
                allow_ff,
                k,
            ).len()
        }),
{
    lemma_plan_to(g, from, merging, allow_ff, k);
    lemma_taken_len(plan_to(g, from, merging, allow_ff, k));
}

pub proof fn lemma_advances(plan: Seq<M1PlanAction>, k: int, ff: bool)
    requires
        plan_ok(plan),
        0 <= k <= plan.len(),
    ensures
        0 <= advances(plan.take(k), ff) <= advances(plan, ff),
    decreases plan.len(),
{
    if plan.len() > 0 {
        let before = plan.drop_last();
        assert(plan[plan.len() - 1] == plan.last());
        assert(plan_ok(before)) by {
            assert forall|i: int| 0 <= i < before.len() implies action_ok(
                #[trigger] before[i],
            ) by {
                assert(action_ok(plan[i]));
            }
        }
        if k == plan.len() {
            assert(plan.take(k) =~= plan);
            lemma_advances(before, before.len() as int, ff);
            assert(before.take(before.len() as int) =~= before);
            assert(action_ok(plan[plan.len() - 1]));
        } else {
            lemma_advances(before, k, ff);
            assert(before.take(k) =~= plan.take(k));
            assert(action_ok(plan[plan.len() - 1]));
        }
    } else {
        assert(plan.take(k) =~= plan);
    }
}

/// A plan takes up no more events than there are.
pub proof fn lemma_plan_bound(
    g: Parents,
    from: Seq<usize>,
    merging: Seq<usize>,
    allow_ff: bool,
    k: int,
)
    requires
        0 <= k <= usize::MAX,
    ensures
        ({
            let plan = plan_to(g, from, merging, allow_ff, k);
            &&& plan_ok(plan)
            &&& advances(plan, false) + advances(plan, true) <= k
        }),
{
    lemma_plan_to(g, from, merging, allow_ff, k);
    lemma_taken_len(plan_to(g, from, merging, allow_ff, k));
    lemma_due_len(g, from, merging, allow_ff, k);
}

proof fn lemma_taken_len(plan: Seq<M1PlanAction>)
    requires
        plan_ok(plan),
    ensures
        advances(plan, false) + advances(plan, true) == taken(plan).len(),
    decreases plan.len(),
{
    if plan.len() > 0 {
        let before = plan.drop_last();
        assert forall|i: int| 0 <= i < before.len() implies action_ok(#[trigger] before[i]) by {
            assert(action_ok(plan[i]));
        }
        lemma_taken_len(before);
        assert(action_ok(plan[plan.len() - 1]));
    }
}

proof fn lemma_due_len(
    g: Parents,
    from: Seq<usize>,
    merging: Seq<usize>,
    allow_ff: bool,
    k: int,
)
    requires
        0 <= k,
    ensures
        due_to(g, from, merging, allow_ff, k).len() <= k,
    decreases k,
{
    if k > 0 {
        lemma_due_len(g, from, merging, allow_ff, k - 1);
    }
}

// ---- what is there ----

/// Whether event `a` is there when all events before `k` have been taken up.
pub open spec fn there(
    g: Parents,
    from: Seq<usize>,
    merging: Seq<usize>,
    k: int,
    a: int,
) -> bool {
    graph::in_cone(g, from, a) || a < k && graph::in_cone(g, merging, a)
}

proof fn lemma_minus(list: Seq<usize>, out: Seq<usize>, x: usize)
    ensures
        minus(list, out).contains(x) == (list.contains(x) && !out.contains(x)),
    decreases list.len(),
{
    if list.len() > 0 {
        let y = list.last();
        let before = list.drop_last();
        let m = minus(before, out);
        lemma_minus(before, out, x);
        assert(list =~= before.push(y));
        assert(list.contains(x) == (before.contains(x) || x == y)) by {
            if before.contains(x) {
                assert(list[before.index_of(x)] == x);
            }
            if x == y {
                assert(list[list.len() - 1] == x);
            }
            if list.contains(x) && x != y {
                assert(before[list.index_of(x)] == x);
            }
        }
        if !out.contains(y) {
            assert(m.push(y).contains(x) == (m.contains(x) || x == y)) by {
                if m.contains(x) {
                    assert(m.push(y)[m.index_of(x)] == x);
                }
                if x == y {
                    assert(m.push(y)[m.len() as int] == x);
                }
                if m.push(y).contains(x) && x != y {
                    assert(m[m.push(y).index_of(x)] == x);
                }
            }
        }
    }
}

proof fn lemma_in_cone_member(g: Parents, front: Seq<usize>, x: usize, a: int)
    requires
        front.contains(x),
        graph::reaches(g, x as int, a),
    ensures
        graph::in_cone(g, front, a),
{
    let i = front.index_of(x);
    assert(graph::reaches(g, front[i] as int, a));
}

/// The version that is kept track of is the one that is there.
#[verifier::rlimit(40)]
pub proof fn lemma_front(g: Parents, from: Seq<usize>, merging: Seq<usize>, k: int, a: int)
    requires
        graph::causal(g),
        0 <= k <= g.len(),
        g.len() <= usize::MAX,
    ensures
        graph::in_cone(g, front_at(g, from, merging, k), a) == there(g, from, merging, k, a),
    decreases k,
{
    if k <= 0 {
        if graph::in_cone(g, merging, a) {
            graph::lemma_cone_order(g, merging, a);
        }
    } else {
        let v = k - 1;
        let front = front_at(g, from, merging, v);
        lemma_front(g, from, merging, v, a);
        if due(g, from, merging, v) {
            let kept = minus(front, g[v]);
            let now = kept.push(v as usize);
            graph::lemma_parents_cone(g, v, a);
            if graph::in_cone(g, now, a) {
                let i = choose|i: int|
                    0 <= i < now.len() && #[trigger] graph::reaches(g, now[i] as int, a);
                if i < kept.len() {
                    assert(kept.contains(kept[i]));
                    lemma_minus(front, g[v], kept[i]);
                    lemma_in_cone_member(g, front, kept[i], a);
                } else {
                    // It is the event, or one that the event follows.
                    assert(graph::reaches(g, v, a));
                    graph::lemma_cone_closed(g, merging, v, a);
                    graph::lemma_reaches_order(g, v, a);
                }
            }
            if there(g, from, merging, k, a) {
                if a == v {
                    assert(now[kept.len() as int] == v);
                    assert(graph::reaches(g, now[kept.len() as int] as int, a));
                } else {
                    assert(there(g, from, merging, v, a));
                    let i = choose|i: int|
                        0 <= i < front.len() && #[trigger] graph::reaches(g, front[i] as int, a);
                    let x = front[i];
                    lemma_minus(front, g[v], x);
                    assert(front.contains(x));
                    if g[v].contains(x) {
                        let j = g[v].index_of(x);
                        assert(g[v][j] < v);
                        assert(graph::reaches(g, v, a));
                        assert(now[kept.len() as int] == v);
                        assert(graph::reaches(g, now[kept.len() as int] as int, a));
                    } else {
                        let j = kept.index_of(x);
                        assert(now[j] == x);
                        assert(graph::reaches(g, now[j] as int, a));
                    }
                }
            }
        }
    }
}

} // verus!
