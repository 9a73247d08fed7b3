//! What plans are made of, and what they count.

use crate::causal_graph;
use crate::frontier;
use crate::graph;
use crate::graph::Parents;
use crate::merge;
use crate::merge::RawAbs;
use crate::oplog::ListOpLog;
use crate::plan;
use crate::plan::M1PlanAction;
use crate::range::DTRange;
use vstd::prelude::*;

verus! {

/// Whether a step takes up event `v`.
pub open spec fn holds(action: M1PlanAction, v: int) -> bool {
    match action {
        M1PlanAction::Clear => false,
        M1PlanAction::Apply(r) => r.start <= v < r.end,
        M1PlanAction::FF(r) => r.start <= v < r.end,
    }
}

/// Whether one step can follow another: steps that could be one are one, and what was known
/// of concurrent events is dropped where events that need none of it come next, and only there.
pub open spec fn follows(a: M1PlanAction, b: M1PlanAction) -> bool {
    match (a, b) {
        (M1PlanAction::Apply(r), M1PlanAction::Apply(q)) => r.end < q.start,
        (M1PlanAction::FF(r), M1PlanAction::FF(q)) => r.end < q.start,
        (M1PlanAction::FF(r), M1PlanAction::Apply(q)) => r.end <= q.start,
        (M1PlanAction::Apply(_), M1PlanAction::Clear) => true,
        (M1PlanAction::Clear, M1PlanAction::FF(_)) => true,
        _ => false,
    }
}

/// Whether the steps of a plan follow each other as they should.
pub open spec fn in_steps(plan: Seq<M1PlanAction>) -> bool {
    &&& forall|i: int, j: int|
        #![trigger plan[i], plan[j]]
        0 <= i && j == i + 1 && j < plan.len() ==> follows(plan[i], plan[j])
    &&& plan.len() > 0 ==> !(plan[0] is Clear) && !(plan[plan.len() - 1] is Clear)
}

/// Whether a plan takes up the events for which `chosen` holds, in order, those for which
/// `ff` holds as they are.
pub open spec fn takes_up(
    plan: Seq<M1PlanAction>,
    chosen: spec_fn(int) -> bool,
    ff: spec_fn(int) -> bool,
) -> bool {
    &&& forall|i: int, v: int|
        0 <= i < plan.len() && #[trigger] holds(plan[i], v) ==> {
            &&& chosen(v)
            &&& plan[i] is FF == ff(v)
        }
    &&& forall|v: int| #[trigger]
        chosen(v) ==> exists|i: int| 0 <= i < plan.len() && #[trigger] holds(plan[i], v)
    &&& forall|i: int, j: int, v: int, w: int|
        0 <= i < j < plan.len() && #[trigger] holds(plan[i], v) && #[trigger] holds(plan[j], w)
            ==> v < w
}

spec fn chosen_to(g: Parents, from: Seq<usize>, merging: Seq<usize>, k: int) -> spec_fn(
    int,
) -> bool {
    |v: int| 0 <= v < k && plan::due(g, from, merging, v)
}

spec fn fast_one(g: Parents, from: Seq<usize>, merging: Seq<usize>, allow_ff: bool) -> spec_fn(
    int,
) -> bool {
    |v: int| allow_ff && plan::fast(g, from, merging, v)
}

#[verifier::rlimit(60)]
proof fn lemma_step(
    plan: Seq<M1PlanAction>,
    was: spec_fn(int) -> bool,
    chosen: spec_fn(int) -> bool,
    ff: spec_fn(int) -> bool,
    n: usize,
)
    requires
        n < usize::MAX,
        plan::plan_ok(plan),
        in_steps(plan),
        takes_up(plan, was, ff),
        forall|v: int| #[trigger] was(v) ==> v < n,
        forall|v: int| #[trigger] chosen(v) == (was(v) || v == n),
    ensures
        plan::plan_ok(plan::plan_step(plan, n, ff(n as int))),
        in_steps(plan::plan_step(plan, n, ff(n as int))),
        takes_up(plan::plan_step(plan, n, ff(n as int)), chosen, ff),
{
    let f = ff(n as int);
    let out = plan::plan_step(plan, n, f);
    let one = DTRange { start: n, end: (n + 1) as usize };
    let m = plan.len() as int;
    if m > 0 {
        assert(plan::action_ok(plan[m - 1]));
        match plan[m - 1] {
            M1PlanAction::Clear => {},
            M1PlanAction::Apply(r) => {
                assert(holds(plan[m - 1], r.end - 1));
                assert(was(r.end - 1));
            },
            M1PlanAction::FF(r) => {
                assert(holds(plan[m - 1], r.end - 1));
                assert(was(r.end - 1));
            },
        }
    }
    let last = out.len() - 1;
    assert(holds(out[last], n as int));
    assert forall|i: int| 0 <= i < out.len() implies plan::action_ok(#[trigger] out[i]) by {
        if i < m {
            assert(plan::action_ok(plan[i]));
        }
    }
    assert forall|i: int, j: int|
        #![trigger out[i], out[j]]
        0 <= i && j == i + 1 && j < out.len() implies follows(out[i], out[j]) by {
        if j < m {
            assert(follows(plan[i], plan[j]));
        }
    }
    // Each step is one that was there, made longer or new.
    assert forall|i: int, v: int| 0 <= i < out.len() && #[trigger] holds(out[i], v) implies {
        &&& chosen(v)
        &&& out[i] is FF == ff(v)
        &&& v == n || i < m && holds(plan[i], v)
        &&& v == n ==> i == last
    } by {
        if v != n {
            assert(i < m && holds(plan[i], v));
            assert(was(v));
        } else if i < last {
            assert(i < m && out[i] == plan[i]);
            assert(was(v));
        }
    }
    assert forall|v: int| #[trigger] chosen(v) implies exists|i: int|
        0 <= i < out.len() && #[trigger] holds(out[i], v) by {
        if was(v) {
            let i = choose|i: int| 0 <= i < plan.len() && #[trigger] holds(plan[i], v);
            assert(holds(out[i], v));
        }
    }
    assert forall|i: int, j: int, v: int, w: int|
        0 <= i < j < out.len() && #[trigger] holds(out[i], v) && #[trigger] holds(
            out[j],
            w,
        ) implies v < w by {
        assert(v != n);
        assert(was(v));
        if w != n {
            assert(holds(plan[i], v) && holds(plan[j], w));
        }
    }
}

proof fn lemma_plan(g: Parents, from: Seq<usize>, merging: Seq<usize>, allow_ff: bool, k: int)
    requires
        0 <= k <= usize::MAX,
    ensures
        ({
            let p = plan::plan_to(g, from, merging, allow_ff, k);
            &&& plan::plan_ok(p)
            &&& in_steps(p)
            &&& takes_up(
                p,
                chosen_to(g, from, merging, k),
                fast_one(g, from, merging, allow_ff),
            )
        }),
    decreases k,
{
    if k > 0 {
        lemma_plan(g, from, merging, allow_ff, k - 1);
        let was = chosen_to(g, from, merging, k - 1);
        let now = chosen_to(g, from, merging, k);
        let ff = fast_one(g, from, merging, allow_ff);
        let p = plan::plan_to(g, from, merging, allow_ff, k - 1);
        if plan::due(g, from, merging, k - 1) {
            assert forall|v: int| #[trigger] now(v) == (was(v) || v == (k - 1) as usize) by {}
            lemma_step(p, was, now, ff, (k - 1) as usize);
        } else {
            assert forall|v: int| #[trigger] now(v) implies exists|i: int|
                0 <= i < p.len() && #[trigger] holds(p[i], v) by {
                assert(was(v));
            }
            assert forall|i: int, v: int| 0 <= i < p.len() && #[trigger] holds(
                p[i],
                v,
            ) implies now(v) && p[i] is FF == ff(v) by {
                assert(was(v));
            }
        }
    }
}

/// Whether event `v` finds exactly the events that it follows, when the events before it
/// have been taken up.
pub open spec fn finds_its_own(
    g: Parents,
    from: Seq<usize>,
    merging: Seq<usize>,
    v: int,
) -> bool {
    forall|a: int|
        (graph::in_cone(g, from, a) || a < v && graph::in_cone(g, merging, a)) == (a != v
            && #[trigger] graph::reaches(g, v, a))
}

/// A plan takes up, in order, the events of the version that is merged that the other one does
/// not have. It takes those as they are only that find exactly the events that they follow,
/// and none unless it is allowed to. Its steps are as long as they can be, and it clears
/// between what it transforms and what it then takes as it is, and nowhere else.
pub proof fn law_plan_steps(g: Parents, from: Seq<usize>, merging: Seq<usize>, allow_ff: bool)
    requires
        graph::causal(g),
        g.len() <= usize::MAX,
    ensures
        ({
            let p = plan::plan_to(g, from, merging, allow_ff, g.len() as int);
            &&& in_steps(p)
            &&& forall|i: int, v: int|
                0 <= i < p.len() && #[trigger] holds(p[i], v) ==> {
                    &&& graph::in_cone(g, merging, v)
                    &&& !graph::in_cone(g, from, v)
                    &&& p[i] is FF ==> allow_ff && finds_its_own(g, from, merging, v)
                }
            &&& forall|v: int|
                #![trigger graph::in_cone(g, merging, v)]
                graph::in_cone(g, merging, v) && !graph::in_cone(g, from, v) ==> exists|i: int|
                    0 <= i < p.len() && #[trigger] holds(p[i], v)
            &&& forall|i: int, j: int, v: int, w: int|
                0 <= i < j < p.len() && #[trigger] holds(p[i], v) && #[trigger] holds(p[j], w)
                    ==> v < w
        }),
{
    let n = g.len() as int;
    let p = plan::plan_to(g, from, merging, allow_ff, n);
    let chosen = chosen_to(g, from, merging, n);
    let ff = fast_one(g, from, merging, allow_ff);
    lemma_plan(g, from, merging, allow_ff, n);
    assert forall|i: int, v: int| 0 <= i < p.len() && #[trigger] holds(p[i], v) implies {
        &&& graph::in_cone(g, merging, v)
        &&& !graph::in_cone(g, from, v)
        &&& p[i] is FF ==> allow_ff && finds_its_own(g, from, merging, v)
    } by {
        assert(chosen(v));
        if p[i] is FF {
            assert(ff(v));
            lemma_fast(g, from, merging, v);
        }
    }
    assert forall|v: int|
        #![trigger graph::in_cone(g, merging, v)]
        graph::in_cone(g, merging, v) && !graph::in_cone(g, from, v) implies exists|i: int|
        0 <= i < p.len() && #[trigger] holds(p[i], v) by {
        graph::lemma_cone_order(g, merging, v);
        assert(chosen(v));
    }
}

proof fn lemma_fast(g: Parents, from: Seq<usize>, merging: Seq<usize>, v: int)
    requires
        graph::causal(g),
        g.len() <= usize::MAX,
        0 <= v < g.len(),
        plan::fast(g, from, merging, v),
    ensures
        finds_its_own(g, from, merging, v),
{
    assert forall|a: int|
        (graph::in_cone(g, from, a) || a < v && graph::in_cone(g, merging, a)) == (a != v
            && #[trigger] graph::reaches(g, v, a)) by {
        plan::lemma_front(g, from, merging, v, a);
        graph::lemma_parents_cone(g, v, a);
    }
}

// ---- results ----

/// Whether a result is that of event `v`.
pub open spec fn is_result_of(raw: RawAbs, v: int) -> bool {
    match raw {
        RawAbs::FF { start, end } => start <= v < end,
        RawAbs::Apply { lv, .. } => v == lv,
        RawAbs::Gone { start, end } => start <= v < end,
    }
}

/// Whether one result can follow another: those that could be one are one.
pub open spec fn result_follows(a: RawAbs, b: RawAbs) -> bool {
    match (a, b) {
        (RawAbs::FF { end, .. }, RawAbs::FF { start, .. }) => end < start,
        (RawAbs::Gone { end, .. }, RawAbs::Gone { start, .. }) => end < start,
        _ => true,
    }
}

spec fn results_ok(
    log: ListOpLog,
    from: Seq<usize>,
    merging: Seq<usize>,
    allow_ff: bool,
    raws: Seq<RawAbs>,
    k: int,
) -> bool {
    let h = log.hist();
    &&& forall|i: int, v: int|
        0 <= i < raws.len() && #[trigger] is_result_of(raws[i], v) ==> {
            let ff = allow_ff && plan::fast(h.parents, from, merging, v);
            &&& 0 <= v < k
            &&& raws[i] is FF == ff
            &&& !ff ==> (raws[i] is Gone == (merge::xf_at(h, from, merging, v).ev is None))
        }
    &&& forall|i: int, j: int|
        #![trigger raws[i], raws[j]]
        0 <= i && j == i + 1 && j < raws.len() ==> result_follows(raws[i], raws[j])
    &&& raws.len() > 0 ==> is_result_of(raws[raws.len() - 1], match raws[raws.len() - 1] {
        RawAbs::FF { end, .. } => end - 1,
        RawAbs::Apply { lv, .. } => lv,
        RawAbs::Gone { end, .. } => end - 1,
    })
}

#[verifier::rlimit(40)]
proof fn lemma_results(
    log: ListOpLog,
    from: Seq<usize>,
    merging: Seq<usize>,
    allow_ff: bool,
    k: int,
)
    requires
        0 <= k,
    ensures
        results_ok(
            log,
            from,
            merging,
            allow_ff,
            merge::raws_to(log, from, merging, allow_ff, k),
            k,
        ),
    decreases k,
{
    if k > 0 {
        lemma_results(log, from, merging, allow_ff, k - 1);
        let h = log.hist();
        let was = merge::raws_to(log, from, merging, allow_ff, k - 1);
        let now = merge::raws_to(log, from, merging, allow_ff, k);
        let n = was.len() as int;
        if plan::due(h.parents, from, merging, k - 1) {
            assert forall|i: int, v: int| 0 <= i < now.len() && #[trigger] is_result_of(
                now[i],
                v,
            ) implies {
                let ff = allow_ff && plan::fast(h.parents, from, merging, v);
                &&& 0 <= v < k
                &&& now[i] is FF == ff
                &&& !ff ==> (now[i] is Gone == (merge::xf_at(h, from, merging, v).ev is None))
            } by {
                if v != k - 1 {
                    assert(i < n && is_result_of(was[i], v));
                } else if i < n {
                    assert(!is_result_of(was[i], v));
                }
            }
            assert forall|i: int, j: int|
                #![trigger now[i], now[j]]
                0 <= i && j == i + 1 && j < now.len() implies result_follows(now[i], now[j]) by {
                if j < n {
                    assert(result_follows(was[i], was[j]));
                } else {
                    assert(was[i] == now[i]);
                }
            }
            assert(is_result_of(now[now.len() - 1], k - 1));
        } else {
            assert(now == was);
        }
    }
}

/// The results say of an event that it is taken as it is where that is allowed and the event
/// finds exactly the events that it follows; where that is not allowed, none is. Of the others
/// they say that it is gone where it deletes what is gone already. Results that could be one
/// are one.
pub proof fn law_results(
    log: ListOpLog,
    from: Seq<usize>,
    merging: Seq<usize>,
    allow_ff: bool,
    i: int,
    v: int,
)
    requires
        log.inv(),
        0 <= i < merge::raws_to(log, from, merging, allow_ff, log.size()).len(),
        is_result_of(merge::raws_to(log, from, merging, allow_ff, log.size())[i], v),
    ensures
        ({
            let h = log.hist();
            let raws = merge::raws_to(log, from, merging, allow_ff, log.size());
            &&& 0 <= v < h.len()
            &&& raws[i] is FF ==> allow_ff && finds_its_own(h.parents, from, merging, v)
            &&& allow_ff && from.len() == 0 && names_newest(h.parents) && (forall|a: int|
                0 <= a < h.len() ==> #[trigger] graph::in_cone(h.parents, merging, a))
                ==> raws[i] is FF == follows_all(h.parents, v)
            &&& !(raws[i] is FF) ==> (raws[i] is Gone <==> merge::xf_at(
                h,
                from,
                merging,
                v,
            ).ev is None)
            &&& i + 1 < raws.len() ==> result_follows(raws[i], raws[i + 1])
        }),
{
    let h = log.hist();
    let g = h.parents;
    let raws = merge::raws_to(log, from, merging, allow_ff, log.size());
    log.lemma_hist();
    lemma_results(log, from, merging, allow_ff, log.size());
    if raws[i] is FF {
        lemma_fast(g, from, merging, v);
    }
    if allow_ff && from.len() == 0 && names_newest(g) && (forall|a: int|
        0 <= a < h.len() ==> #[trigger] graph::in_cone(g, merging, a)) {
        assert(from =~= Seq::empty());
        lemma_follows_all(g, merging, v);
    }
}

// ---- what is counted ----

/// Whether a list names events in ascending order, none of which follows another.
pub open spec fn are_newest(g: Parents, list: Seq<usize>) -> bool {
    &&& frontier::ascending(list)
    &&& forall|i: int, j: int|
        0 <= i < list.len() && 0 <= j < list.len() && i != j ==> !graph::reaches(
            g,
            #[trigger] list[i] as int,
            #[trigger] list[j] as int,
        )
}

/// Whether each event names the newest events that it follows, and no other.
pub open spec fn names_newest(g: Parents) -> bool {
    forall|v: int| 0 <= v < g.len() ==> are_newest(g, #[trigger] g[v])
}

/// Whether event `v` follows all events before it.
pub open spec fn follows_all(g: Parents, v: int) -> bool {
    forall|a: int| 0 <= a < v ==> #[trigger] graph::reaches(g, v, a)
}

/// For how many numbers below `n` something holds.
pub open spec fn how_many(p: spec_fn(int) -> bool, n: int) -> int
    decreases n,
{
    if n <= 0 {
        0
    } else {
        how_many(p, n - 1) + if p(n - 1) {
            1int
        } else {
            0
        }
    }
}

proof fn lemma_newest_dominators(g: Parents, list: Seq<usize>)
    requires
        are_newest(g, list),
    ensures
        graph::is_dominators(g, list, list),
{
    assert forall|x: usize| #[trigger] list.contains(x) implies !graph::dominated(
        g,
        list,
        x,
    ) by {
        let j = list.index_of(x);
        if graph::dominated(g, list, x) {
            let i = choose|i: int|
                0 <= i < list.len() && list[i] != x && #[trigger] graph::reaches(
                    g,
                    list[i] as int,
                    x as int,
                );
            assert(!graph::reaches(g, list[i] as int, list[j] as int));
        }
    }
}

proof fn lemma_minus_rises(list: Seq<usize>, out: Seq<usize>)
    requires
        frontier::ascending(list),
    ensures
        frontier::ascending(plan::minus(list, out)),
        forall|i: int|
            0 <= i < plan::minus(list, out).len() ==> {
                &&& list.contains(#[trigger] plan::minus(list, out)[i])
                &&& !out.contains(plan::minus(list, out)[i])
            },
    decreases list.len(),
{
    if list.len() > 0 {
        let before = list.drop_last();
        let m = plan::minus(before, out);
        lemma_minus_rises(before, out);
        assert forall|i: int| 0 <= i < m.len() implies list.contains(#[trigger] m[i])
            && m[i] < list.last() by {
            assert(before.contains(m[i]));
            let j = before.index_of(m[i]);
            assert(list[j] == m[i]);
            assert(list[j] < list[list.len() - 1]);
        }
        assert(list.contains(list[list.len() - 1]));
    }
}

/// The version that is kept track of names the newest events only.
#[verifier::rlimit(60)]
proof fn lemma_front_newest(g: Parents, merging: Seq<usize>, k: int)
    requires
        graph::causal(g),
        0 <= k <= g.len() <= usize::MAX,
    ensures
        ({
            let front = plan::front_at(g, Seq::empty(), merging, k);
            &&& are_newest(g, front)
            &&& forall|i: int| 0 <= i < front.len() ==> (#[trigger] front[i]) < k
        }),
    decreases k,
{
    let none = Seq::<usize>::empty();
    if k > 0 {
        let v = k - 1;
        lemma_front_newest(g, merging, v);
        let front = plan::front_at(g, none, merging, v);
        if plan::due(g, none, merging, v) {
            let kept = plan::minus(front, g[v]);
            let now = kept.push(v as usize);
            lemma_minus_rises(front, g[v]);
            assert forall|i: int| 0 <= i < kept.len() implies (#[trigger] kept[i]) < v by {
                assert(front.contains(kept[i]));
                let j = front.index_of(kept[i]);
                assert(front[j] < v);
            }
            assert forall|i: int, j: int|
                0 <= i < now.len() && 0 <= j < now.len() && i != j implies !graph::reaches(
                g,
                #[trigger] now[i] as int,
                #[trigger] now[j] as int,
            ) by {
                if graph::reaches(g, now[i] as int, now[j] as int) {
                    graph::lemma_reaches_order(g, now[i] as int, now[j] as int);
                    assert(j < kept.len());
                    assert(front.contains(kept[j]));
                    let fj = front.index_of(kept[j]);
                    if i < kept.len() {
                        assert(front.contains(kept[i]));
                        let fi = front.index_of(kept[i]);
                        assert(!graph::reaches(g, front[fi] as int, front[fj] as int));
                    } else {
                        let x = kept[j];
                        let q = choose|q: int|
                            #![trigger g[v][q]]
                            0 <= q < g[v].len() && g[v][q] < v && graph::reaches(
                                g,
                                g[v][q] as int,
                                x as int,
                            );
                        let p = g[v][q];
                        assert(graph::reaches(g, p as int, p as int)) by {
                            graph::lemma_reaches_order(g, p as int, x as int);
                        }
                        assert(graph::reaches(g, v, p as int));
                        graph::lemma_cone_closed(g, merging, v, p as int);
                        plan::lemma_front(g, none, merging, v, p as int);
                        let y = choose|y: int|
                            0 <= y < front.len() && #[trigger] graph::reaches(
                                g,
                                front[y] as int,
                                p as int,
                            );
                        graph::lemma_reaches_trans(g, front[y] as int, p as int, x as int);
                        if y != fj {
                            assert(!graph::reaches(g, front[y] as int, front[fj] as int));
                        }
                        graph::lemma_reaches_order(g, x as int, p as int);
                        graph::lemma_reaches_order(g, p as int, x as int);
                        assert(g[v].contains(x));
                    }
                    assert(false);
                }
            }
        }
    }
}

/// When everything is merged into an empty document, an event is taken as it is if it follows
/// all events before it.
proof fn lemma_follows_all(g: Parents, merging: Seq<usize>, v: int)
    requires
        graph::causal(g),
        names_newest(g),
        0 <= v < g.len() <= usize::MAX,
        forall|a: int| 0 <= a < g.len() ==> #[trigger] graph::in_cone(g, merging, a),
    ensures
        plan::fast(g, Seq::empty(), merging, v) == follows_all(g, v),
{
    let none = Seq::<usize>::empty();
    let front = plan::front_at(g, none, merging, v);
    if plan::fast(g, none, merging, v) {
        lemma_fast(g, none, merging, v);
        assert forall|a: int| 0 <= a < v implies #[trigger] graph::reaches(g, v, a) by {
            assert(graph::in_cone(g, merging, a));
        }
    }
    if follows_all(g, v) {
        lemma_front_newest(g, merging, v);
        assert(are_newest(g, g[v]));
        lemma_newest_dominators(g, g[v]);
        lemma_newest_dominators(g, front);
        assert forall|a: int| #[trigger] graph::in_cone(g, g[v], a) == graph::in_cone(
            g,
            front,
            a,
        ) by {
            plan::lemma_front(g, none, merging, v, a);
            graph::lemma_parents_cone(g, v, a);
            if graph::reaches(g, v, a) {
                graph::lemma_reaches_order(g, v, a);
                assert(graph::in_cone(g, merging, a));
            }
            if graph::in_cone(g, merging, a) {
                graph::lemma_cone_order(g, merging, a);
            }
        }
        assert forall|i: int| 0 <= i < front.len() implies (#[trigger] front[i]) < g.len() by {}
        assert forall|i: int| 0 <= i < g[v].len() implies (#[trigger] g[v][i]) < g.len() by {}
        graph::lemma_dominators_unique(g, g[v], front, g[v], front);
    }
}

#[verifier::rlimit(40)]
proof fn lemma_counts(g: Parents, merging: Seq<usize>, k: int)
    requires
        graph::causal(g),
        names_newest(g),
        0 <= k <= g.len() <= usize::MAX,
        forall|a: int| 0 <= a < g.len() ==> #[trigger] graph::in_cone(g, merging, a),
    ensures
        ({
            let p = plan::plan_to(g, Seq::empty(), merging, true, k);
            &&& plan::clears(p) == how_many(
                |v: int| v > 0 && follows_all(g, v) && !follows_all(g, v - 1),
                k,
            )
            &&& plan::advances(p, false) == how_many(|v: int| !follows_all(g, v), k)
            &&& plan::advances(p, true) == how_many(|v: int| follows_all(g, v), k)
            &&& k == 0 ==> p.len() == 0
            &&& k > 0 ==> p.len() > 0 && match p.last() {
                M1PlanAction::Clear => false,
                M1PlanAction::Apply(r) => r.end == k && r.start < k && !follows_all(g, k - 1),
                M1PlanAction::FF(r) => r.end == k && r.start < k && follows_all(g, k - 1),
            }
        }),
    decreases k,
{
    if k > 0 {
        let none = Seq::<usize>::empty();
        lemma_counts(g, merging, k - 1);
        let was = plan::plan_to(g, none, merging, true, k - 1);
        let now = plan::plan_to(g, none, merging, true, k);
        assert(graph::in_cone(g, merging, k - 1));
        assert(plan::due(g, none, merging, k - 1));
        lemma_follows_all(g, merging, k - 1);
        let f = follows_all(g, k - 1);
        assert(now == plan::plan_step(was, (k - 1) as usize, f));
        if k == 1 {
            assert(now.drop_last() =~= was);
        } else {
            match was.last() {
                M1PlanAction::Apply(r) => {
                    if f {
                        let mid = was.push(M1PlanAction::Clear);
                        assert(now.drop_last() =~= mid);
                        assert(mid.drop_last() =~= was);
                        assert(plan::clears(mid) == plan::clears(was) + 1);
                        assert(plan::advances(mid, true) == plan::advances(was, true));
                        assert(plan::advances(mid, false) == plan::advances(was, false));
                    } else {
                        assert(now.drop_last() =~= was.drop_last());
                    }
                },
                M1PlanAction::FF(r) => {
                    if f {
                        assert(now.drop_last() =~= was.drop_last());
                    } else {
                        assert(now.drop_last() =~= was);
                    }
                },
                M1PlanAction::Clear => {},
            }
        }
    }
}

/// When everything is merged into an empty document, the events that follow all events before
/// them are taken as they are, the others are transformed, and what was known of concurrent
/// events is dropped as often as one of the first comes right behind one of the others.
pub proof fn law_ff_counts(log: ListOpLog)
    requires
        log.inv(),
        names_newest(log.cg.parents()),
    ensures
        ({
            let g = log.cg.parents();
            let p = plan::plan_to(g, Seq::empty(), log.cg.version@, true, log.size());
            &&& plan::clears(p) == how_many(
                |v: int| v > 0 && follows_all(g, v) && !follows_all(g, v - 1),
                g.len() as int,
            )
            &&& plan::advances(p, false) == how_many(
                |v: int| !follows_all(g, v),
                g.len() as int,
            )
            &&& plan::advances(p, true) == how_many(|v: int| follows_all(g, v), g.len() as int)
        }),
{
    let g = log.cg.parents();
    log.lemma_hist();
    assert forall|a: int| 0 <= a < g.len() implies #[trigger] graph::in_cone(
        g,
        log.cg.version@,
        a,
    ) by {
        causal_graph::lemma_tips_cone(g, log.cg.version@, a);
    }
    lemma_counts(g, log.cg.version@, g.len() as int);
}

} // verus!
