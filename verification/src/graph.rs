//! The causal graph: for each event the events that it follows.

use crate::agent_assignment::LV;
use crate::frontier;
use crate::frontier::{copy_of, insert_ascending, Frontier};
use crate::range::DTRange;
use crate::rle;
use crate::rle::{RleVal, RleVec};
use vstd::prelude::*;

verus! {

/// A run of events each of which but the first follows the one before it alone.
#[derive(Debug)]
pub struct GraphRun {
    pub len: usize,
    /// What the first event follows.
    pub parents: Frontier,
}

/// What a [`GraphRun`] says.
#[verifier::ext_equal]
pub struct GraphAbs {
    pub len: int,
    pub parents: Seq<usize>,
}

impl RleVal for GraphRun {
    type Abs = GraphAbs;

    type Item = Seq<usize>;

    open spec fn abs(&self) -> GraphAbs {
        GraphAbs { len: self.len as int, parents: self.parents@ }
    }

    open spec fn valid(a: GraphAbs) -> bool {
        a.len > 0
    }

    open spec fn size(a: GraphAbs) -> int {
        a.len
    }

    open spec fn item(a: GraphAbs, start: int, k: int) -> Seq<usize> {
        if k == 0 {
            a.parents
        } else {
            seq![(start + k - 1) as usize]
        }
    }

    open spec fn joins(a: GraphAbs, b: GraphAbs, at: int) -> bool {
        at > 0 && b.parents == seq![(at - 1) as usize]
    }

    open spec fn join(a: GraphAbs, b: GraphAbs) -> GraphAbs {
        GraphAbs { len: a.len + b.len, parents: a.parents }
    }

    open spec fn part(a: GraphAbs, start: int, from: int, to: int) -> GraphAbs {
        GraphAbs {
            len: to - from,
            parents: if from == 0 {
                a.parents
            } else {
                seq![(start + from - 1) as usize]
            },
        }
    }

    proof fn lemma_size(a: GraphAbs) {
    }

    proof fn lemma_join(a: GraphAbs, b: GraphAbs, start: int) {
    }

    proof fn lemma_part(a: GraphAbs, start: int, from: int, to: int) {
    }

    fn len(&self) -> (out: usize) {
        self.len
    }

    fn can_append_at(&self, other: &GraphRun, at: usize) -> (out: bool) {
        at > 0 && other.parents.is_1(at - 1)
    }

    fn append(&mut self, other: GraphRun, at: usize) {
        self.len = self.len + other.len;
    }

    fn slice(&self, start: usize, from: usize, to: usize) -> (out: GraphRun) {
        let parents = if from == 0 {
            self.parents.clone()
        } else {
            Frontier::new_1(start + from - 1)
        };
        GraphRun { len: to - from, parents }
    }

    fn copied(&self) -> (out: GraphRun) {
        GraphRun { len: self.len, parents: self.parents.clone() }
    }
}

// ---- ancestry ----

/// For each event the events that it follows.
pub type Parents = Seq<Seq<usize>>;

/// Whether every event follows earlier ones only.
pub open spec fn causal(g: Parents) -> bool {
    forall|v: int, i: int|
        #![trigger g[v][i]]
        0 <= v < g.len() && 0 <= i < g[v].len() ==> g[v][i] < v
}

/// Whether event `a` is event `v` or one that `v` follows, at any distance.
pub open spec fn reaches(g: Parents, v: int, a: int) -> bool
    decreases v,
{
    0 <= v < g.len() && (a == v || exists|i: int|
        #![trigger g[v][i]]
        0 <= i < g[v].len() && g[v][i] < v && reaches(g, g[v][i] as int, a))
}

/// Whether event `a` is part of the version with the newest events `front`.
pub open spec fn in_cone(g: Parents, front: Seq<usize>, a: int) -> bool {
    exists|i: int| 0 <= i < front.len() && #[trigger] reaches(g, front[i] as int, a)
}

/// Whether all events of a version are there.
pub open spec fn known(g: Parents, front: Seq<usize>) -> bool {
    forall|i: int| 0 <= i < front.len() ==> (#[trigger] front[i]) < g.len()
}

pub proof fn lemma_reaches_order(g: Parents, v: int, a: int)
    requires
        reaches(g, v, a),
    ensures
        0 <= a <= v < g.len(),
    decreases v,
{
    if a != v {
        let i = choose|i: int|
            #![trigger g[v][i]]
            0 <= i < g[v].len() && g[v][i] < v && reaches(g, g[v][i] as int, a);
        lemma_reaches_order(g, g[v][i] as int, a);
    }
}

pub proof fn lemma_reaches_trans(g: Parents, v: int, b: int, a: int)
    requires
        reaches(g, v, b),
        reaches(g, b, a),
    ensures
        reaches(g, v, a),
    decreases v,
{
    if b != v {
        let i = choose|i: int|
            #![trigger g[v][i]]
            0 <= i < g[v].len() && g[v][i] < v && reaches(g, g[v][i] as int, b);
        lemma_reaches_trans(g, g[v][i] as int, b, a);
    }
}

/// What an event follows is what its parents make up.
pub proof fn lemma_parents_cone(g: Parents, v: int, a: int)
    requires
        causal(g),
        0 <= v < g.len(),
    ensures
        in_cone(g, g[v], a) == (reaches(g, v, a) && a != v),
{
    if in_cone(g, g[v], a) {
        let i = choose|i: int| 0 <= i < g[v].len() && #[trigger] reaches(g, g[v][i] as int, a);
        assert(g[v][i] < v);
        lemma_reaches_order(g, g[v][i] as int, a);
    }
    if reaches(g, v, a) && a != v {
        let i = choose|i: int|
            #![trigger g[v][i]]
            0 <= i < g[v].len() && g[v][i] < v && reaches(g, g[v][i] as int, a);
        assert(reaches(g, g[v][i] as int, a));
    }
}

/// A version holds what its events follow.
pub proof fn lemma_cone_closed(g: Parents, front: Seq<usize>, v: int, a: int)
    requires
        in_cone(g, front, v),
        reaches(g, v, a),
    ensures
        in_cone(g, front, a),
{
    let i = choose|i: int| 0 <= i < front.len() && #[trigger] reaches(g, front[i] as int, v);
    lemma_reaches_trans(g, front[i] as int, v, a);
    assert(reaches(g, front[i] as int, a));
}

pub proof fn lemma_cone_order(g: Parents, front: Seq<usize>, a: int)
    requires
        in_cone(g, front, a),
    ensures
        0 <= a < g.len(),
{
    let i = choose|i: int| 0 <= i < front.len() && #[trigger] reaches(g, front[i] as int, a);
    lemma_reaches_order(g, front[i] as int, a);
}

/// Events that came later change nothing for the earlier ones.
pub proof fn lemma_reaches_prefix(g: Parents, h: Parents, v: int, a: int)
    requires
        g.len() <= h.len(),
        forall|k: int| 0 <= k < g.len() ==> #[trigger] g[k] == h[k],
        v < g.len(),
    ensures
        reaches(g, v, a) == reaches(h, v, a),
    decreases v,
{
    if 0 <= v {
        assert(g[v] == h[v]);
        assert forall|i: int| 0 <= i < g[v].len() && g[v][i] < v implies reaches(
            g,
            #[trigger] g[v][i] as int,
            a,
        ) == reaches(h, g[v][i] as int, a) by {
            lemma_reaches_prefix(g, h, g[v][i] as int, a);
        }
        if reaches(g, v, a) && a != v {
            let i = choose|i: int|
                #![trigger g[v][i]]
                0 <= i < g[v].len() && g[v][i] < v && reaches(g, g[v][i] as int, a);
            assert(h[v][i] < v && reaches(h, h[v][i] as int, a));
        }
        if reaches(h, v, a) && a != v {
            let i = choose|i: int|
                #![trigger h[v][i]]
                0 <= i < h[v].len() && h[v][i] < v && reaches(h, h[v][i] as int, a);
            assert(g[v][i] < v && reaches(g, g[v][i] as int, a));
        }
    }
}

// ---- ranges ----

/// Whether the ranges hold exactly the numbers below `n` that are chosen: in
/// ascending order, none empty, and none touching the next.
pub open spec fn are_ranges(out: Seq<DTRange>, n: int, chosen: spec_fn(int) -> bool) -> bool {
    &&& forall|i: int| 0 <= i < out.len() ==> (#[trigger] out[i]).start < out[i].end <= n
    &&& forall|i: int, j: int|
        0 <= i < j < out.len() ==> (#[trigger] out[i]).end < (#[trigger] out[j]).start
    &&& forall|i: int, v: int|
        0 <= i < out.len() && (#[trigger] out[i]).has(v) ==> #[trigger] chosen(v)
    &&& forall|v: int|
        0 <= v < n && #[trigger] chosen(v) ==> exists|i: int|
            0 <= i < out.len() && (#[trigger] out[i]).has(v)
}

/// The numbers below `n` that are chosen, as ranges: in ascending order, as few as possible.
pub open spec fn ranges_below(n: int, chosen: spec_fn(int) -> bool) -> Seq<DTRange>
    decreases n,
{
    if n <= 0 {
        Seq::empty()
    } else {
        let before = ranges_below(n - 1, chosen);
        let v = n - 1;
        if !chosen(v) {
            before
        } else if before.len() > 0 && before.last().end == v {
            before.drop_last().push(DTRange { start: before.last().start, end: n as usize })
        } else {
            before.push(DTRange { start: v as usize, end: n as usize })
        }
    }
}

/// The ranges depend on which numbers are chosen alone.
pub proof fn lemma_ranges_below(n: int, p: spec_fn(int) -> bool, q: spec_fn(int) -> bool)
    requires
        forall|v: int| 0 <= v < n ==> #[trigger] p(v) == q(v),
    ensures
        ranges_below(n, p) == ranges_below(n, q),
    decreases n,
{
    if n > 0 {
        lemma_ranges_below(n - 1, p, q);
        assert(p(n - 1) == q(n - 1));
    }
}

pub proof fn lemma_ranges_within(n: int, p: spec_fn(int) -> bool)
    requires
        0 <= n <= usize::MAX,
    ensures
        forall|i: int|
            0 <= i < ranges_below(n, p).len() ==> (#[trigger] ranges_below(n, p)[i]).start
                < ranges_below(n, p)[i].end <= n,
    decreases n,
{
    if n > 0 {
        lemma_ranges_within(n - 1, p);
        let before = ranges_below(n - 1, p);
        let all = ranges_below(n, p);
        assert forall|i: int| 0 <= i < all.len() implies (#[trigger] all[i]).start < all[i].end
            <= n by {
            if i < before.len() {
                assert(before[i].start < before[i].end <= n - 1);
            }
        }
    }
}

/// The numbers below the length of `marks` that are marked with `with`, as ranges.
#[verifier::rlimit(50)]
pub fn marked_ranges(marks: &Vec<bool>, with: bool) -> (out: Vec<DTRange>)
    ensures
        are_ranges(out@, marks@.len() as int, |v: int| marks@[v] == with),
        out@ == ranges_below(marks@.len() as int, |v: int| marks@[v] == with),
{
    let mut out: Vec<DTRange> = Vec::new();
    let mut v: usize = 0;
    let ghost chosen = |v: int| marks@[v] == with;
    while v < marks.len()
        invariant
            v <= marks@.len(),
            chosen == |v: int| marks@[v] == with,
            are_ranges(out@, v as int, chosen),
            out@ == ranges_below(v as int, chosen),
        decreases marks@.len() - v,
    {
        let ghost before = out@;
        let n = out.len();
        if marks[v] == with {
            assert(chosen(v as int));
            if n > 0 && out[n - 1].end == v {
                let start = out[n - 1].start;
                out.set(n - 1, DTRange { start, end: v + 1 });
                proof {
                    assert(out@ =~= before.drop_last().push(out@[n - 1]));
                    assert forall|w: int| 0 <= w < v + 1 && #[trigger] chosen(w) implies exists|
                        i: int,
                    |
                        0 <= i < out@.len() && (#[trigger] out@[i]).has(w) by {
                        if w == v {
                            assert(out@[n - 1].has(w));
                        } else {
                            let i = choose|i: int| 0 <= i < before.len() && (#[trigger] before[i]).has(w);
                            assert(out@[i].has(w));
                        }
                    }
                    assert forall|i: int, w: int|
                        0 <= i < out@.len() && (#[trigger] out@[i]).has(
                            w,
                        ) implies #[trigger] chosen(w) by {
                        if w != v {
                            assert(before[i].has(w));
                        }
                    }
                    assert forall|i: int, j: int| 0 <= i < j < out@.len() implies (
                    #[trigger] out@[i]).end < (#[trigger] out@[j]).start by {
                        assert(before[i].end < before[j].start);
                    }
                }
            } else {
                out.push(DTRange { start: v, end: v + 1 });
                proof {
                    assert forall|w: int| 0 <= w < v + 1 && #[trigger] chosen(w) implies exists|
                        i: int,
                    |
                        0 <= i < out@.len() && (#[trigger] out@[i]).has(w) by {
                        if w == v {
                            assert(out@[n as int].has(w));
                        } else {
                            let i = choose|i: int| 0 <= i < before.len() && (#[trigger] before[i]).has(w);
                            assert(out@[i].has(w));
                        }
                    }
                    assert forall|i: int, w: int|
                        0 <= i < out@.len() && (#[trigger] out@[i]).has(
                            w,
                        ) implies #[trigger] chosen(w) by {
                        if i < n {
                            assert(before[i].has(w));
                        }
                    }
                    assert forall|i: int, j: int| 0 <= i < j < out@.len() implies (
                    #[trigger] out@[i]).end < (#[trigger] out@[j]).start by {
                        if j < n {
                            assert(before[i].end < before[j].start);
                        } else {
                            assert(before[i].end <= v);
                            if i < n - 1 {
                                assert(before[i].end < before[n - 1].start);
                            }
                        }
                    }
                }
            }
        } else {
            assert(!chosen(v as int));
        }
        v += 1;
    }
    out
}

// ---- the graph ----

#[derive(Debug)]
pub struct Graph {
    pub entries: RleVec<GraphRun>,
}

impl Graph {
    /// How many events there are.
    pub open spec fn size(&self) -> int {
        self.entries.ends()
    }

    /// For each event the events that it follows.
    pub open spec fn parents(&self) -> Parents {
        Seq::new(
            self.size() as nat,
            |v: int| rle::at::<GraphRun>(self.entries.runs(), v),
        )
    }

    pub open spec fn inv(&self) -> bool {
        &&& rle::packed::<GraphRun>(self.entries.runs())
        &&& causal(self.parents())
    }

    pub fn new() -> (out: Graph)
        ensures
            out.inv(),
            out.parents() == Parents::empty(),
            out.size() == 0,
            out.entries.runs().len() == 0,
    {
        let out = Graph { entries: RleVec::new() };
        assert(out.parents() =~= Parents::empty());
        out
    }

    pub fn len(&self) -> (out: usize)
        requires
            self.inv(),
        ensures
            out == self.size(),
            out == self.parents().len(),
    {
        self.entries.end()
    }

    /// The events that event `v` follows.
    pub fn parents_at(&self, v: LV) -> (out: Frontier)
        requires
            self.inv(),
            v < self.size(),
        ensures
            out@ == self.parents()[v as int],
            forall|i: int| 0 <= i < out@.len() ==> (#[trigger] out@[i]) < v,
    {
        let ghost runs = self.entries.runs();
        proof {
            rle::lemma_packed::<GraphRun>(runs, v as int);
        }
        let i = self.entries.find_index(v).unwrap();
        let entry = &self.entries.0[i];
        assert(runs[i as int] == (entry.0 as int, entry.1.abs()));
        let out = if v == entry.0 {
            entry.1.parents.clone()
        } else {
            Frontier::new_1(v - 1)
        };
        proof {
            let g = self.parents();
            assert(out@ == g[v as int]);
            assert forall|k: int| 0 <= k < out@.len() implies (#[trigger] out@[k]) < v by {
                assert(g[v as int][k] < v);
            }
        }
        out
    }

    /// Adds events, the first of which follows `parents` and each other one the
    /// one before it.
    pub fn push(&mut self, parents: &[LV], span: DTRange)
        requires
            old(self).inv(),
            span.start == old(self).size(),
            span.start < span.end,
            known(old(self).parents(), parents@),
        ensures
            final(self).inv(),
            final(self).size() == span.end,
            final(self).parents() == old(self).parents() + chain(parents@, span),
            final(self).entries.runs() == rle::pushed::<GraphRun>(
                old(self).entries.runs(),
                span.start as int,
                GraphAbs { len: span.size(), parents: parents@ },
            ),
    {
        let ghost runs = self.entries.runs();
        let ghost g = self.parents();
        let ghost added = GraphAbs { len: span.size(), parents: parents@ };
        let run = GraphRun { len: span.end - span.start, parents: Frontier::from_slice(parents) };
        proof {
            rle::lemma_pushed::<GraphRun>(runs, span.start as int, added);
        }
        self.entries.push(span.start, run);
        proof {
            let h = g + chain(parents@, span);
            assert forall|v: int| 0 <= v < h.len() implies self.parents()[v] == #[trigger] h[v] by {
                if v < g.len() {
                    rle::lemma_packed::<GraphRun>(runs, v);
                }
            }
            assert(self.parents() =~= h);
            assert forall|v: int, i: int|
                #![trigger self.parents()[v][i]]
                0 <= v < self.parents().len() && 0 <= i < self.parents()[v].len() implies self.parents()[v][i]
                < v by {
                assert(self.parents()[v] == h[v]);
                if v < g.len() {
                    assert(g[v][i] < v);
                } else if v == g.len() {
                    assert(parents@[i] < g.len());
                }
            }
        }
    }

    /// Marks the events of a version.
    #[verifier::rlimit(50)]
    pub fn cone_marks(&self, front: &[LV]) -> (out: Vec<bool>)
        requires
            self.inv(),
            known(self.parents(), front@),
        ensures
            out@.len() == self.size(),
            forall|a: int|
                0 <= a < out@.len() ==> #[trigger] out@[a] == in_cone(self.parents(), front@, a),
    {
        let ghost g = self.parents();
        let n = self.len();
        let mut marks = unmarked(n);
        let mut i: usize = 0;
        while i < front.len()
            invariant
                g == self.parents(),
                known(g, front@),
                marks@.len() == n,
                n == g.len(),
                i <= front@.len(),
                forall|j: int| 0 <= j < i ==> marks@[#[trigger] front@[j] as int],
                forall|a: int| 0 <= a < n && #[trigger] marks@[a] ==> in_cone(g, front@, a),
            decreases front@.len() - i,
        {
            let lv = front[i];
            assert(front@[i as int] < g.len());
            assert(reaches(g, front@[i as int] as int, lv as int));
            marks.set(lv, true);
            i += 1;
        }
        let mut v: usize = n;
        while v > 0
            invariant
                self.inv(),
                g == self.parents(),
                known(g, front@),
                marks@.len() == n,
                n == g.len(),
                v <= n,
                forall|j: int| 0 <= j < front@.len() ==> marks@[#[trigger] front@[j] as int],
                forall|a: int| 0 <= a < n && #[trigger] marks@[a] ==> in_cone(g, front@, a),
                closed_from(g, marks@, v as int),
            decreases v,
        {
            v -= 1;
            if marks[v] {
                let parents = self.parents_at(v);
                let ghost before = marks@;
                let mut k: usize = 0;
                while k < parents.0.len()
                    invariant
                        causal(g),
                        marks@.len() == n,
                        n == g.len(),
                        v < n,
                        k <= parents@.len(),
                        parents@ == g[v as int],
                        in_cone(g, front@, v as int),
                        forall|i: int| 0 <= i < parents@.len() ==> (#[trigger] parents@[i]) < v,
                        forall|a: int| v <= a < n ==> #[trigger] marks@[a] == before[a],
                        forall|a: int| 0 <= a < n && before[a] ==> #[trigger] marks@[a],
                        forall|i: int| 0 <= i < k ==> marks@[#[trigger] parents@[i] as int],
                        forall|a: int| 0 <= a < n && #[trigger] marks@[a] ==> in_cone(g, front@, a),
                    decreases parents@.len() - k,
                {
                    let p = parents.0[k];
                    proof {
                        assert(g[v as int][k as int] == p);
                        assert(reaches(g, p as int, p as int));
                        assert(reaches(g, v as int, p as int));
                        lemma_cone_closed(g, front@, v as int, p as int);
                    }
                    marks.set(p, true);
                    k += 1;
                }
                proof {
                    assert forall|j: int| 0 <= j < front@.len() implies marks@[#[trigger] front@[j] as int] by {
                        assert(front@[j] < g.len());
                        assert(before[front@[j] as int]);
                    }
                    assert forall|w: int, i: int|
                        #![trigger g[w][i]]
                        v <= w < g.len() && 0 <= i < g[w].len() && marks@[w] implies marks@[g[w][i] as int] by {
                        if w > v {
                            assert(before[w]);
                            assert(before[g[w][i] as int]);
                            assert(g[w][i] < w);
                        } else {
                            assert(parents@[i] == g[w][i]);
                        }
                    }
                }
            }
        }
        proof {
            assert forall|a: int| 0 <= a < n implies #[trigger] marks@[a] == in_cone(
                g,
                front@,
                a,
            ) by {
                if in_cone(g, front@, a) {
                    let j = choose|j: int|
                        0 <= j < front@.len() && #[trigger] reaches(g, front@[j] as int, a);
                    assert(marks@[front@[j] as int]);
                    lemma_marks_reach(g, marks@, front@[j] as int, a);
                }
            }
        }
        marks
    }

    /// The events that only one of two versions holds.
    pub fn diff(&self, a: &[LV], b: &[LV]) -> (out: (Vec<DTRange>, Vec<DTRange>))
        requires
            self.inv(),
            known(self.parents(), a@),
            known(self.parents(), b@),
        ensures
            are_ranges(
                out.0@,
                self.size(),
                |v: int| in_cone(self.parents(), a@, v) && !in_cone(self.parents(), b@, v),
            ),
            are_ranges(
                out.1@,
                self.size(),
                |v: int| in_cone(self.parents(), b@, v) && !in_cone(self.parents(), a@, v),
            ),
            out.0@ == ranges_below(
                self.size(),
                |v: int| in_cone(self.parents(), a@, v) && !in_cone(self.parents(), b@, v),
            ),
            out.1@ == ranges_below(
                self.size(),
                |v: int| in_cone(self.parents(), b@, v) && !in_cone(self.parents(), a@, v),
            ),
    {
        let in_a = self.cone_marks(a);
        let in_b = self.cone_marks(b);
        let only_a = only_first(&in_a, &in_b);
        let only_b = only_first(&in_b, &in_a);
        let first = marked_ranges(&only_a, true);
        let second = marked_ranges(&only_b, true);
        proof {
            let g = self.parents();
            lemma_same_ranges(
                first@,
                self.size(),
                |v: int| only_a@[v] == true,
                |v: int| in_cone(g, a@, v) && !in_cone(g, b@, v),
            );
            lemma_same_ranges(
                second@,
                self.size(),
                |v: int| only_b@[v] == true,
                |v: int| in_cone(g, b@, v) && !in_cone(g, a@, v),
            );
            lemma_ranges_below(
                self.size(),
                |v: int| only_a@[v] == true,
                |v: int| in_cone(g, a@, v) && !in_cone(g, b@, v),
            );
            lemma_ranges_below(
                self.size(),
                |v: int| only_b@[v] == true,
                |v: int| in_cone(g, b@, v) && !in_cone(g, a@, v),
            );
        }
        (first, second)
    }

    /// The events that a version does not hold.
    pub fn diff_since(&self, version: &[LV]) -> (out: Vec<DTRange>)
        requires
            self.inv(),
            known(self.parents(), version@),
        ensures
            are_ranges(out@, self.size(), |v: int| !in_cone(self.parents(), version@, v)),
            out@ == ranges_below(self.size(), |v: int| !in_cone(self.parents(), version@, v)),
    {
        let marks = self.cone_marks(version);
        let out = marked_ranges(&marks, false);
        proof {
            let g = self.parents();
            lemma_same_ranges(
                out@,
                self.size(),
                |v: int| marks@[v] == false,
                |v: int| !in_cone(g, version@, v),
            );
            lemma_ranges_below(
                self.size(),
                |v: int| marks@[v] == false,
                |v: int| !in_cone(g, version@, v),
            );
        }
        out
    }

    /// The events of two versions that no other event of them follows: the newest
    /// events of the two together.
    #[verifier::rlimit(80)]
    pub fn find_dominators_2(&self, a: &[LV], b: &[LV]) -> (out: Frontier)
        requires
            self.inv(),
            known(self.parents(), a@),
            known(self.parents(), b@),
        ensures
            is_dominators(self.parents(), a@ + b@, out@),
            known(self.parents(), out@),
    {
        let ghost g = self.parents();
        let ghost all = a@ + b@;
        let mut below: Vec<LV> = Vec::new();
        let mut list = copy_of(a);
        let mut k: usize = 0;
        while k < b.len()
            invariant
                k <= b@.len(),
                list@ == a@ + b@.take(k as int),
            decreases b@.len() - k,
        {
            list.push(b[k]);
            k += 1;
            assert(list@ =~= a@ + b@.take(k as int));
        }
        assert(b@.take(k as int) =~= b@);
        let mut i: usize = 0;
        while i < list.len()
            invariant
                self.inv(),
                g == self.parents(),
                list@ == all,
                known(g, all),
                i <= list@.len(),
                known(g, below@),
                forall|x: usize| #[trigger]
                    below@.contains(x) <==> exists|j: int|
                        0 <= j < i && (#[trigger] g[all[j] as int]).contains(x),
            decreases list@.len() - i,
        {
            assert(all[i as int] < g.len());
            let parents = self.parents_at(list[i]);
            let ghost before = below@;
            let mut k: usize = 0;
            while k < parents.0.len()
                invariant
                    k <= parents@.len(),
                    below@ == before + parents@.take(k as int),
                decreases parents@.len() - k,
            {
                below.push(parents.0[k]);
                k += 1;
                assert(below@ =~= before + parents@.take(k as int));
            }
            proof {
                assert(parents@.take(k as int) =~= parents@);
                assert forall|x: usize| #[trigger]
                    below@.contains(x) <==> before.contains(x) || parents@.contains(x) by {
                    if before.contains(x) {
                        assert(below@[before.index_of(x)] == x);
                    }
                    if parents@.contains(x) {
                        assert(below@[before.len() + parents@.index_of(x)] == x);
                    }
                }
                assert forall|j: int| 0 <= j < below@.len() implies (#[trigger] below@[j])
                    < g.len() by {
                    if j < before.len() {
                        assert(below@[j] == before[j]);
                    } else {
                        assert(below@[j] == parents@[j - before.len()]);
                    }
                }
            }
            i += 1;
        }
        let marks = self.cone_marks(below.as_slice());
        let mut out: Vec<LV> = Vec::new();
        let mut i: usize = 0;
        while i < list.len()
            invariant
                list@ == all,
                known(g, all),
                marks@.len() == g.len(),
                i <= list@.len(),
                frontier::ascending(out@),
                forall|x: usize| #[trigger]
                    out@.contains(x) <==> all.take(i as int).contains(x) && !marks@[x as int],
            decreases list@.len() - i,
        {
            let x = list[i];
            assert(all[i as int] < g.len());
            let ghost before = out@;
            if !marks[x] {
                insert_ascending(&mut out, x);
            }
            proof {
                assert forall|y: usize| #[trigger]
                    all.take(i + 1).contains(y) <==> all.take(i as int).contains(y) || y == x by {
                    if all.take(i as int).contains(y) {
                        assert(all.take(i + 1)[all.take(i as int).index_of(y)] == y);
                    }
                    assert(all.take(i + 1)[i as int] == x);
                    if all.take(i + 1).contains(y) && y != x {
                        let j = all.take(i + 1).index_of(y);
                        assert(all.take(i as int)[j] == y);
                    }
                }
            }
            i += 1;
        }
        proof {
            assert(all.take(i as int) =~= all);
            assert forall|x: usize| all.contains(x) implies #[trigger] marks@[x as int]
                == dominated(g, all, x) by {
                lemma_below(g, all, below@, x);
            }
            assert forall|x: usize| #[trigger]
                out@.contains(x) <==> all.contains(x) && !dominated(g, all, x) by {
                if all.contains(x) {
                    assert(marks@[x as int] == dominated(g, all, x));
                }
            }
            assert forall|j: int| 0 <= j < out@.len() implies (#[trigger] out@[j]) < g.len() by {
                assert(out@.contains(out@[j]));
                let m = all.index_of(out@[j]);
                assert(all[m] < g.len());
            }
        }
        Frontier(out)
    }
}

/// A list of `n` marks, none of which is set.
pub fn unmarked(n: usize) -> (out: Vec<bool>)
    ensures
        out@.len() == n,
        forall|i: int| 0 <= i < n ==> !#[trigger] out@[i],
{
    let mut out: Vec<bool> = Vec::new();
    while out.len() < n
        invariant
            out@.len() <= n,
            forall|i: int| 0 <= i < out@.len() ==> !#[trigger] out@[i],
        decreases n - out@.len(),
    {
        out.push(false);
    }
    out
}

fn only_first(a: &Vec<bool>, b: &Vec<bool>) -> (out: Vec<bool>)
    requires
        a@.len() == b@.len(),
    ensures
        out@.len() == a@.len(),
        forall|i: int| 0 <= i < out@.len() ==> #[trigger] out@[i] == (a@[i] && !b@[i]),
{
    let mut out: Vec<bool> = Vec::new();
    let mut i: usize = 0;
    while i < a.len()
        invariant
            a@.len() == b@.len(),
            i <= a@.len(),
            out@.len() == i,
            forall|j: int| 0 <= j < i ==> #[trigger] out@[j] == (a@[j] && !b@[j]),
        decreases a@.len() - i,
    {
        out.push(a[i] && !b[i]);
        i += 1;
    }
    out
}

/// Whether the marks hold, for each marked event from `from` on, also what it
/// follows.
spec fn closed_from(g: Parents, marks: Seq<bool>, from: int) -> bool {
    forall|w: int, i: int|
        #![trigger g[w][i]]
        from <= w < g.len() && 0 <= i < g[w].len() && marks[w] ==> marks[g[w][i] as int]
}

proof fn lemma_marks_reach(g: Parents, marks: Seq<bool>, v: int, a: int)
    requires
        closed_from(g, marks, 0),
        reaches(g, v, a),
        marks[v],
    ensures
        marks[a],
    decreases v,
{
    if a != v {
        let i = choose|i: int|
            #![trigger g[v][i]]
            0 <= i < g[v].len() && g[v][i] < v && reaches(g, g[v][i] as int, a);
        lemma_marks_reach(g, marks, g[v][i] as int, a);
    }
}

proof fn lemma_same_ranges(
    out: Seq<DTRange>,
    n: int,
    p: spec_fn(int) -> bool,
    q: spec_fn(int) -> bool,
)
    requires
        are_ranges(out, n, p),
        forall|v: int|
            #![trigger p(v)]
            #![trigger q(v)]
            0 <= v < n ==> p(v) == q(v),
    ensures
        are_ranges(out, n, q),
{
    assert forall|i: int, v: int| 0 <= i < out.len() && (#[trigger] out[i]).has(v) implies #[trigger] q(
        v,
    ) by {
        assert(p(v));
    }
    assert forall|v: int| 0 <= v < n && #[trigger] q(v) implies exists|i: int|
        0 <= i < out.len() && (#[trigger] out[i]).has(v) by {
        assert(p(v));
    }
}

/// Whether another event of the list follows `x`.
pub open spec fn dominated(g: Parents, list: Seq<usize>, x: usize) -> bool {
    exists|i: int|
        0 <= i < list.len() && list[i] != x && #[trigger] reaches(g, list[i] as int, x as int)
}

/// Whether `out` holds, in ascending order, the events of the list that no
/// other event of it follows.
pub open spec fn is_dominators(g: Parents, list: Seq<usize>, out: Seq<usize>) -> bool {
    &&& frontier::ascending(out)
    &&& forall|x: usize| #[trigger]
        out.contains(x) <==> list.contains(x) && !dominated(g, list, x)
}

proof fn lemma_below(g: Parents, list: Seq<usize>, below: Seq<usize>, x: usize)
    requires
        causal(g),
        known(g, list),
        forall|y: usize| #[trigger]
            below.contains(y) <==> exists|j: int|
                0 <= j < list.len() && (#[trigger] g[list[j] as int]).contains(y),
    ensures
        in_cone(g, below, x as int) == dominated(g, list, x),
{
    if in_cone(g, below, x as int) {
        let i = choose|i: int|
            0 <= i < below.len() && #[trigger] reaches(g, below[i] as int, x as int);
        assert(below.contains(below[i]));
        let j = choose|j: int|
            0 <= j < list.len() && (#[trigger] g[list[j] as int]).contains(below[i]);
        let v = list[j] as int;
        assert(v < g.len());
        let k = g[v].index_of(below[i]);
        assert(g[v][k] == below[i]);
        assert(reaches(g, v, x as int));
        lemma_reaches_order(g, below[i] as int, x as int);
        assert(list[j] != x);
    }
    if dominated(g, list, x) {
        let j = choose|j: int|
            0 <= j < list.len() && list[j] != x && #[trigger] reaches(g, list[j] as int, x as int);
        let v = list[j] as int;
        let k = choose|k: int|
            #![trigger g[v][k]]
            0 <= k < g[v].len() && g[v][k] < v && reaches(g, g[v][k] as int, x as int);
        let y = g[v][k];
        assert(g[list[j] as int].contains(y));
        assert(below.contains(y));
        let i = below.index_of(y);
        assert(reaches(g, below[i] as int, x as int));
    }
}

/// The newest events of a list of events make up the same version as the list.
pub proof fn lemma_dominators_cone(g: Parents, list: Seq<usize>, out: Seq<usize>, a: int)
    requires
        known(g, list),
        is_dominators(g, list, out),
    ensures
        in_cone(g, out, a) == in_cone(g, list, a),
{
    if in_cone(g, out, a) {
        let i = choose|i: int| 0 <= i < out.len() && #[trigger] reaches(g, out[i] as int, a);
        assert(out.contains(out[i]));
        let j = list.index_of(out[i]);
        assert(reaches(g, list[j] as int, a));
    }
    if in_cone(g, list, a) {
        let i = choose|i: int| 0 <= i < list.len() && #[trigger] reaches(g, list[i] as int, a);
        lemma_dominator_of(g, list, out, i);
        let j = choose|j: int|
            0 <= j < out.len() && #[trigger] reaches(g, out[j] as int, list[i] as int);
        lemma_reaches_trans(g, out[j] as int, list[i] as int, a);
        assert(reaches(g, out[j] as int, a));
    }
}

/// Every event of a list is one of its newest events or one that they follow.
proof fn lemma_dominator_of(g: Parents, list: Seq<usize>, out: Seq<usize>, i: int)
    requires
        known(g, list),
        is_dominators(g, list, out),
        0 <= i < list.len(),
    ensures
        exists|j: int| 0 <= j < out.len() && #[trigger] reaches(g, out[j] as int, list[i] as int),
    decreases g.len() - list[i],
{
    let x = list[i];
    assert(list[i] < g.len());
    assert(list.contains(x));
    if dominated(g, list, x) {
        let k = choose|k: int|
            0 <= k < list.len() && list[k] != x && #[trigger] reaches(g, list[k] as int, x as int);
        lemma_reaches_order(g, list[k] as int, x as int);
        lemma_dominator_of(g, list, out, k);
        let j = choose|j: int|
            0 <= j < out.len() && #[trigger] reaches(g, out[j] as int, list[k] as int);
        lemma_reaches_trans(g, out[j] as int, list[k] as int, x as int);
        assert(reaches(g, out[j] as int, list[i] as int));
    } else {
        assert(out.contains(x));
        let j = out.index_of(x);
        assert(reaches(g, out[j] as int, list[i] as int));
    }
}

/// What the events of a span follow, of which the first follows `parents`.
pub open spec fn chain(parents: Seq<usize>, span: DTRange) -> Parents {
    Seq::new(
        span.size() as nat,
        |k: int|
            if k == 0 {
                parents
            } else {
                seq![(span.start + k - 1) as usize]
            },
    )
}

/// The newest events of a list are known if those of the list are.
pub proof fn lemma_dominators_known(g: Parents, list: Seq<usize>, out: Seq<usize>)
    requires
        known(g, list),
        is_dominators(g, list, out),
    ensures
        known(g, out),
{
    assert forall|i: int| 0 <= i < out.len() implies (#[trigger] out[i]) < g.len() by {
        assert(out.contains(out[i]));
        let j = list.index_of(out[i]);
        assert(list[j] < g.len());
    }
}

/// One of the newest events of a list is followed by no other event that they hold.
pub proof fn lemma_dominator_newest(g: Parents, list: Seq<usize>, out: Seq<usize>, x: usize, y: int)
    requires
        known(g, list),
        is_dominators(g, list, out),
        out.contains(x),
        in_cone(g, out, y),
        reaches(g, y, x as int),
    ensures
        y == x,
{
    let i = choose|i: int| 0 <= i < out.len() && #[trigger] reaches(g, out[i] as int, y);
    let z = out[i];
    assert(out.contains(z));
    lemma_reaches_trans(g, z as int, y, x as int);
    if z != x {
        let j = list.index_of(z);
        assert(reaches(g, list[j] as int, x as int));
        assert(dominated(g, list, x));
    }
    lemma_reaches_order(g, z as int, y);
    lemma_reaches_order(g, y, x as int);
}

/// Newest events that hold the same events are the same.
pub proof fn lemma_dominators_unique(
    g: Parents,
    a: Seq<usize>,
    b: Seq<usize>,
    x: Seq<usize>,
    y: Seq<usize>,
)
    requires
        known(g, a),
        known(g, b),
        is_dominators(g, a, x),
        is_dominators(g, b, y),
        forall|v: int| #[trigger] in_cone(g, x, v) == in_cone(g, y, v),
    ensures
        x == y,
{
    lemma_dominators_known(g, a, x);
    lemma_dominators_known(g, b, y);
    assert forall|v: usize| #[trigger] x.contains(v) == y.contains(v) by {
        if x.contains(v) {
            lemma_newest_in(g, a, b, x, y, v);
        }
        if y.contains(v) {
            lemma_newest_in(g, b, a, y, x, v);
        }
    }
    frontier::lemma_ascending_same(x, y);
}

proof fn lemma_newest_in(
    g: Parents,
    a: Seq<usize>,
    b: Seq<usize>,
    x: Seq<usize>,
    y: Seq<usize>,
    v: usize,
)
    requires
        known(g, a),
        known(g, x),
        is_dominators(g, a, x),
        is_dominators(g, b, y),
        known(g, y),
        forall|w: int| #[trigger] in_cone(g, x, w) == in_cone(g, y, w),
        x.contains(v),
    ensures
        y.contains(v),
{
    let i = x.index_of(v);
    assert(x[i] < g.len());
    assert(reaches(g, x[i] as int, v as int));
    assert(in_cone(g, x, v as int));
    assert(in_cone(g, y, v as int));
    let j = choose|j: int| 0 <= j < y.len() && #[trigger] reaches(g, y[j] as int, v as int);
    assert(y[j] < g.len());
    assert(reaches(g, y[j] as int, y[j] as int));
    assert(in_cone(g, y, y[j] as int));
    lemma_dominator_newest(g, a, x, v, y[j] as int);
    assert(y.contains(y[j]));
}

} // verus!
