//! Replays a history: works out where every item stands and what every delete
//! takes away.

use crate::agent_assignment::AgentAssignment;
use crate::graph;
use crate::graph::unmarked;
use crate::history;
use crate::history::{Hist, Track};
use crate::history_laws;
use crate::operation::EvOp;
use crate::oplog::{Ev, ListOpLog};
use crate::order;
use crate::order::{Node, Nodes};
use vstd::prelude::*;

verus! {

/// Stands for "no item".
pub const NONE: usize = usize::MAX;

/// What a number says: [`NONE`] is -1.
pub open spec fn code(x: usize) -> int {
    if x == NONE {
        -1
    } else {
        x as int
    }
}

pub open spec fn codes(list: Seq<usize>) -> Seq<int> {
    list.map_values(|x: usize| code(x))
}

/// The place of an item in the tree.
pub struct TreeNode {
    pub parent: usize,
    pub rightward: bool,
    pub right: usize,
}

pub open spec fn node_view(node: TreeNode, id: (Seq<char>, int)) -> Node {
    Node { parent: code(node.parent), rightward: node.rightward, right: code(node.right), id }
}

pub open spec fn nodes_view(nodes: Seq<TreeNode>, h: Hist) -> Nodes {
    Seq::new(nodes.len(), |v: int| node_view(nodes[v], h.ids[v]))
}

/// What the events of a history make.
pub struct Tracker {
    pub nodes: Vec<TreeNode>,
    pub items: Vec<usize>,
    pub target: Vec<usize>,
    /// Whether an event inserted where others did without knowledge of each other.
    pub collided: bool,
}

impl Tracker {
    pub open spec fn track(&self, h: Hist) -> Track {
        Track {
            nodes: nodes_view(self.nodes@, h),
            items: codes(self.items@),
            target: codes(self.target@),
        }
    }

    /// Whether this is what the first `k` events make.
    pub open spec fn is(&self, h: Hist, k: int) -> bool {
        &&& 0 <= k <= h.len() <= NONE
        &&& self.track(h) == history::track(h, k)
        &&& self.collided == exists|v: int| 0 <= v < k && #[trigger] history::collides(h, v)
        &&& self.nodes@.len() == k
        &&& self.target@.len() == k
        &&& forall|i: int| 0 <= i < self.items@.len() ==> (#[trigger] self.items@[i]) < k
        &&& forall|d: int|
            0 <= d < self.target@.len() ==> (#[trigger] self.target@[d]) == NONE || self.target@[d]
                < k
    }

    /// The nodes from the root down to `x`.
    #[verifier::rlimit(40)]
    fn path_of(&self, x: usize, Ghost(h): Ghost<Hist>) -> (out: Vec<usize>)
        requires
            order::rooted(nodes_view(self.nodes@, h)),
            self.nodes@.len() <= NONE,
            x < self.nodes@.len(),
        ensures
            codes(out@) == order::path(nodes_view(self.nodes@, h), x as int),
            forall|i: int| 0 <= i < out@.len() ==> (#[trigger] out@[i]) < self.nodes@.len(),
    {
        let ghost nodes = nodes_view(self.nodes@, h);
        let ghost whole = order::path(nodes, x as int);
        let mut up: Vec<usize> = Vec::new();
        let mut cur: usize = x;
        proof {
            assert(codes(up@).reverse() =~= Seq::<int>::empty());
            assert(whole =~= order::path(nodes, code(cur)) + codes(up@).reverse());
        }
        while cur != NONE
            invariant
                nodes == nodes_view(self.nodes@, h),
                order::rooted(nodes),
                self.nodes@.len() <= NONE,
                cur == NONE || cur < self.nodes@.len(),
                whole == order::path(nodes, code(cur)) + codes(up@).reverse(),
                forall|i: int| 0 <= i < up@.len() ==> (#[trigger] up@[i]) < self.nodes@.len(),
            decreases code(cur) + 1,
        {
            let ghost before = up@;
            up.push(cur);
            let parent = self.nodes[cur].parent;
            proof {
                assert(nodes[cur as int].parent == code(parent));
                assert(order::path(nodes, code(cur)) == order::path(nodes, code(parent)).push(
                    cur as int,
                ));
                assert(codes(up@).reverse() =~= seq![cur as int] + codes(before).reverse());
                assert(order::path(nodes, code(cur)) + codes(before).reverse() =~= order::path(
                    nodes,
                    code(parent),
                ) + codes(up@).reverse());
            }
            cur = parent;
        }
        let mut out: Vec<usize> = Vec::new();
        let mut i: usize = up.len();
        assert(order::path(nodes, -1) =~= Seq::<int>::empty());
        assert(whole =~= codes(up@).reverse());
        while i > 0
            invariant
                i <= up@.len(),
                out@.len() == up@.len() - i,
                forall|j: int| 0 <= j < out@.len() ==> #[trigger] out@[j] == up@[up@.len() - 1 - j],
            decreases i,
        {
            i -= 1;
            out.push(up[i]);
        }
        assert(codes(out@) =~= codes(up@).reverse());
        out
    }

    /// Whether item `x` stands before item `y`.
    #[verifier::rlimit(50)]
    fn less(&self, aa: &AgentAssignment, x: usize, y: usize, Ghost(log): Ghost<ListOpLog>) -> (out:
        bool)
        requires
            log.inv(),
            *aa == log.cg.agent_assignment,
            order::rooted(nodes_view(self.nodes@, log.hist())),
            self.nodes@.len() <= log.size(),
            x < self.nodes@.len(),
            y < self.nodes@.len(),
        ensures
            out == order::less(nodes_view(self.nodes@, log.hist()), x as int, y as int),
        decreases
            (if x < y {
                y
            } else {
                x
            }),
    {
        let ghost h = log.hist();
        let ghost nodes = nodes_view(self.nodes@, h);
        proof {
            log.lemma_hist();
        }
        let p = self.path_of(x, Ghost(h));
        let q = self.path_of(y, Ghost(h));
        let mut d: usize = 0;
        while d < p.len() && d < q.len() && p[d] == q[d]
            invariant
                d <= p@.len(),
                d <= q@.len(),
                forall|i: int| 0 <= i < d ==> p@[i] == q@[i],
            decreases p@.len() - d,
        {
            d += 1;
        }
        proof {
            let a = codes(p@);
            let b = codes(q@);
            order::lemma_path(nodes, x as int);
            order::lemma_path(nodes, y as int);
            assert forall|i: int| 0 <= i < d implies a[i] == b[i] by {
                assert(p@[i] == q@[i]);
            }
            assert(d < p@.len() && d < q@.len() ==> a[d as int] != b[d as int]);
            order::lemma_common_is(a, b, d as int);
            order::lemma_part(nodes, x as int, y as int);
        }
        if d >= p.len() {
            if d >= q.len() {
                false
            } else {
                self.nodes[q[d]].rightward
            }
        } else if d >= q.len() {
            !self.nodes[p[d]].rightward
        } else {
            let u = p[d];
            let w = q[d];
            proof {
                assert(codes(p@)[d as int] == u);
                assert(codes(q@)[d as int] == w);
                assert(nodes[u as int].right < u && nodes[w as int].right < w);
                assert(log.cg.agent_assignment.id_of(u as int).1 < usize::MAX);
                assert(log.cg.agent_assignment.id_of(w as int).1 < usize::MAX);
            }
            let a = &self.nodes[u];
            let b = &self.nodes[w];
            if a.rightward != b.rightward {
                b.rightward
            } else if !a.rightward || a.right == b.right {
                aa.comes_before(u, w)
            } else if a.right == NONE {
                true
            } else if b.right == NONE {
                false
            } else {
                self.less(aa, b.right, a.right, Ghost(log))
            }
        }
    }

    /// Whether item `b` is below a right child of item `a`, or is one.
    fn right_of(&self, b: usize, a: usize, Ghost(h): Ghost<Hist>) -> (out: bool)
        requires
            order::rooted(nodes_view(self.nodes@, h)),
            self.nodes@.len() <= NONE,
            a < self.nodes@.len(),
            b < self.nodes@.len(),
        ensures
            out == order::right_of(nodes_view(self.nodes@, h), b as int, a as int),
    {
        let p = self.path_of(a, Ghost(h));
        let q = self.path_of(b, Ghost(h));
        let ghost pp = codes(p@);
        let ghost qq = codes(q@);
        if p.len() >= q.len() {
            return false;
        }
        let mut d: usize = 0;
        while d < p.len()
            invariant
                d <= p@.len(),
                p@.len() < q@.len(),
                pp == codes(p@),
                qq == codes(q@),
                forall|i: int| 0 <= i < d ==> p@[i] == q@[i],
                forall|i: int| 0 <= i < q@.len() ==> (#[trigger] q@[i]) < self.nodes@.len(),
                forall|i: int| 0 <= i < p@.len() ==> (#[trigger] p@[i]) < self.nodes@.len(),
                self.nodes@.len() <= NONE,
                pp == order::path(nodes_view(self.nodes@, h), a as int),
                qq == order::path(nodes_view(self.nodes@, h), b as int),
            decreases p@.len() - d,
        {
            if p[d] != q[d] {
                proof {
                    assert(pp[d as int] == p@[d as int]);
                    assert(qq[d as int] == q@[d as int]);
                    if qq.take(pp.len() as int) == pp {
                        assert(qq.take(pp.len() as int)[d as int] == pp[d as int]);
                    }
                }
                return false;
            }
            d += 1;
        }
        proof {
            assert forall|i: int| 0 <= i < pp.len() implies qq.take(pp.len() as int)[i]
                == pp[i] by {
                assert(p@[i] == q@[i]);
            }
            assert(qq.take(pp.len() as int) =~= pp);
            assert(qq[pp.len() as int] == q@[p@.len() as int]);
        }
        self.nodes[q[p.len()]].rightward
    }
}

/// Whether the marks say which events are among `s`, and which items those delete.
pub open spec fn marked(t: Track, s: Set<int>, marks: Seq<bool>, gone: Seq<bool>, n: int) -> bool {
    &&& marks.len() == n
    &&& gone.len() == n
    &&& forall|x: int| 0 <= x < n ==> #[trigger] marks[x] == s.contains(x)
    &&& forall|x: int| 0 <= x < n ==> #[trigger] gone[x] == history::gone(t, s, x)
}

impl Tracker {
    /// Where the place for a character at `pos` begins; none if the document ends
    /// before.
    fn gap_from(
        &self,
        marks: &Vec<bool>,
        gone: &Vec<bool>,
        pos: usize,
        Ghost(t): Ghost<Track>,
        Ghost(s): Ghost<Set<int>>,
        Ghost(n): Ghost<int>,
    ) -> (out: Option<usize>)
        requires
            t.items == codes(self.items@),
            marked(t, s, marks@, gone@, n),
            n <= NONE,
            forall|i: int| 0 <= i < self.items@.len() ==> (#[trigger] self.items@[i]) < n,
        ensures
            out is Some <==> pos <= history::shown(t, s).len(),
            out matches Some(i) ==> i == history::gap_start(t, s, pos as int) && i
                <= self.items@.len(),
    {
        let mut i: usize = 0;
        let mut count: usize = 0;
        while count < pos && i < self.items.len()
            invariant
                t.items == codes(self.items@),
                marked(t, s, marks@, gone@, n),
                n <= NONE,
                forall|j: int| 0 <= j < self.items@.len() ==> (#[trigger] self.items@[j]) < n,
                i <= self.items@.len(),
                count <= pos,
                count == history::rank(t, s, i as int),
                count == pos && pos > 0 ==> history::is_nth(t, s, pos - 1, i - 1),
                i == 0 ==> count == 0,
                count == pos && pos == 0 ==> i == 0,
            decreases self.items@.len() - i,
        {
            let x = self.items[i];
            assert(t.items[i as int] == x);
            assert(history::shows(t, s)(x as int) == (marks@[x as int] && !gone@[x as int]));
            if marks[x] && !gone[x] {
                count += 1;
            }
            i += 1;
        }
        proof {
            history::lemma_kept_prefix(
                t.items,
                history::shows(t, s),
                i as int,
                t.items.len() as int,
            );
            if count == pos && pos > 0 {
                history_laws::lemma_nth(t, s, pos - 1);
            }
        }
        if count == pos {
            Some(i)
        } else {
            None
        }
    }

    /// Which item is character `pos` of the document; none if the document ends
    /// before.
    fn nth_from(
        &self,
        marks: &Vec<bool>,
        gone: &Vec<bool>,
        pos: usize,
        Ghost(t): Ghost<Track>,
        Ghost(s): Ghost<Set<int>>,
        Ghost(n): Ghost<int>,
    ) -> (out: Option<usize>)
        requires
            t.items == codes(self.items@),
            marked(t, s, marks@, gone@, n),
            n <= NONE,
            forall|i: int| 0 <= i < self.items@.len() ==> (#[trigger] self.items@[i]) < n,
        ensures
            out is Some <==> pos < history::shown(t, s).len(),
            out matches Some(i) ==> i == history::nth(t, s, pos as int) && i < self.items@.len(),
    {
        let mut i: usize = 0;
        let mut count: usize = 0;
        while i < self.items.len()
            invariant
                t.items == codes(self.items@),
                marked(t, s, marks@, gone@, n),
                n <= NONE,
                forall|j: int| 0 <= j < self.items@.len() ==> (#[trigger] self.items@[j]) < n,
                i <= self.items@.len(),
                count <= pos,
                count == history::rank(t, s, i as int),
            decreases self.items@.len() - i,
        {
            let x = self.items[i];
            assert(t.items[i as int] == x);
            assert(history::shows(t, s)(x as int) == (marks@[x as int] && !gone@[x as int]));
            if marks[x] && !gone[x] {
                if count == pos {
                    proof {
                        assert(history::is_nth(t, s, pos as int, i as int));
                        history::lemma_kept_at(t.items, history::shows(t, s), i as int);
                        history_laws::lemma_nth(t, s, pos as int);
                    }
                    return Some(i);
                }
                count += 1;
            }
            i += 1;
        }
        None
    }

    /// The first item from `from` on that is marked, or the end.
    fn gap_to(
        &self,
        marks: &Vec<bool>,
        from: usize,
        Ghost(s): Ghost<Set<int>>,
        Ghost(n): Ghost<int>,
    ) -> (out: usize)
        requires
            marks@.len() == n,
            n <= NONE,
            forall|x: int| 0 <= x < n ==> #[trigger] marks@[x] == s.contains(x),
            forall|i: int| 0 <= i < self.items@.len() ==> (#[trigger] self.items@[i]) < n,
            from <= self.items@.len(),
        ensures
            out == history::next_known(codes(self.items@), s, from as int),
            from <= out <= self.items@.len(),
    {
        let mut i: usize = from;
        while i < self.items.len() && !marks[self.items[i]]
            invariant
                marks@.len() == n,
                n <= NONE,
                forall|x: int| 0 <= x < n ==> #[trigger] marks@[x] == s.contains(x),
                forall|j: int| 0 <= j < self.items@.len() ==> (#[trigger] self.items@[j]) < n,
                from <= i <= self.items@.len(),
                history::next_known(codes(self.items@), s, from as int) == history::next_known(
                    codes(self.items@),
                    s,
                    i as int,
                ),
            decreases self.items@.len() - i,
        {
            assert(codes(self.items@)[i as int] == self.items@[i as int]);
            i += 1;
        }
        proof {
            if i < self.items@.len() {
                assert(codes(self.items@)[i as int] == self.items@[i as int]);
            }
        }
        i
    }

    /// Event `v` inserts at `pos`. Gives whether it finds its place.
    #[verifier::rlimit(50)]
    fn step_ins(
        &mut self,
        log: &ListOpLog,
        marks: &Vec<bool>,
        gone: &Vec<bool>,
        v: usize,
        pos: usize,
    ) -> (out: bool)
        requires
            log.inv(),
            v < log.size(),
            old(self).is(log.hist(), v as int),
            history::playable_to(log.hist(), v as int),
            log.hist().ops[v as int] matches EvOp::Ins { pos: p, .. } && p == pos,
            marked(
                history::track(log.hist(), v as int),
                log.hist().seen_by(v as int),
                marks@,
                gone@,
                log.size(),
            ),
        ensures
            out == history::placed(log.hist(), v as int),
            out ==> final(self).is(log.hist(), v + 1),
    {
        let ghost h = log.hist();
        let ghost t = history::track(h, v as int);
        let ghost s = h.seen_by(v as int);
        let ghost n = log.size();
        proof {
            log.lemma_hist();
            assert(h.len() == n);
            history_laws::lemma_track(h, v as int);
        }
        let from = match self.gap_from(marks, gone, pos, Ghost(t), Ghost(s), Ghost(n)) {
            Some(from) => from,
            None => {
                return false;
            },
        };
        proof {
            history_laws::lemma_seat_in_gap(h, t, v as int, pos as int);
            history_laws::lemma_gap(t, s, pos as int);
        }
        let end = self.gap_to(marks, from, Ghost(s), Ghost(n));
        let a = if from == 0 {
            NONE
        } else {
            self.items[from - 1]
        };
        let b = if end < self.items.len() {
            self.items[end]
        } else {
            NONE
        };
        proof {
            if from > 0 {
                assert(t.items[from - 1] == self.items@[from - 1]);
            }
            if end < self.items@.len() {
                assert(t.items[end as int] == self.items@[end as int]);
            }
            assert(code(a) == history::left_of_gap(t, s, pos as int));
            assert(code(b) == history::right_of_gap(t, s, pos as int));
        }
        let below = b != NONE && (a == NONE || self.right_of(b, a, Ghost(h)));
        let node = if below {
            TreeNode { parent: b, rightward: false, right: b }
        } else {
            TreeNode { parent: a, rightward: true, right: b }
        };
        let ghost before = self.nodes@;
        self.nodes.push(node);
        let ghost nodes = t.nodes.push(history::new_node(h, t, v as int, pos as int));
        proof {
            assert(node_view(node, h.ids[v as int]) == history::new_node(h, t, v as int, pos as int));
            assert(nodes_view(self.nodes@, h) =~= nodes) by {
                assert forall|x: int| 0 <= x < v implies nodes_view(self.nodes@, h)[x]
                    == nodes[x] by {
                    assert(nodes_view(before, h)[x] == t.nodes[x]);
                }
            }
        }
        if from < end {
            self.collided = true;
        }
        let mut at: usize = from;
        while at < end && self.less(&log.cg.agent_assignment, self.items[at], v, Ghost(*log))
            invariant
                log.inv(),
                h == log.hist(),
                v < log.size(),
                nodes == nodes_view(self.nodes@, h),
                order::rooted(nodes),
                self.nodes@.len() == v + 1,
                from <= at <= end <= self.items@.len(),
                t.items == codes(self.items@),
                forall|i: int| 0 <= i < self.items@.len() ==> (#[trigger] self.items@[i]) < v,
                order::seat(nodes, t.items, v as int, from as int) == order::seat(
                    nodes,
                    t.items,
                    v as int,
                    at as int,
                ),
                self.items == old(self).items,
                self.target == old(self).target,
                self.collided == (old(self).collided || from < end),
            decreases end - at,
        {
            assert(t.items[at as int] == self.items@[at as int]);
            at += 1;
        }
        proof {
            if at < end {
                assert(t.items[at as int] == self.items@[at as int]);
            } else {
                order::lemma_seat(nodes, t.items, v as int, at as int);
            }
            assert(at == order::seat(nodes, t.items, v as int, 0));
        }
        self.items.insert(at, v);
        self.target.push(NONE);
        proof {
            let now = history::track(h, v + 1);
            assert(codes(self.items@) =~= t.items.insert(at as int, v as int));
            assert(codes(self.target@) =~= t.target.push(-1));
            assert(self.track(h) =~= now);
            assert(history::collides(h, v as int) == (from < end));
            lemma_collided(h, v as int);
        }
        true
    }

    /// Event `v` deletes at `pos`. Gives whether it finds its place.
    fn step_del(
        &mut self,
        log: &ListOpLog,
        marks: &Vec<bool>,
        gone: &Vec<bool>,
        v: usize,
        pos: usize,
    ) -> (out: bool)
        requires
            log.inv(),
            v < log.size(),
            old(self).is(log.hist(), v as int),
            history::playable_to(log.hist(), v as int),
            log.hist().ops[v as int] matches EvOp::Del { pos: p } && p == pos,
            marked(
                history::track(log.hist(), v as int),
                log.hist().seen_by(v as int),
                marks@,
                gone@,
                log.size(),
            ),
        ensures
            out == history::placed(log.hist(), v as int),
            out ==> final(self).is(log.hist(), v + 1),
    {
        let ghost h = log.hist();
        let ghost t = history::track(h, v as int);
        let ghost s = h.seen_by(v as int);
        let ghost n = log.size();
        proof {
            log.lemma_hist();
        }
        let i = match self.nth_from(marks, gone, pos, Ghost(t), Ghost(s), Ghost(n)) {
            Some(i) => i,
            None => {
                return false;
            },
        };
        let ghost before = self.nodes@;
        let x = self.items[i];
        self.nodes.push(TreeNode { parent: NONE, rightward: false, right: NONE });
        self.target.push(x);
        proof {
            let now = history::track(h, v + 1);
            assert(t.items[i as int] == x);
            assert(nodes_view(self.nodes@, h) =~= now.nodes) by {
                assert forall|y: int| 0 <= y < v implies nodes_view(self.nodes@, h)[y]
                    == now.nodes[y] by {
                    assert(nodes_view(before, h)[y] == t.nodes[y]);
                }
            }
            assert(codes(self.target@) =~= t.target.push(x as int));
            assert(self.track(h) =~= now);
            lemma_collided(h, v as int);
        }
        true
    }
}

proof fn lemma_collided(h: Hist, v: int)
    requires
        0 <= v,
    ensures
        (exists|w: int| 0 <= w < v + 1 && #[trigger] history::collides(h, w)) == ((exists|w: int|
            0 <= w < v && #[trigger] history::collides(h, w)) || history::collides(h, v)),
{
}

/// Marks the items that the marked events delete.
pub fn gone_marks(target: &Vec<usize>, marks: &Vec<bool>, Ghost(t): Ghost<Track>, Ghost(s): Ghost<
    Set<int>,
>) -> (out: Vec<bool>)
    requires
        t.target == codes(target@),
        target@.len() <= marks@.len() <= NONE,
        forall|x: int| 0 <= x < marks@.len() ==> #[trigger] marks@[x] == s.contains(x),
        forall|d: int|
            0 <= d < target@.len() ==> (#[trigger] target@[d]) == NONE || target@[d] < marks@.len(),
    ensures
        marked(t, s, marks@, out@, marks@.len() as int),
{
    let n = marks.len();
    let mut out = unmarked(n);
    let mut d: usize = 0;
    while d < target.len()
        invariant
            t.target == codes(target@),
            target@.len() <= n,
            n == marks@.len(),
            n <= NONE,
            out@.len() == n,
            d <= target@.len(),
            forall|x: int| 0 <= x < n ==> #[trigger] marks@[x] == s.contains(x),
            forall|e: int|
                0 <= e < target@.len() ==> (#[trigger] target@[e]) == NONE || target@[e] < n,
            forall|x: int|
                0 <= x < n ==> #[trigger] out@[x] == exists|e: int|
                    0 <= e < d && s.contains(e) && #[trigger] t.target[e] == x,
        decreases target@.len() - d,
    {
        let x = target[d];
        let ghost before = out@;
        assert(t.target[d as int] == code(x));
        if x != NONE && marks[d] {
            out.set(x, true);
        }
        proof {
            assert forall|y: int| 0 <= y < n implies #[trigger] out@[y] == exists|e: int|
                0 <= e < d + 1 && s.contains(e) && #[trigger] t.target[e] == y by {
                let now = exists|e: int|
                    0 <= e < d + 1 && s.contains(e) && #[trigger] t.target[e] == y;
                let was = exists|e: int| 0 <= e < d && s.contains(e) && #[trigger] t.target[e] == y;
                assert(before[y] == was);
                if now {
                    let e = choose|e: int|
                        0 <= e < d + 1 && s.contains(e) && #[trigger] t.target[e] == y;
                    if e == d {
                        assert(marks@[d as int]);
                    }
                }
            }
        }
        d += 1;
    }
    proof {
        assert forall|x: int| 0 <= x < n implies #[trigger] out@[x] == history::gone(t, s, x) by {}
    }
    out
}

/// Works out what the events of a log make; none if an event does not find its
/// place in the document that its author saw.
#[verifier::rlimit(50)]
pub fn replay(log: &ListOpLog) -> (out: Option<Tracker>)
    requires
        log.inv(),
    ensures
        out is Some <==> history::playable(log.hist()),
        out matches Some(t) ==> t.is(log.hist(), log.size()),
{
    let ghost h = log.hist();
    proof {
        log.lemma_hist();
    }
    let n = log.len();
    let events = log.all_events();
    let mut t = Tracker {
        nodes: Vec::new(),
        items: Vec::new(),
        target: Vec::new(),
        collided: false,
    };
    let mut marks = unmarked(n);
    let mut gone = unmarked(n);
    let mut v: usize = 0;
    proof {
        assert(t.track(h) =~= history::track(h, 0));
    }
    while v < n
        invariant
            log.inv(),
            h == log.hist(),
            h.valid(),
            n == log.size(),
            h.len() == n,
            v <= n,
            events@.len() == n,
            forall|w: int| 0 <= w < n ==> (#[trigger] events@[w])@ == log.op_of(w),
            t.is(h, v as int),
            history::playable_to(h, v as int),
            marks@.len() == n,
            gone@.len() == n,
            v > 0 ==> marked(
                history::track(h, v - 1),
                h.seen_by(v - 1),
                marks@,
                gone@,
                n as int,
            ),
        decreases n - v,
    {
        let parents = log.cg.graph.parents_at(v);
        let ghost s = h.seen_by(v as int);
        let ghost tv = history::track(h, v as int);
        if v > 0 && parents.is_1(v - 1) {
            // One event more than the one before it saw.
            let ghost was_marks = marks@;
            let ghost was_gone = gone@;
            marks.set(v - 1, true);
            let x = t.target[v - 1];
            if x != NONE {
                gone.set(x, true);
            }
            proof {
                lemma_next_marks(h, v as int, was_marks, was_gone, marks@, gone@);
                assert(codes(t.target@)[v - 1] == code(x));
            }
        } else {
            marks = log.cg.graph.cone_marks(parents.as_ref());
            proof {
                assert forall|x: int| 0 <= x < n implies #[trigger] marks@[x] == s.contains(x) by {}
            }
            gone = gone_marks(&t.target, &marks, Ghost(tv), Ghost(s));
        }
        assert(h.ops[v as int] == events@[v as int]@);
        let ok = match events[v] {
            Ev::Ins { pos, .. } => t.step_ins(log, &marks, &gone, v, pos),
            Ev::Del { pos } => t.step_del(log, &marks, &gone, v, pos),
        };
        if !ok {
            return None;
        }
        v += 1;
    }
    Some(t)
}

/// What an event saw that follows the one before it alone.
proof fn lemma_next_marks(
    h: Hist,
    v: int,
    was_marks: Seq<bool>,
    was_gone: Seq<bool>,
    marks: Seq<bool>,
    gone: Seq<bool>,
)
    requires
        h.valid(),
        0 < v < h.len(),
        h.len() <= NONE,
        history::playable_to(h, v),
        h.parents[v] == seq![(v - 1) as usize],
        marked(history::track(h, v - 1), h.seen_by(v - 1), was_marks, was_gone, h.len() as int),
        marks == was_marks.update(v - 1, true),
        gone == (if history::track(h, v).target[v - 1] < 0 {
            was_gone
        } else {
            was_gone.update(history::track(h, v).target[v - 1], true)
        }),
    ensures
        marked(history::track(h, v), h.seen_by(v), marks, gone, h.len() as int),
{
    let t = history::track(h, v - 1);
    let n = history::track(h, v);
    let s = h.seen_by(v - 1);
    let s2 = h.seen_by(v);
    history_laws::lemma_track(h, v - 1);
    history_laws::lemma_track(h, v);
    assert(h.parents[v].len() == 1 && h.parents[v][0] == v - 1);
    assert forall|a: int| #[trigger] s2.contains(a) == (s.contains(a) || a == v - 1) by {
        graph::lemma_parents_cone(h.parents, v - 1, a);
        if s2.contains(a) {
            let i = choose|i: int|
                0 <= i < h.parents[v].len() && #[trigger] graph::reaches(
                    h.parents,
                    h.parents[v][i] as int,
                    a,
                );
            assert(graph::reaches(h.parents, v - 1, a));
        }
        if s.contains(a) || a == v - 1 {
            assert(graph::reaches(h.parents, v - 1, a));
            assert(graph::reaches(h.parents, h.parents[v][0] as int, a));
        }
    }
    assert(!s.contains(v - 1)) by {
        graph::lemma_parents_cone(h.parents, v - 1, v - 1);
    }
    let x = n.target[v - 1];
    assert forall|y: int| 0 <= y < h.len() implies #[trigger] gone[y] == history::gone(
        n,
        s2,
        y,
    ) by {
        assert(was_gone[y] == history::gone(t, s, y));
        if history::gone(n, s2, y) {
            let d = choose|d: int|
                0 <= d < n.target.len() && s2.contains(d) && #[trigger] n.target[d] == y;
            if d < v - 1 {
                assert(t.target[d] == n.target[d]);
                assert(s.contains(d));
            }
        }
        if history::gone(t, s, y) {
            let d = choose|d: int|
                0 <= d < t.target.len() && s.contains(d) && #[trigger] t.target[d] == y;
            assert(n.target[d] == y);
            assert(s2.contains(d));
        }
        if y == x {
            assert(s2.contains(v - 1));
            assert(n.target[v - 1] == y);
        }
    }
}

} // verus!
