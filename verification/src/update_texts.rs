//! What updates say in the form in which peers exchange them.

use crate::braid;
use crate::braid::BraidUpdate;
use crate::decimal;
use crate::events;
use crate::events::EventAbs;
use crate::full_range;
use crate::full_range::Piece;
use crate::graph;
use crate::history::Hist;
use crate::observed_history;
use crate::observed_history::{RunAbs, UpdateAbs};
use crate::operation;
use crate::operation::EvOp;
use crate::oplog::ListOpLog;
use crate::smart_string;
use crate::sorting;
use crate::stored_laws;
use vstd::prelude::*;

verus! {

/// Whether an update is the events `first..end` of a history.
///
/// It names the first and the last of them, and what the first one follows, in dictionary
/// order: each by the author's name, a dash, and the digits of the author's count. The
/// events have one author, who counted them one after the other, and each but the first
/// follows the one before it alone. What they type is put where the first one typed, and
/// what they delete, from the last character to the first, is replaced by nothing.
pub open spec fn tells(h: Hist, out: BraidUpdate, first: int, end: int) -> bool {
    let (name, seq) = h.ids[first];
    let parents = sorting::texts_of(out.parents@);
    let patch = out.patches@[0];
    &&& 0 <= first < end <= h.len()
    &&& out.first_event@ == name + seq!['-'] + decimal::decimal(seq)
    &&& out.version@.len() == 1
    &&& out.version@[0]@ == name + seq!['-'] + decimal::decimal(h.ids[end - 1].1)
    &&& forall|k: int|
        #![trigger h.ids[k]]
        #![trigger h.parents[k]]
        first < k < end ==> {
            &&& h.ids[k] == (name, seq + (k - first))
            &&& h.parents[k] == seq![(k - 1) as usize]
        }
    &&& parents.to_multiset() == h.parents[first].map_values(
        |p: usize| h.ids[p as int].0 + seq!['-'] + decimal::decimal(h.ids[p as int].1),
    ).to_multiset()
    &&& forall|i: int, j: int|
        0 <= i < j < parents.len() ==> !smart_string::text_less(
            #[trigger] parents[j],
            #[trigger] parents[i],
        )
    &&& out.patches@.len() == 1
    &&& patch.unit@ == seq!['t', 'e', 'x', 't']
    &&& match h.ops[first] {
        EvOp::Ins { pos, .. } => {
            &&& patch.range@ == seq!['['] + decimal::decimal(pos) + seq![':'] + decimal::decimal(pos)
                + seq![']']
            &&& patch.content@.len() == end - first
            &&& forall|k: int|
                first <= k < end ==> #[trigger] h.ops[k] == (EvOp::Ins {
                    pos: pos + (k - first),
                    ch: patch.content@[k - first],
                })
        },
        EvOp::Del { pos } => {
            &&& patch.range@ == seq!['['] + decimal::decimal(pos + 1 - (end - first)) + seq![':']
                + decimal::decimal(pos + 1) + seq![']']
            &&& patch.content@.len() == 0
            &&& forall|k: int|
                first <= k < end ==> #[trigger] h.ops[k] == (EvOp::Del { pos: pos - (k - first) })
        },
    }
}

/// The events `from..to`.
pub open spec fn between(from: int, to: int) -> spec_fn(int) -> bool {
    |v: int| from <= v < to
}

/// The events of a history that a version has not seen.
pub open spec fn unseen(h: Hist, version: Seq<usize>) -> spec_fn(int) -> bool {
    |v: int| 0 <= v < h.len() && !graph::in_cone(h.parents, version, v)
}

/// Whether updates are the events of a history that are meant, each once, in their order.
pub open spec fn tell(
    h: Hist,
    out: Seq<BraidUpdate>,
    spans: Seq<(int, int)>,
    meant: spec_fn(int) -> bool,
) -> bool {
    &&& spans.len() == out.len()
    &&& forall|i: int|
        0 <= i < out.len() ==> tells(h, #[trigger] out[i], spans[i].0, spans[i].1)
    &&& forall|i: int, j: int|
        0 <= i < j < spans.len() ==> (#[trigger] spans[i]).1 <= (#[trigger] spans[j]).0
    &&& forall|i: int, v: int|
        0 <= i < spans.len() && (#[trigger] spans[i]).0 <= v < spans[i].1 ==> #[trigger] meant(v)
    &&& forall|v: int|
        0 <= v < h.len() && #[trigger] meant(v) ==> exists|i: int|
            0 <= i < spans.len() && (#[trigger] spans[i]).0 <= v < spans[i].1
}

/// An update that says what a run of events is tells of these.
#[verifier::rlimit(60)]
proof fn lemma_tells(h: Hist, u: UpdateAbs, out: BraidUpdate, first: int)
    requires
        h.valid(),
        observed_history::update_ok(h, u),
        braid::says(h, out, u),
        full_range::is_run(
            h,
            first,
            observed_history::update_op(u),
            u.parents,
            u.name,
            u.seq_end + 1 - (u.pos_end - u.pos_start),
        ),
    ensures
        tells(h, out, first, first + (u.pos_end - u.pos_start)),
{
    let n = u.pos_end - u.pos_start;
    let end = first + n;
    let op = observed_history::update_op(u);
    let seq = u.seq_end + 1 - n;
    let patch = out.patches@[0];
    reveal_strlit("text");
    assert(patch.unit@ =~= seq!['t', 'e', 'x', 't']);
    assert(h.ids[first + 0] == (u.name, seq));
    assert(h.ids[first + (n - 1)] == (u.name, seq + (n - 1)));
    assert(h.parents[first + 0] == u.parents);
    assert(h.ops[first + 0] == op.event(0));
    assert(out.first_event@ =~= u.name + seq!['-'] + decimal::decimal(seq));
    assert(sorting::texts_of(out.version@).len() == 1);
    assert(sorting::texts_of(out.version@)[0] == out.version@[0]@);
    assert(out.version@[0]@ =~= u.name + seq!['-'] + decimal::decimal(u.seq_end));
    assert forall|k: int|
        #![trigger h.ids[k]]
        #![trigger h.parents[k]]
        first < k < end implies {
        &&& h.ids[k] == (u.name, seq + (k - first))
        &&& h.parents[k] == seq![(k - 1) as usize]
    } by {
        let j = k - first;
        assert(h.ids[first + j] == (u.name, seq + j));
        assert(h.parents[first + j] == seq![(first + j - 1) as usize]);
    }
    let named = h.parents[first].map_values(
        |p: usize| h.ids[p as int].0 + seq!['-'] + decimal::decimal(h.ids[p as int].1),
    );
    let told = braid::event_texts(events::ids_of(h, u.parents));
    assert forall|i: int| 0 <= i < told.len() implies #[trigger] told[i] == named[i] by {
        let id = h.ids[u.parents[i] as int];
        assert(events::ids_of(h, u.parents)[i] == id);
        assert(told[i] == braid::event_text(id));
        assert(told[i] =~= id.0 + seq!['-'] + decimal::decimal(id.1));
    }
    assert(told =~= named);
    match u.content {
        Some(c) => {
            assert(patch.range@ =~= seq!['['] + decimal::decimal(u.pos_start) + seq![':']
                + decimal::decimal(u.pos_start) + seq![']']);
            assert forall|k: int| first <= k < end implies #[trigger] h.ops[k] == (EvOp::Ins {
                pos: u.pos_start + (k - first),
                ch: patch.content@[k - first],
            }) by {
                assert(h.ops[first + (k - first)] == op.event(k - first));
            }
        },
        None => {
            assert(patch.range@ =~= seq!['['] + decimal::decimal(u.pos_start) + seq![':']
                + decimal::decimal(u.pos_end) + seq![']']);
            assert forall|k: int| first <= k < end implies #[trigger] h.ops[k] == (EvOp::Del {
                pos: u.pos_end - 1 - (k - first),
            }) by {
                assert(h.ops[first + (k - first)] == op.event(k - first));
            }
        },
    }
}

/// How many events the first `i` updates read as.
spec fn told_before(h: Hist, list: Seq<UpdateAbs>, i: int) -> int {
    observed_history::told_all(h, list.take(i)).len() as int
}

/// The events of update `i` stand behind those of the updates before it.
proof fn lemma_told_at(h: Hist, list: Seq<UpdateAbs>, i: int)
    requires
        0 <= i < list.len(),
    ensures
        ({
            let all = observed_history::told_all(h, list);
            let told = observed_history::told(h, list[i]);
            let at = told_before(h, list, i);
            &&& told_before(h, list, i + 1) == at + told.len()
            &&& at + told.len() <= all.len()
            &&& forall|k: int| 0 <= k < told.len() ==> all[at + k] == #[trigger] told[k]
        }),
{
    let front = list.take(i + 1);
    let rest = list.skip(i + 1);
    assert(list =~= front + rest);
    observed_history::lemma_told_concat(h, front, rest);
    assert(front.drop_last() =~= list.take(i));
    assert(front.last() == list[i]);
}

/// Every event is one of some update.
proof fn lemma_told_where(h: Hist, list: Seq<UpdateAbs>, j: int, n: int) -> (i: int)
    requires
        0 <= n <= list.len(),
        0 <= j < told_before(h, list, n),
    ensures
        0 <= i < n,
        told_before(h, list, i) <= j < told_before(h, list, i + 1),
    decreases n,
{
    if n == 0 {
        assert(list.take(0) =~= Seq::<UpdateAbs>::empty());
        0
    } else if told_before(h, list, n - 1) <= j {
        n - 1
    } else {
        lemma_told_where(h, list, j, n - 1)
    }
}

/// What earlier updates read as stands before what later ones read as.
proof fn lemma_told_before(h: Hist, list: Seq<UpdateAbs>, i: int, j: int)
    requires
        0 <= i <= j <= list.len(),
    ensures
        0 <= told_before(h, list, i) <= told_before(h, list, j),
    decreases j - i,
{
    if i < j {
        lemma_told_before(h, list, i, j - 1);
        lemma_told_at(h, list, j - 1);
    }
}

/// Updates that read as the events at the places `ws` tell of these.
#[verifier::rlimit(60)]
proof fn lemma_tell(
    h: Hist,
    list: Seq<UpdateAbs>,
    out: Seq<BraidUpdate>,
    ws: Seq<int>,
    meant: spec_fn(int) -> bool,
) -> (spans: Seq<(int, int)>)
    requires
        h.valid(),
        observed_history::updates_true(h, list),
        braid::all_say(h, out, list),
        observed_history::told_all(h, list).len() == ws.len(),
        forall|j: int|
            0 <= j < ws.len() ==> {
                &&& 0 <= #[trigger] ws[j] < h.len()
                &&& meant(ws[j])
                &&& observed_history::told_all(h, list)[j] == events::event_of(h, ws[j])
            },
        forall|j: int, k: int| 0 <= j < k < ws.len() ==> ws[j] < ws[k],
        forall|v: int| 0 <= v < h.len() && #[trigger] meant(v) ==> ws.contains(v),
    ensures
        tell(h, out, spans, meant),
        forall|i: int|
            0 <= i < spans.len() ==> {
                let u = list[i];
                &&& full_range::is_run(
                    h,
                    (#[trigger] spans[i]).0,
                    observed_history::update_op(u),
                    u.parents,
                    u.name,
                    u.seq_end + 1 - (u.pos_end - u.pos_start),
                )
                &&& spans[i].1 == spans[i].0 + (u.pos_end - u.pos_start)
            },
{
    let all = observed_history::told_all(h, list);
    let spans = Seq::new(
        list.len(),
        |i: int| (
            ws[told_before(h, list, i)],
            ws[told_before(h, list, i)] + (list[i].pos_end - list[i].pos_start),
        ),
    );
    assert(list.take(list.len() as int) =~= list);
    // Each event of an update stands at its place.
    assert forall|i: int, k: int|
        0 <= i < list.len() && 0 <= k < list[i].pos_end - list[i].pos_start implies {
        &&& 0 <= told_before(h, list, i) + k < ws.len()
        &&& #[trigger] ws[told_before(h, list, i) + k] == (#[trigger] spans[i]).0 + k
        &&& told_before(h, list, i + 1) == told_before(h, list, i) + (list[i].pos_end
            - list[i].pos_start)
        &&& tells(h, out[i], spans[i].0, spans[i].1)
        &&& full_range::is_run(
            h,
            spans[i].0,
            observed_history::update_op(list[i]),
            list[i].parents,
            list[i].name,
            list[i].seq_end + 1 - (list[i].pos_end - list[i].pos_start),
        )
    } by {
        let u = list[i];
        let n = u.pos_end - u.pos_start;
        let seq = u.seq_end + 1 - n;
        let at = told_before(h, list, i);
        assert(observed_history::update_true(h, u));
        let first = choose|first: int| #[trigger]
            full_range::is_run(
                h,
                first,
                observed_history::update_op(u),
                u.parents,
                u.name,
                seq,
            );
        lemma_told_at(h, list, i);
        lemma_told_before(h, list, 0, i);
        let told = observed_history::told(h, u);
        assert(told.len() == n);
        assert forall|m: int| 0 <= m < n implies #[trigger] ws[at + m] == first + m by {
            assert(all[at + m] == told[m]);
            assert(told[m] == observed_history::told_event(h, u, m));
            assert(h.ids[first + m] == (u.name, seq + m));
            assert(h.ids[ws[at + m]] == h.ids[first + m]);
            let a = ws[at + m];
            let b = first + m;
            if a < b {
                assert(h.ids[a] != h.ids[b]);
            } else if b < a {
                assert(h.ids[b] != h.ids[a]);
            }
        }
        assert(ws[at + 0] == first);
        assert(ws[at + k] == first + k);
        assert(braid::says(h, out[i], u));
        lemma_tells(h, u, out[i], first);
    }
    assert forall|i: int| 0 <= i < out.len() implies tells(
        h,
        #[trigger] out[i],
        spans[i].0,
        spans[i].1,
    ) by {
        assert(observed_history::update_true(h, list[i]));
        assert(ws[told_before(h, list, i) + 0] == spans[i].0 + 0);
    }
    assert forall|i: int, j: int| 0 <= i < j < spans.len() implies (#[trigger] spans[i]).1 <= (
    #[trigger] spans[j]).0 by {
        assert(observed_history::update_true(h, list[i]));
        assert(observed_history::update_true(h, list[j]));
        let n = list[i].pos_end - list[i].pos_start;
        let a = told_before(h, list, i) + (n - 1);
        let b = told_before(h, list, j) + 0;
        assert(ws[told_before(h, list, i) + (n - 1)] == spans[i].0 + (n - 1));
        assert(ws[told_before(h, list, j) + 0] == spans[j].0 + 0);
        lemma_told_before(h, list, i + 1, j);
        assert(a < b);
        assert(ws[a] < ws[b]);
    }
    assert forall|i: int, v: int|
        0 <= i < spans.len() && (#[trigger] spans[i]).0 <= v < spans[i].1 implies #[trigger] meant(
        v,
    ) by {
        let k = v - spans[i].0;
        assert(ws[told_before(h, list, i) + k] == spans[i].0 + k);
    }
    assert forall|v: int| 0 <= v < h.len() && #[trigger] meant(v) implies exists|i: int|
        0 <= i < spans.len() && (#[trigger] spans[i]).0 <= v < spans[i].1 by {
        assert(ws.contains(v));
        let j = choose|j: int| 0 <= j < ws.len() && ws[j] == v;
        let i = lemma_told_where(h, list, j, list.len() as int);
        lemma_told_at(h, list, i);
        let k = j - told_before(h, list, i);
        assert(observed_history::told(h, list[i]).len() == list[i].pos_end - list[i].pos_start) by {
            assert(observed_history::update_true(h, list[i]));
        }
        assert(ws[told_before(h, list, i) + k] == spans[i].0 + k);
        assert(spans[i].0 <= v < spans[i].1);
    }
    assert forall|i: int| 0 <= i < spans.len() implies full_range::is_run(
        h,
        (#[trigger] spans[i]).0,
        observed_history::update_op(list[i]),
        list[i].parents,
        list[i].name,
        list[i].seq_end + 1 - (list[i].pos_end - list[i].pos_start),
    ) by {
        assert(observed_history::update_true(h, list[i]));
        assert(ws[told_before(h, list, i) + 0] == spans[i].0 + 0);
    }
    spans
}

/// Whether event `v` goes on with what the one before it types: with the same author, right
/// behind it in the author's count and in the text, and with knowledge of it alone besides
/// what it knew of.
pub open spec fn types_on(h: Hist, v: int) -> bool {
    &&& 0 < v < h.len()
    &&& h.ids[v] == (h.ids[v - 1].0, h.ids[v - 1].1 + 1)
    &&& h.parents[v] == seq![(v - 1) as usize]
    &&& match (h.ops[v - 1], h.ops[v]) {
        (EvOp::Ins { pos: p, .. }, EvOp::Ins { pos: q, .. }) => q == p + 1,
        _ => false,
    }
}

/// Whether an update goes on with what another one types.
spec fn goes_on(h: Hist, a: UpdateAbs, b: UpdateAbs) -> bool {
    &&& a.content is Some
    &&& b.content is Some
    &&& a.name == b.name
    &&& b.seq_end + 1 - (b.pos_end - b.pos_start) == a.seq_end + 1
    &&& b.parents.len() == 1
    &&& 0 <= b.parents[0] < h.len()
    &&& h.ids[b.parents[0] as int] == (a.name, a.seq_end)
    &&& b.pos_start == a.pos_end
}

spec fn apart(h: Hist, list: Seq<UpdateAbs>) -> bool {
    forall|i: int, j: int|
        #![trigger list[i], list[j]]
        0 <= i && j == i + 1 && j < list.len() ==> !goes_on(h, list[i], list[j])
}

proof fn lemma_apart_concat(h: Hist, a: Seq<UpdateAbs>, b: Seq<UpdateAbs>)
    requires
        apart(h, a),
        apart(h, b),
        a.len() > 0 && b.len() > 0 ==> !goes_on(h, a.last(), b[0]),
    ensures
        apart(h, a + b),
{
    let all = a + b;
    assert forall|i: int, j: int|
        #![trigger all[i], all[j]]
        0 <= i && j == i + 1 && j < all.len() implies !goes_on(h, all[i], all[j]) by {
        if j < a.len() {
            assert(!goes_on(h, a[i], a[j]));
        } else if i >= a.len() {
            assert(!goes_on(h, b[i - a.len()], b[j - a.len()]));
        }
    }
}

/// The updates of one run do not go on with each other.
proof fn lemma_emitted_apart(h: Hist, run: RunAbs)
    requires
        observed_history::run_holds(h, run),
    ensures
        apart(h, observed_history::emitted(run)),
        observed_history::emitted(run).len() > 0,
{
    let all = observed_history::emitted(run);
    if observed_history::is_fwd_del(run.op) {
        assert forall|i: int, j: int|
            #![trigger all[i], all[j]]
            0 <= i && j == i + 1 && j < all.len() implies !goes_on(h, all[i], all[j]) by {
            assert(all[i] == observed_history::single(run, i));
        }
    }
}

/// Events that go on with what a run types join it.
#[verifier::spinoff_prover]
#[verifier::rlimit(100)]
proof fn lemma_gather_apart(h: Hist, list: Seq<Piece>, from: int)
    requires
        h.valid(),
        observed_history::in_a_row(h, list, from),
    ensures
        ({
            let g = observed_history::gather(Seq::empty(), list);
            &&& apart(h, g.out)
            &&& g.pending matches Some(run) ==> {
                &&& observed_history::run_holds(h, run)
                &&& g.out.len() > 0 ==> !goes_on(
                    h,
                    g.out.last(),
                    observed_history::emitted(run)[0],
                )
            }
        }),
    decreases list.len(),
{
    if list.len() > 0 {
        let less = list.drop_last();
        let k = list.len() - 1;
        let p = list[k];
        assert forall|i: int| 0 <= i < less.len() implies observed_history::piece_holds(
            h,
            #[trigger] less[i],
        ) by {
            assert(less[i] == list[i]);
        }
        assert forall|i: int| 0 <= i < less.len() implies (#[trigger] less[i]).start
            == observed_history::row_end(less.take(i), from) by {
            assert(less[i] == list[i]);
            assert(less.take(i) =~= list.take(i));
        }
        lemma_gather_apart(h, less, from);
        let none = Seq::<UpdateAbs>::empty();
        observed_history::lemma_gather(h, none, less, from);
        observed_history::lemma_gather(h, none, list, from);
        let before = observed_history::gather(none, less);
        let g = observed_history::gather(none, list);
        assert(list.take(k) =~= less);
        assert(observed_history::piece_holds(h, p));
        assert(p.start == observed_history::row_end(less, from));
        match before.pending {
            Some(run) => {
                if !observed_history::joins_run(run, p.name, p.seq, p.parents, p.op) {
                    let a = observed_history::emitted(run);
                    lemma_emitted_apart(h, run);
                    lemma_apart_concat(h, before.out, a);
                    let now = observed_history::run_of_piece(p);
                    let b = observed_history::emitted(now)[0];
                    if goes_on(h, a.last(), b) {
                        let n = run.op.size();
                        let last = run.last_lv;
                        assert(h.ids[(last + 1 - n) + (n - 1)] == (
                            run.name,
                            run.seq_start + (n - 1),
                        ));
                        let q = b.parents[0] as int;
                        assert(h.ids[q] == h.ids[last]);
                        if q < last {
                            assert(h.ids[q] != h.ids[last]);
                        } else if last < q {
                            assert(h.ids[last] != h.ids[q]);
                        }
                        assert(p.parents =~= seq![run.last_lv as usize]);
                        assert(false);
                    }
                }
            },
            None => {
                assert(g.out == before.out);
                assert(less.len() == 0) by {
                    if less.len() > 0 {
                        let m = observed_history::gather(none, less.drop_last());
                        assert(before == observed_history::gather_step(m, less.last()));
                    }
                }
            },
        }
    }
}

/// Runs of which the second begins with an event that goes on with what the last one of the
/// first types.
#[verifier::rlimit(40)]
proof fn lemma_goes_on(h: Hist, a: UpdateAbs, b: UpdateAbs, first: int, v: int)
    requires
        observed_history::update_ok(h, a),
        observed_history::update_ok(h, b),
        full_range::is_run(
            h,
            first,
            observed_history::update_op(a),
            a.parents,
            a.name,
            a.seq_end + 1 - (a.pos_end - a.pos_start),
        ),
        full_range::is_run(
            h,
            v,
            observed_history::update_op(b),
            b.parents,
            b.name,
            b.seq_end + 1 - (b.pos_end - b.pos_start),
        ),
        v == first + (a.pos_end - a.pos_start),
        types_on(h, v),
    ensures
        goes_on(h, a, b),
{
    let n = a.pos_end - a.pos_start;
    assert(h.ids[first + (n - 1)] == (a.name, a.seq_end + 1 - n + (n - 1)));
    assert(h.ops[first + (n - 1)] == observed_history::update_op(a).event(n - 1));
    assert(h.ids[v + 0] == (b.name, b.seq_end + 1 - (b.pos_end - b.pos_start)));
    assert(h.ops[v + 0] == observed_history::update_op(b).event(0));
    assert(h.parents[v + 0] == b.parents);
    assert(first + (n - 1) == v - 1);
}

/// Where updates do not go on with each other, their events do not.
#[verifier::rlimit(40)]
proof fn lemma_starts(
    h: Hist,
    out: Seq<BraidUpdate>,
    list: Seq<UpdateAbs>,
    spans: Seq<(int, int)>,
    from: int,
    to: int,
    i: int,
)
    requires
        tell(h, out, spans, between(from, to)),
        list.len() == out.len(),
        observed_history::updates_true(h, list),
        apart(h, list),
        forall|k: int|
            0 <= k < spans.len() ==> {
                let u = list[k];
                &&& full_range::is_run(
                    h,
                    (#[trigger] spans[k]).0,
                    observed_history::update_op(u),
                    u.parents,
                    u.name,
                    u.seq_end + 1 - (u.pos_end - u.pos_start),
                )
                &&& spans[k].1 == spans[k].0 + (u.pos_end - u.pos_start)
            },
        0 <= i < spans.len(),
        spans[i].0 > from,
    ensures
        !types_on(h, spans[i].0),
{
    let v = spans[i].0;
    if types_on(h, v) {
        assert(observed_history::update_true(h, list[i]));
        assert(spans[i].0 < spans[i].1);
        assert(between(from, to)(v));
        assert(between(from, to)(v - 1));
        let j = choose|j: int|
            0 <= j < spans.len() && (#[trigger] spans[j]).0 <= v - 1 < spans[j].1;
        assert(j < i) by {
            if j > i {
                assert(spans[i].1 <= spans[j].0);
            }
        }
        assert(spans[j].1 <= spans[i].0);
        if j + 1 < i {
            assert(observed_history::update_true(h, list[j + 1]));
            assert(spans[j].1 <= spans[j + 1].0);
            assert(spans[j + 1].0 < spans[j + 1].1);
            assert(spans[j + 1].1 <= spans[i].0);
            assert(false);
        }
        assert(observed_history::update_true(h, list[j]));
        lemma_goes_on(h, list[j], list[i], spans[j].0, v);
        assert(!goes_on(h, list[j], list[i]));
    }
}

/// An event that goes on with what the one before it types is part of the same update.
pub proof fn law_span_summarized(log: ListOpLog, from: int, to: int, out: Seq<BraidUpdate>)
    requires
        log.inv(),
        0 <= from <= to <= log.size(),
        braid::all_say(
            log.hist(),
            out,
            observed_history::flushed(
                observed_history::gather(Seq::empty(), full_range::pieces(log, from, to)),
            ),
        ),
    ensures
        exists|spans: Seq<(int, int)>|
            {
                &&& #[trigger] tell(log.hist(), out, spans, between(from, to))
                &&& forall|i: int|
                    0 <= i < spans.len() && (#[trigger] spans[i]).0 > from ==> !types_on(
                        log.hist(),
                        spans[i].0,
                    )
            },
{
    let h = log.hist();
    let none = Seq::<UpdateAbs>::empty();
    let pieces = full_range::pieces(log, from, to);
    let g = observed_history::gather(none, pieces);
    let list = observed_history::flushed(g);
    let spans = lemma_span_told(log, from, to, out);
    log.lemma_hist();
    observed_history::lemma_pieces(log, from, to);
    observed_history::lemma_span_ok(log, none, from, to);
    lemma_gather_apart(h, pieces, from);
    if let Some(run) = g.pending {
        lemma_emitted_apart(h, run);
        lemma_apart_concat(h, g.out, observed_history::emitted(run));
    }
    assert(apart(h, list));
    assert forall|i: int| 0 <= i < spans.len() && (#[trigger] spans[i]).0 > from implies !types_on(
        h,
        spans[i].0,
    ) by {
        lemma_starts(h, out, list, spans, from, to, i);
    }
}

/// Whether an update may begin with event `v`, of those from `from` on: it is the first, or
/// something that is stored of the events ends before it, or it deletes at the place at which
/// the one before it deletes.
pub open spec fn may_begin(log: ListOpLog, from: int, v: int) -> bool {
    ||| v == from
    ||| stored_laws::is_cut(log, v)
    ||| v > 0 && match (log.hist().ops[v - 1], log.hist().ops[v]) {
        (EvOp::Del { pos: p }, EvOp::Del { pos: q }) => p == q,
        _ => false,
    }
}

/// Whether an event of this author and count is one with which an update may begin.
spec fn begins(log: ListOpLog, from: int, id: (Seq<char>, int)) -> bool {
    exists|v: int|
        0 <= v < log.hist().len() && #[trigger] log.hist().ids[v] == id && may_begin(log, from, v)
}

spec fn first_of(u: UpdateAbs) -> (Seq<char>, int) {
    (u.name, u.seq_end + 1 - (u.pos_end - u.pos_start))
}

spec fn all_begin(log: ListOpLog, from: int, list: Seq<UpdateAbs>) -> bool {
    forall|i: int| 0 <= i < list.len() ==> begins(log, from, #[trigger] first_of(list[i]))
}

proof fn lemma_emitted_begin(log: ListOpLog, from: int, run: RunAbs)
    requires
        observed_history::run_holds(log.hist(), run),
        may_begin(log, from, run.last_lv + 1 - run.op.size()),
    ensures
        all_begin(log, from, observed_history::emitted(run)),
{
    let h = log.hist();
    let all = observed_history::emitted(run);
    let v = run.last_lv + 1 - run.op.size();
    assert forall|i: int| 0 <= i < all.len() implies begins(
        log,
        from,
        #[trigger] first_of(all[i]),
    ) by {
        if observed_history::is_fwd_del(run.op) {
            assert(all[i] == observed_history::single(run, i));
            assert(h.ids[v + i] == (run.name, run.seq_start + i));
            if i > 0 {
                assert(h.ops[v + i] == run.op.event(i));
                assert(h.ops[v + (i - 1)] == run.op.event(i - 1));
            }
            assert(may_begin(log, from, v + i));
        } else {
            assert(h.ids[v + 0] == (run.name, run.seq_start + 0));
        }
    }
}

proof fn lemma_gather_begin(log: ListOpLog, list: Seq<Piece>, from: int)
    requires
        observed_history::in_a_row(log.hist(), list, from),
        forall|i: int| 0 <= i < list.len() ==> may_begin(log, from, (#[trigger] list[i]).start),
    ensures
        ({
            let g = observed_history::gather(Seq::empty(), list);
            &&& all_begin(log, from, g.out)
            &&& g.pending matches Some(run) ==> {
                &&& observed_history::run_holds(log.hist(), run)
                &&& may_begin(log, from, run.last_lv + 1 - run.op.size())
            }
        }),
    decreases list.len(),
{
    let h = log.hist();
    if list.len() > 0 {
        let less = list.drop_last();
        let k = list.len() - 1;
        let p = list[k];
        assert forall|i: int| 0 <= i < less.len() implies observed_history::piece_holds(
            h,
            #[trigger] less[i],
        ) && may_begin(log, from, less[i].start) by {
            assert(less[i] == list[i]);
        }
        assert forall|i: int| 0 <= i < less.len() implies (#[trigger] less[i]).start
            == observed_history::row_end(less.take(i), from) by {
            assert(less[i] == list[i]);
            assert(less.take(i) =~= list.take(i));
        }
        lemma_gather_begin(log, less, from);
        let none = Seq::<UpdateAbs>::empty();
        observed_history::lemma_gather(h, none, less, from);
        observed_history::lemma_gather(h, none, list, from);
        let before = observed_history::gather(none, less);
        let g = observed_history::gather(none, list);
        assert(list.take(k) =~= less);
        assert(observed_history::piece_holds(h, p));
        assert(p.start == observed_history::row_end(less, from));
        if let Some(run) = before.pending {
            if observed_history::joins_run(run, p.name, p.seq, p.parents, p.op) {
                operation::lemma_with(run.op, p.op);
            } else {
                let a = observed_history::emitted(run);
                lemma_emitted_begin(log, from, run);
                assert forall|i: int| 0 <= i < g.out.len() implies begins(
                    log,
                    from,
                    #[trigger] first_of(g.out[i]),
                ) by {
                    if i < before.out.len() {
                        assert(g.out[i] == before.out[i]);
                    } else {
                        assert(g.out[i] == a[i - before.out.len()]);
                        assert(begins(log, from, first_of(a[i - before.out.len()])));
                    }
                }
            }
        }
    }
}

/// Events of which everything is stored together are told in one update, unless they delete
/// one behind the other at one place.
pub proof fn law_span_in_one(log: ListOpLog, from: int, to: int, out: Seq<BraidUpdate>)
    requires
        log.inv(),
        0 <= from <= to <= log.size(),
        braid::all_say(
            log.hist(),
            out,
            observed_history::flushed(
                observed_history::gather(Seq::empty(), full_range::pieces(log, from, to)),
            ),
        ),
    ensures
        exists|spans: Seq<(int, int)>|
            {
                &&& #[trigger] tell(log.hist(), out, spans, between(from, to))
                &&& forall|i: int|
                    0 <= i < spans.len() ==> may_begin(log, from, (#[trigger] spans[i]).0)
            },
{
    let h = log.hist();
    let none = Seq::<UpdateAbs>::empty();
    let pieces = full_range::pieces(log, from, to);
    let g = observed_history::gather(none, pieces);
    let list = observed_history::flushed(g);
    let spans = lemma_span_told(log, from, to, out);
    log.lemma_hist();
    observed_history::lemma_pieces(log, from, to);
    stored_laws::law_pieces(log, from, to);
    assert forall|i: int| 0 <= i < pieces.len() implies may_begin(
        log,
        from,
        (#[trigger] pieces[i]).start,
    ) by {
        if i > 0 {
            assert(pieces[i - 1].end == pieces[i].start);
        }
    }
    lemma_gather_begin(log, pieces, from);
    if let Some(run) = g.pending {
        lemma_emitted_begin(log, from, run);
        let a = observed_history::emitted(run);
        assert forall|i: int| 0 <= i < list.len() implies begins(
            log,
            from,
            #[trigger] first_of(list[i]),
        ) by {
            if i < g.out.len() {
                assert(list[i] == g.out[i]);
            } else {
                assert(list[i] == a[i - g.out.len()]);
                assert(begins(log, from, first_of(a[i - g.out.len()])));
            }
        }
    }
    assert forall|i: int| 0 <= i < spans.len() implies may_begin(
        log,
        from,
        (#[trigger] spans[i]).0,
    ) by {
        let u = list[i];
        let v = spans[i].0;
        assert(begins(log, from, first_of(list[i])));
        let w = choose|w: int|
            0 <= w < h.len() && #[trigger] h.ids[w] == first_of(u) && may_begin(log, from, w);
        assert(h.ids[v + 0] == first_of(u));
        if v < w {
            assert(h.ids[v] != h.ids[w]);
        } else if w < v {
            assert(h.ids[w] != h.ids[v]);
        }
    }
}

/// The updates for a span of events are these, each once, in their order.
pub proof fn law_span_told(log: ListOpLog, from: int, to: int, out: Seq<BraidUpdate>)
    requires
        log.inv(),
        0 <= from <= to <= log.size(),
        braid::all_say(
            log.hist(),
            out,
            observed_history::flushed(
                observed_history::gather(Seq::empty(), full_range::pieces(log, from, to)),
            ),
        ),
    ensures
        exists|spans: Seq<(int, int)>| #[trigger]
            tell(log.hist(), out, spans, between(from, to)),
{
    let spans = lemma_span_told(log, from, to, out);
}

proof fn lemma_span_told(log: ListOpLog, from: int, to: int, out: Seq<BraidUpdate>) -> (spans: Seq<
    (int, int),
>)
    requires
        log.inv(),
        0 <= from <= to <= log.size(),
        braid::all_say(
            log.hist(),
            out,
            observed_history::flushed(
                observed_history::gather(Seq::empty(), full_range::pieces(log, from, to)),
            ),
        ),
    ensures
        tell(log.hist(), out, spans, between(from, to)),
        ({
            let list = observed_history::flushed(
                observed_history::gather(Seq::empty(), full_range::pieces(log, from, to)),
            );
            forall|i: int|
                0 <= i < spans.len() ==> {
                    let u = list[i];
                    &&& full_range::is_run(
                        log.hist(),
                        (#[trigger] spans[i]).0,
                        observed_history::update_op(u),
                        u.parents,
                        u.name,
                        u.seq_end + 1 - (u.pos_end - u.pos_start),
                    )
                    &&& spans[i].1 == spans[i].0 + (u.pos_end - u.pos_start)
                }
        }),
{
    let h = log.hist();
    let none = Seq::<UpdateAbs>::empty();
    let list = observed_history::flushed(
        observed_history::gather(none, full_range::pieces(log, from, to)),
    );
    let ws = Seq::new((to - from) as nat, |j: int| from + j);
    log.lemma_hist();
    observed_history::law_span_updates(log, none, from, to);
    observed_history::lemma_span_ok(log, none, from, to);
    assert(observed_history::told_all(h, none) =~= Seq::<EventAbs>::empty());
    assert(observed_history::told_all(h, list) =~= events::events_between(h, from, to));
    assert forall|v: int| from <= v < to implies ws.contains(v) by {
        assert(ws[v - from] == v);
    }
    lemma_tell(h, list, out, ws, between(from, to))
}

/// The numbers below `n` that are chosen.
pub open spec fn numbers(n: int, chosen: spec_fn(int) -> bool) -> Seq<int>
    decreases n,
{
    if n <= 0 {
        Seq::empty()
    } else if chosen(n - 1) {
        numbers(n - 1, chosen).push(n - 1)
    } else {
        numbers(n - 1, chosen)
    }
}

pub proof fn lemma_numbers(h: Hist, n: int, chosen: spec_fn(int) -> bool)
    ensures
        ({
            let ws = numbers(n, chosen);
            &&& events::events_chosen(h, n, chosen).len() == ws.len()
            &&& forall|j: int|
                0 <= j < ws.len() ==> {
                    &&& 0 <= #[trigger] ws[j] < n
                    &&& chosen(ws[j])
                    &&& events::events_chosen(h, n, chosen)[j] == events::event_of(h, ws[j])
                }
            &&& forall|j: int, k: int| 0 <= j < k < ws.len() ==> ws[j] < ws[k]
            &&& forall|v: int| 0 <= v < n && #[trigger] chosen(v) ==> ws.contains(v)
        }),
    decreases n,
{
    if n > 0 {
        lemma_numbers(h, n - 1, chosen);
        let less = numbers(n - 1, chosen);
        let ws = numbers(n, chosen);
        assert forall|v: int| 0 <= v < n && #[trigger] chosen(v) implies ws.contains(v) by {
            if v == n - 1 {
                assert(ws[ws.len() - 1] == v);
            } else {
                assert(less.contains(v));
                let j = choose|j: int| 0 <= j < less.len() && less[j] == v;
                assert(ws[j] == v);
            }
        }
    }
}

/// The updates since a version are the events that it has not seen, each once, in their
/// order.
pub proof fn law_since_told(log: ListOpLog, version: Seq<usize>, out: Seq<BraidUpdate>)
    requires
        log.inv(),
        braid::all_say(log.hist(), out, observed_history::updates_from(log, version)),
    ensures
        exists|spans: Seq<(int, int)>| #[trigger]
            tell(log.hist(), out, spans, unseen(log.hist(), version)),
{
    let h = log.hist();
    let list = observed_history::updates_from(log, version);
    let chosen = |v: int| !graph::in_cone(log.cg.parents(), version, v);
    let meant = unseen(h, version);
    log.lemma_hist();
    observed_history::law_updates_since(log, version);
    observed_history::lemma_updates_true(log, version);
    lemma_numbers(h, log.size(), chosen);
    let ws = numbers(log.size(), chosen);
    assert forall|v: int| 0 <= v < h.len() && #[trigger] meant(v) implies ws.contains(v) by {
        assert(chosen(v));
    }
    assert forall|j: int| 0 <= j < ws.len() implies meant(#[trigger] ws[j]) by {
        assert(chosen(ws[j]));
    }
    let spans = lemma_tell(h, list, out, ws, meant);
    assert(tell(h, out, spans, unseen(h, version)));
}

} // verus!
