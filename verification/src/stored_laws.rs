//! What is told of stored events: by whom they are, in which parts they come, and which of
//! the events that someone sends are new.

use crate::agent_assignment::{AgentAssignment, AgentSpan};
use crate::causal_graph;
use crate::causal_graph::CausalGraph;
use crate::full_range;
use crate::full_range::{Piece, RemoteVersionSpan};
use crate::graph::GraphRun;
use crate::operation::{OpAbs, TextOperation};
use crate::oplog;
use crate::oplog::ListOpLog;
use crate::range::DTRange;
use crate::rle;
use crate::rle::{RleVal, Runs};
use vstd::prelude::*;

verus! {

// ---- what is new ----

/// Of the counts that someone sends, those from the first unknown one on are new, up to the
/// next one that is known. The first new event follows what was sent with it if it is the
/// first of all, and otherwise the known one before it.
pub proof fn law_fresh(cg: CausalGraph, span: AgentSpan, parents: Seq<usize>)
    requires
        cg.inv(),
        span.agent < cg.agent_assignment.agents(),
        span.seq_range.start <= span.seq_range.end,
    ensures
        ({
            let aa = cg.agent_assignment;
            let new = cg.fresh_part(span);
            let follows = cg.fresh_parents(span, parents);
            &&& span.seq_range.start <= new.start <= new.end <= span.seq_range.end
            &&& forall|s: int|
                span.seq_range.start <= s < new.start ==> #[trigger] aa.knows(span.agent as int, s)
            &&& forall|s: int|
                new.start <= s < new.end ==> !#[trigger] aa.knows(span.agent as int, s)
            &&& new.start < span.seq_range.end ==> new.start < new.end
            &&& new.end < span.seq_range.end ==> aa.knows(span.agent as int, new.end as int)
            &&& new.start == span.seq_range.start ==> follows == parents
            &&& new.start > span.seq_range.start ==> {
                &&& follows.len() == 1
                &&& follows[0] < cg.size()
                &&& aa.id_of(follows[0] as int) == (span.agent, new.start - 1)
            }
        }),
{
    let aa = cg.agent_assignment;
    let (a, b) = (span.seq_range.start as int, span.seq_range.end as int);
    causal_graph::lemma_skip(aa, span.agent, a, b, true);
    let from = causal_graph::skip(aa, span.agent, a, b, true);
    causal_graph::lemma_skip(aa, span.agent, from, b, false);
    if from > a {
        assert(aa.knows(span.agent as int, from - 1));
        let lv = aa.lv_of(span.agent as int, from - 1);
        assert(0 <= lv < aa.size());
        assert(cg.size() <= usize::MAX) by {
            rle::lemma_packed::<AgentSpan>(aa.client_with_lv.runs(), lv);
        }
    }
}

// ---- by whom events are ----

/// Whether the events `from..to` are those of one author with the counts of a span.
pub open spec fn are_by(aa: AgentAssignment, s: RemoteVersionSpan, from: int, to: int) -> bool {
    &&& s.1.start + (to - from) == s.1.end
    &&& forall|k: int|
        0 <= k < to - from ==> {
            &&& aa.name_of((#[trigger] aa.id_of(from + k)).0 as int) == s.0@
            &&& aa.id_of(from + k).1 == s.1.start + k
        }
}

/// The spans that tell by whom the events are, are those of all events, one behind the other.
pub proof fn law_mappings(aa: AgentAssignment, out: Seq<RemoteVersionSpan>)
    requires
        aa.inv(),
        out.len() == aa.client_with_lv.runs().len(),
        forall|i: int| 0 <= i < out.len() ==> aa.is_mapping(i, #[trigger] out[i]),
    ensures
        exists|starts: Seq<int>|
            #![trigger starts.len()]
            {
                &&& starts.len() == out.len() + 1
                &&& starts[0] == 0
                &&& starts[out.len() as int] == aa.size()
                &&& forall|i: int|
                    0 <= i < out.len() ==> {
                        &&& starts[i] < starts[i + 1]
                        &&& are_by(aa, #[trigger] out[i], starts[i], starts[i + 1])
                    }
            },
{
    let runs = aa.client_with_lv.runs();
    let n = runs.len() as int;
    let starts = Seq::new(
        runs.len() + 1,
        |i: int|
            if i < n {
                runs[i].0
            } else {
                aa.size()
            },
    );
    assert forall|i: int| 0 <= i < out.len() implies {
        &&& starts[i] < starts[i + 1]
        &&& are_by(aa, #[trigger] out[i], starts[i], starts[i + 1])
    } by {
        assert(aa.is_mapping(i, out[i]));
        assert(AgentSpan::valid(runs[i].1));
        assert(starts[i + 1] == rle::end_of::<AgentSpan>(runs, i)) by {
            if i + 1 < n {
                assert(rle::end_of::<AgentSpan>(runs, i) == runs[i + 1].0);
            }
        }
        assert forall|k: int| 0 <= k < starts[i + 1] - starts[i] implies {
            &&& aa.name_of((#[trigger] aa.id_of(starts[i] + k)).0 as int) == out[i].0@
            &&& aa.id_of(starts[i] + k).1 == out[i].1.start + k
        } by {
            assert(rle::covers::<AgentSpan>(runs, i, starts[i] + k));
            rle::lemma_unique::<AgentSpan>(runs, i, starts[i] + k);
        }
    }
    assert(starts.len() == out.len() + 1);
}

/// Of a span of events those are told together that are stored together: all of it, or as far
/// as the row of one author's counts goes that the first of them is in.
pub proof fn law_together(aa: AgentAssignment, version: DTRange)
    requires
        aa.inv(),
        version.start < version.end,
        version.start < aa.size(),
    ensures
        ({
            let runs = aa.client_with_lv.runs();
            let n = aa.together(version);
            &&& 0 < n <= version.end - version.start
            &&& n < version.end - version.start ==> ends_at::<AgentSpan>(runs, version.start + n)
            &&& forall|k: int|
                version.start < k < version.start + n ==> !#[trigger] ends_at::<AgentSpan>(runs, k)
        }),
{
    let runs = aa.client_with_lv.runs();
    let from = version.start as int;
    let to = if version.end <= aa.size() {
        version.end as int
    } else {
        aa.size()
    };
    rle::lemma_packed::<AgentSpan>(runs, from);
    lemma_break::<AgentSpan>(runs, from, to);
    let i = rle::run_of::<AgentSpan>(runs, from);
    assert(rle::covers::<AgentSpan>(runs, i, from));
    assert(rle::end_of::<AgentSpan>(runs, i) <= aa.size()) by {
        let n = runs.len() - 1;
        if i < n {
            assert(rle::end_of::<AgentSpan>(runs, i) <= runs[n].0);
            assert(AgentSpan::size(runs[n].1) > 0);
        }
    }
    assert(rle::break_after::<AgentSpan>(runs, from, to) == from + aa.together(version));
    if aa.together(version) < version.end - version.start {
        assert(rle::end_of::<AgentSpan>(runs, i) == from + aa.together(version));
    }
}

// ---- in which parts events come ----

/// Whether a stored run ends at `key`.
pub open spec fn ends_at<V: RleVal>(runs: Runs<V::Abs>, key: int) -> bool {
    exists|i: int| 0 <= i < runs.len() && #[trigger] rle::end_of::<V>(runs, i) == key
}

proof fn lemma_break<V: RleVal>(runs: Runs<V::Abs>, from: int, to: int)
    requires
        rle::packed::<V>(runs),
        0 <= from < to <= rle::end::<V>(runs),
    ensures
        ({
            let next = rle::break_after::<V>(runs, from, to);
            &&& from < next <= to
            &&& next < to ==> ends_at::<V>(runs, next)
            &&& forall|k: int| from < k < next ==> !#[trigger] ends_at::<V>(runs, k)
        }),
{
    rle::lemma_packed::<V>(runs, from);
    let i = rle::run_of::<V>(runs, from);
    assert(rle::covers::<V>(runs, i, from));
    let next = rle::break_after::<V>(runs, from, to);
    assert forall|k: int| from < k < next implies !#[trigger] ends_at::<V>(runs, k) by {
        if ends_at::<V>(runs, k) {
            let j = choose|j: int| 0 <= j < runs.len() && #[trigger] rle::end_of::<V>(runs, j) == k;
            if j < i {
                assert(rle::end_of::<V>(runs, j) <= runs[i].0);
            } else if j > i {
                assert(rle::end_of::<V>(runs, i) <= runs[j].0);
                assert(V::size(runs[j].1) > 0);
            }
        }
    }
}

/// Whether an operation is what the events `from..to` do, all of them part of one stored
/// operation.
pub open spec fn is_part(log: ListOpLog, op: OpAbs, from: int, to: int) -> bool {
    &&& from < to
    &&& op.size() == to - from
    &&& forall|k: int|
        from <= k < to ==> op.event(k - from) == #[trigger] log.hist().ops[k]
    &&& forall|k: int|
        from < k < to ==> !#[trigger] ends_at::<TextOperation>(log.operations.runs(), k)
}

/// Whether operations are what the events `from..to` do, each one as far as a stored
/// operation goes: the one with index `i` is what the events `starts[i]..starts[i + 1]` do.
pub open spec fn are_parts(
    log: ListOpLog,
    ops: Seq<OpAbs>,
    starts: Seq<int>,
    from: int,
    to: int,
) -> bool {
    &&& starts.len() == ops.len() + 1
    &&& starts[0] == from
    &&& starts[ops.len() as int] == to
    &&& forall|i: int|
        0 <= i < ops.len() ==> is_part(log, #[trigger] ops[i], starts[i], starts[i + 1])
    &&& forall|i: int|
        0 < i < ops.len() ==> ends_at::<TextOperation>(
            log.operations.runs(),
            #[trigger] starts[i],
        )
}

proof fn lemma_op_parts(log: ListOpLog, from: int, to: int) -> (starts: Seq<int>)
    requires
        log.inv(),
        0 <= from <= to <= log.size(),
    ensures
        are_parts(
            log,
            oplog::ops_between(log.operations.runs(), from, to),
            starts,
            from,
            to,
        ),
    decreases to - from,
{
    let runs = log.operations.runs();
    let ops = oplog::ops_between(runs, from, to);
    if from == to {
        assert(ops.len() == 0);
        seq![from]
    } else {
        log.lemma_hist();
        lemma_break::<TextOperation>(runs, from, to);
        rle::lemma_packed::<TextOperation>(runs, from);
        let next = rle::break_after::<TextOperation>(runs, from, to);
        let rest = oplog::ops_between(runs, next, to);
        let more = lemma_op_parts(log, next, to);
        rle::lemma_piece::<TextOperation>(runs, from, next);
        let one = rle::piece::<TextOperation>(runs, from, next);
        assert(ops == seq![one] + rest);
        let starts = seq![from] + more;
        assert forall|k: int| from <= k < next implies one.event(k - from)
            == #[trigger] log.hist().ops[k] by {
            reveal(oplog::op_at);
            assert(TextOperation::item(one, from, k - from) == rle::at::<TextOperation>(
                runs,
                from + (k - from),
            ));
        }
        assert(is_part(log, one, from, next));
        assert forall|i: int| 0 <= i < ops.len() implies is_part(
            log,
            #[trigger] ops[i],
            starts[i],
            starts[i + 1],
        ) by {
            if i > 0 {
                assert(ops[i] == rest[i - 1]);
                assert(starts[i] == more[i - 1] && starts[i + 1] == more[i]);
                assert(is_part(log, rest[i - 1], more[i - 1], more[i - 1 + 1]));
            } else {
                assert(starts[0] == from && starts[1] == more[0]);
            }
        }
        assert forall|i: int| 0 < i < ops.len() implies ends_at::<TextOperation>(
            runs,
            #[trigger] starts[i],
        ) by {
            assert(starts[i] == more[i - 1]);
            if i == 1 && next == to {
                assert(rest.len() == 0);
            }
        }
        assert(starts[ops.len() as int] == more[rest.len() as int]);
        starts
    }
}

/// The operations of a range of events are what these events do, one behind the other, cut
/// where stored operations end, and nowhere else.
pub proof fn law_ops_between(log: ListOpLog, from: int, to: int)
    requires
        log.inv(),
        0 <= from <= to <= log.size(),
    ensures
        exists|starts: Seq<int>|
            are_parts(
                log,
                oplog::ops_between(log.operations.runs(), from, to),
                starts,
                from,
                to,
            ),
{
    let _ = lemma_op_parts(log, from, to);
}

/// Whether a stored operation, a stored row of events that follow each other, or a stored row
/// of one author's counts ends at `key`.
pub open spec fn is_cut(log: ListOpLog, key: int) -> bool {
    ||| ends_at::<TextOperation>(log.operations.runs(), key)
    ||| ends_at::<GraphRun>(log.cg.graph.entries.runs(), key)
    ||| ends_at::<AgentSpan>(log.cg.agent_assignment.client_with_lv.runs(), key)
}

/// Whether parts are the events `from..to`, one behind the other: what the events of each do,
/// what its first follows, and by whom they are.
pub open spec fn are_pieces(log: ListOpLog, list: Seq<Piece>, from: int, to: int) -> bool {
    &&& list.len() == 0 <==> from == to
    &&& list.len() > 0 ==> list[0].start == from && list[list.len() - 1].end == to
    &&& forall|i: int, j: int|
        #![trigger list[i], list[j]]
        0 <= i && j == i + 1 && j < list.len() ==> {
            &&& list[i].end == list[j].start
            &&& is_cut(log, list[j].start)
        }
    &&& forall|i: int|
        0 <= i < list.len() ==> {
            let p = #[trigger] list[i];
            &&& p.start < p.end
            &&& p.op.size() == p.end - p.start
            &&& full_range::is_run(log.hist(), p.start, p.op, p.parents, p.name, p.seq)
        }
    &&& forall|i: int, k: int|
        #![trigger list[i], is_cut(log, k)]
        0 <= i < list.len() && list[i].start < k < list[i].end ==> !is_cut(log, k)
}

#[verifier::rlimit(40)]
proof fn lemma_are_pieces(log: ListOpLog, from: int, to: int)
    requires
        log.inv(),
        0 <= from <= to <= log.size(),
    ensures
        are_pieces(log, full_range::pieces(log, from, to), from, to),
    decreases to - from,
{
    let list = full_range::pieces(log, from, to);
    if from == to {
        assert(list.len() == 0);
    } else {
        log.lemma_hist();
        let ops = log.operations.runs();
        let entries = log.cg.graph.entries.runs();
        let spans = log.cg.agent_assignment.client_with_lv.runs();
        full_range::lemma_piece(log, from, to);
        lemma_break::<TextOperation>(ops, from, to);
        lemma_break::<GraphRun>(entries, from, to);
        lemma_break::<AgentSpan>(spans, from, to);
        let next = full_range::piece_end(log, from, to);
        let rest = full_range::pieces(log, next, to);
        lemma_are_pieces(log, next, to);
        let one = full_range::piece_of(log, from, next);
        assert(list == seq![one] + rest);
        assert(next < to ==> is_cut(log, next));
        assert forall|i: int, j: int|
            #![trigger list[i], list[j]]
            0 <= i && j == i + 1 && j < list.len() implies {
            &&& list[i].end == list[j].start
            &&& is_cut(log, list[j].start)
        } by {
            assert(list[j] == rest[j - 1]);
            if i > 0 {
                assert(list[i] == rest[i - 1]);
            } else {
                assert(rest.len() > 0);
            }
        }
        assert forall|i: int| 0 <= i < list.len() implies {
            let p = #[trigger] list[i];
            &&& p.start < p.end
            &&& p.op.size() == p.end - p.start
            &&& full_range::is_run(log.hist(), p.start, p.op, p.parents, p.name, p.seq)
        } by {
            if i > 0 {
                assert(list[i] == rest[i - 1]);
            }
        }
        assert forall|i: int, k: int|
            #![trigger list[i], is_cut(log, k)]
            0 <= i < list.len() && list[i].start < k < list[i].end implies !is_cut(log, k) by {
            if i > 0 {
                assert(list[i] == rest[i - 1]);
            } else {
                assert(!ends_at::<TextOperation>(ops, k));
                assert(!ends_at::<GraphRun>(entries, k));
                assert(!ends_at::<AgentSpan>(spans, k));
            }
        }
        if rest.len() > 0 {
            assert(list[list.len() - 1] == rest[rest.len() - 1]);
        }
    }
}

/// The parts of a range of events are these events, one behind the other, cut where something
/// that is stored of them ends, and nowhere else.
pub proof fn law_pieces(log: ListOpLog, from: int, to: int)
    requires
        log.inv(),
        0 <= from <= to <= log.size(),
    ensures
        are_pieces(log, full_range::pieces(log, from, to), from, to),
{
    lemma_are_pieces(log, from, to);
}

} // verus!
