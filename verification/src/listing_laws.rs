//! What holds of the lists that are given of a log.

use crate::agent_assignment::{AgentAssignment, AgentSpan, AgentVersion};
use crate::braid;
use crate::braid::{RangePatch, XfOp};
use crate::decimal;
use crate::doc;
use crate::events;
use crate::full_range::GraphEntrySimple;
use crate::graph;
use crate::graph::{GraphAbs, GraphRun};
use crate::history;
use crate::history::Hist;
use crate::merge;
use crate::merge::Xf;
use crate::operation::{EvOp, ListOpKind};
use crate::oplog::ListOpLog;
use crate::patches::Patch;
use crate::plan;
use crate::range::DTRange;
use crate::remote_ids::RemoteVersion;
use crate::rle;
use crate::rle::Runs;
use crate::smart_string;
use crate::travel;
use crate::xf_absolute;
use crate::xf_runs;
use crate::xf_runs::XfRun;
use vstd::prelude::*;

verus! {

// ---- who wrote what ----

/// Whether run `i` of the authors' counts is that of the events `from..to`.
pub open spec fn is_seq_run(h: Hist, run: (String, usize, usize), from: int, to: int) -> bool {
    &&& 0 <= from < to <= h.len()
    &&& run.2 == to - from
    &&& forall|v: int|
        from <= v < to ==> #[trigger] h.ids[v] == (run.0@, run.1 + (v - from))
}

/// The runs of the authors' counts are those of all events, one behind the other: an
/// author's name, the first count, and how many there are.
pub proof fn law_seq_runs(log: ListOpLog, out: Seq<(String, usize, usize)>)
    requires
        log.inv(),
        doc::seq_runs(log, out),
    ensures
        exists|starts: Seq<int>|
            #![trigger starts.len()]
            {
                &&& starts.len() == out.len() + 1
                &&& starts[0] == 0
                &&& starts[out.len() as int] == log.hist().len()
                &&& forall|i: int|
                    0 <= i < out.len() ==> is_seq_run(
                        log.hist(),
                        #[trigger] out[i],
                        starts[i],
                        starts[i + 1],
                    )
            },
{
    let aa = log.cg.agent_assignment;
    let h = log.hist();
    let runs = aa.client_with_lv.runs();
    log.lemma_hist();
    let n = runs.len() as int;
    let starts = Seq::new(
        runs.len() + 1,
        |i: int|
            if i < n {
                runs[i].0
            } else {
                rle::end::<AgentSpan>(runs)
            },
    );
    assert(starts[0] == 0);
    assert forall|i: int| 0 <= i < out.len() implies is_seq_run(
        h,
        #[trigger] out[i],
        starts[i],
        starts[i + 1],
    ) by {
        let end = rle::end_of::<AgentSpan>(runs, i);
        if i + 1 < n {
            assert(rle::end_of::<AgentSpan>(runs, i) == runs[i + 1].0);
        }
        assert(starts[i + 1] == end);
        rle::lemma_packed::<AgentSpan>(runs, end - 1);
        assert(rle::covers::<AgentSpan>(runs, i, end - 1));
        rle::lemma_unique::<AgentSpan>(runs, i, end - 1);
        assert forall|v: int| starts[i] <= v < end implies #[trigger] h.ids[v] == (
            out[i].0@,
            out[i].1 + (v - starts[i]),
        ) by {
            assert(rle::covers::<AgentSpan>(runs, i, v));
            rle::lemma_unique::<AgentSpan>(runs, i, v);
        }
    }
    assert(starts.len() == out.len() + 1);
}

/// Whether no author's run goes on in the next one.
pub open spec fn seq_runs_apart(runs: Runs<AgentSpan>) -> bool {
    forall|i: int, j: int|
        #![trigger runs[i], runs[j]]
        0 <= i && j == i + 1 && j < runs.len() ==> !(runs[i].1.agent == runs[j].1.agent
            && runs[i].1.seq_range.end == runs[j].1.seq_range.start)
}

/// The runs of the authors' counts are as few as can be, also with events behind them.
pub proof fn law_seq_runs_apart(runs: Runs<AgentSpan>, key: int, val: AgentSpan)
    requires
        rle::packed::<AgentSpan>(runs),
        rle::end::<AgentSpan>(runs) == key,
        val.seq_range.start < val.seq_range.end,
        seq_runs_apart(runs),
    ensures
        seq_runs_apart(rle::pushed::<AgentSpan>(runs, key, val)),
        seq_runs_apart(Seq::empty()),
{
    let out = rle::pushed::<AgentSpan>(runs, key, val);
    assert forall|i: int, j: int|
        #![trigger out[i], out[j]]
        0 <= i && j == i + 1 && j < out.len() implies !(out[i].1.agent == out[j].1.agent
        && out[i].1.seq_range.end == out[j].1.seq_range.start) by {
        if j < runs.len() {
            assert(!(runs[i].1.agent == runs[j].1.agent && runs[i].1.seq_range.end
                == runs[j].1.seq_range.start));
        }
    }
}

/// Whether event `v` is the one of an author that a run says it is.
pub open spec fn is_there(h: Hist, name: Seq<char>, run: (int, DTRange), v: int) -> bool {
    v < h.len() && h.ids[v].0 == name && h.ids[v].1 == run.0 + (v - run.1.start)
}

/// Whether runs are those of the counts of the author with the given name.
pub open spec fn is_lv_map(h: Hist, name: Seq<char>, runs: Runs<DTRange>) -> bool {
    &&& forall|i: int, v: int|
        0 <= i < runs.len() && runs[i].1.start <= v < runs[i].1.end ==> #[trigger] is_there(
            h,
            name,
            runs[i],
            v,
        )
    &&& forall|i: int, j: int|
        0 <= i < j < runs.len() ==> (#[trigger] runs[i]).0 < (#[trigger] runs[j]).0
    &&& forall|v: int|
        0 <= v < h.len() && (#[trigger] h.ids[v]).0 == name ==> exists|i: int|
            0 <= i < runs.len() && (#[trigger] runs[i]).1.start <= v < runs[i].1.end
}

/// The stored runs of one author's counts: the events of a run are those of the author with
/// the counts from its first one on, the runs stand in the order of the counts, and every
/// event of the author is in one.
pub proof fn law_lv_map(log: ListOpLog, agent: int)
    requires
        log.inv(),
        0 <= agent < log.cg.agent_assignment.agents(),
    ensures
        is_lv_map(
            log.hist(),
            log.cg.agent_assignment.name_of(agent),
            log.cg.agent_assignment.client_data@[agent].lv_for_seq.runs(),
        ),
{
    let h = log.hist();
    let aa = log.cg.agent_assignment;
    let client = aa.client_data@[agent];
    let runs: Runs<DTRange> = client.lv_for_seq.runs();
    let name = aa.name_of(agent);
    log.lemma_hist();
    assert(client.inv());
    assert forall|i: int, v: int|
        0 <= i < runs.len() && runs[i].1.start <= v < runs[i].1.end implies #[trigger] is_there(
        h,
        name,
        runs[i],
        v,
    ) by {
        let seq = runs[i].0 + (v - runs[i].1.start);
        assert(rle::covers::<DTRange>(runs, i, seq));
        rle::lemma_unique::<DTRange>(runs, i, seq);
        assert(aa.knows(agent, seq));
    }
    assert forall|i: int, j: int| 0 <= i < j < runs.len() implies (#[trigger] runs[i]).0 < (
    #[trigger] runs[j]).0 by {
        assert(rle::end_of::<DTRange>(runs, i) <= runs[j].0);
    }
    assert forall|v: int|
        0 <= v < h.len() && (#[trigger] h.ids[v]).0 == aa.name_of(agent) implies exists|i: int|
        0 <= i < runs.len() && (#[trigger] runs[i]).1.start <= v < runs[i].1.end by {
        let (a, seq) = aa.id_of(v);
        assert(aa.knows(a as int, seq) && aa.lv_of(a as int, seq) == v);
        assert(aa.name_of(a as int) == aa.name_of(agent));
        assert(aa.agent_ids@[aa.name_of(a as int)] == a);
        assert(aa.agent_ids@[aa.name_of(agent)] == agent);
        let i = rle::run_of::<DTRange>(runs, seq);
        assert(rle::covers::<DTRange>(runs, i, seq));
        rle::lemma_unique::<DTRange>(runs, i, seq);
        assert(runs[i].1.start <= v < runs[i].1.end);
    }
}

// ---- what follows what ----

/// Whether an entry is the events of its span: the first one follows its parents, and each
/// other one the one before it.
pub open spec fn is_history_run(h: Hist, e: GraphEntrySimple) -> bool {
    &&& 0 <= e.span.start < e.span.end <= h.len()
    &&& h.parents[e.span.start as int] == e.parents@
    &&& forall|v: int|
        e.span.start < v < e.span.end ==> #[trigger] h.parents[v] == seq![(v - 1) as usize]
}

/// The entries of the history are those of all events, one behind the other.
pub proof fn law_history_runs(log: ListOpLog, out: Seq<GraphEntrySimple>)
    requires
        log.inv(),
        out.len() == log.cg.graph.entries.runs().len(),
        forall|i: int| 0 <= i < out.len() ==> log.is_entry(i, #[trigger] out[i]),
    ensures
        forall|i: int| 0 <= i < out.len() ==> is_history_run(log.hist(), #[trigger] out[i]),
        out.len() == 0 ==> log.hist().len() == 0,
        out.len() > 0 ==> out[0].span.start == 0 && out.last().span.end == log.hist().len(),
        forall|i: int, j: int|
            #![trigger out[i], out[j]]
            0 <= i && j == i + 1 && j < out.len() ==> out[i].span.end == out[j].span.start,
{
    let h = log.hist();
    let runs = log.cg.graph.entries.runs();
    log.lemma_hist();
    assert forall|i: int| 0 <= i < out.len() implies is_history_run(h, #[trigger] out[i]) by {
        let e = out[i];
        assert(log.is_entry(i, e));
        let end = rle::end_of::<GraphRun>(runs, i);
        rle::lemma_packed::<GraphRun>(runs, end - 1);
        assert(rle::covers::<GraphRun>(runs, i, end - 1));
        rle::lemma_unique::<GraphRun>(runs, i, end - 1);
        assert(rle::covers::<GraphRun>(runs, i, runs[i].0));
        rle::lemma_unique::<GraphRun>(runs, i, runs[i].0);
        assert forall|v: int| e.span.start < v < e.span.end implies #[trigger] h.parents[v]
            == seq![(v - 1) as usize] by {
            assert(rle::covers::<GraphRun>(runs, i, v));
            rle::lemma_unique::<GraphRun>(runs, i, v);
        }
    }
    if out.len() > 0 {
        assert(log.is_entry(0, out[0]));
        assert(log.is_entry(out.len() - 1, out[out.len() - 1]));
    }
    assert forall|i: int, j: int|
        #![trigger out[i], out[j]]
        0 <= i && j == i + 1 && j < out.len() implies out[i].span.end == out[j].span.start by {
        assert(log.is_entry(i, out[i]));
        assert(log.is_entry(j, out[j]));
        assert(rle::end_of::<GraphRun>(runs, i) == runs[j].0);
    }
}

/// Whether no entry's events go on in the next one's.
pub open spec fn history_runs_apart(runs: Runs<GraphAbs>) -> bool {
    forall|j: int|
        0 < j < runs.len() ==> (#[trigger] runs[j]).1.parents != seq![(runs[j].0 - 1) as usize]
}

/// The entries of the history are as few as can be, also with events behind them.
pub proof fn law_history_runs_apart(runs: Runs<GraphAbs>, key: int, val: GraphAbs)
    requires
        rle::packed::<GraphRun>(runs),
        rle::end::<GraphRun>(runs) == key,
        val.len > 0,
        history_runs_apart(runs),
    ensures
        history_runs_apart(rle::pushed::<GraphRun>(runs, key, val)),
        history_runs_apart(Seq::empty()),
{
    let out = rle::pushed::<GraphRun>(runs, key, val);
    assert forall|j: int| 0 < j < out.len() implies (#[trigger] out[j]).1.parents != seq![
        (out[j].0 - 1) as usize,
    ] by {
        if j < runs.len() {
            assert(runs[j].1.parents != seq![(runs[j].0 - 1) as usize]);
        }
    }
}

// ---- what is known of an author ----

/// An author's event is known if it is one of the log.
pub proof fn law_knows(log: ListOpLog, agent: int, seq: int)
    requires
        log.inv(),
        0 <= agent < log.cg.agent_assignment.agents(),
    ensures
        log.cg.agent_assignment.knows(agent, seq) <==> exists|v: int|
            0 <= v < log.hist().len() && #[trigger] log.hist().ids[v] == (
                log.cg.agent_assignment.name_of(agent),
                seq,
            ),
{
    let aa = log.cg.agent_assignment;
    let h = log.hist();
    let name = aa.name_of(agent);
    log.lemma_hist();
    log.lemma_ids(name, seq);
    if events::has_id(h, (name, seq)) {
        let a = choose|a: int|
            0 <= a < aa.agents() && #[trigger] aa.name_of(a) == name && aa.knows(a, seq);
        assert(aa.agent_ids@[aa.name_of(a)] == a);
        assert(aa.agent_ids@[aa.name_of(agent)] == agent);
        let v = events::place(h, (name, seq));
        assert(h.ids[v] == (name, seq));
    }
}

/// The run of an author's counts that is found for a range: all of them are known, the one
/// before them and the one behind them are not, it overlaps the range, and behind it nothing
/// of the range is known.
pub proof fn law_known_span(aa: AgentAssignment, agent: int, asked: DTRange, run: DTRange)
    requires
        aa.is_known_span(agent, asked, run),
        asked.start < asked.end,
    ensures
        forall|seq: int| run.start <= seq < run.end ==> #[trigger] aa.knows(agent, seq),
        !aa.knows(agent, run.start - 1),
        !aa.knows(agent, run.end as int),
        exists|seq: int|
            run.start <= seq < run.end && asked.start <= seq < asked.end && #[trigger] aa.knows(
                agent,
                seq,
            ),
        forall|seq: int| run.end <= seq < asked.end ==> !#[trigger] aa.knows(agent, seq),
{
    assert forall|seq: int| run.start <= seq < run.end implies #[trigger] aa.knows(
        agent,
        seq,
    ) by {
        assert(run.has(seq));
    }
    let seq = if run.start < asked.start {
        asked.start as int
    } else {
        run.start as int
    };
    assert(aa.knows(agent, seq));
}

/// Ties are broken by the authors' names in dictionary order, and for one author by the
/// counts.
pub proof fn law_tie(aa: AgentAssignment, a: AgentVersion, b: AgentVersion)
    ensures
        aa.version_less(a, b) <==> {
            ||| smart_string::text_less(aa.name_of(a.0 as int), aa.name_of(b.0 as int))
            ||| aa.name_of(a.0 as int) == aa.name_of(b.0 as int) && a.1 < b.1
        },
{
}

// ---- names and patches ----

/// The names of events are their authors' names and counts, one by one.
pub proof fn law_names(log: ListOpLog, out: Seq<RemoteVersion>, version: Seq<usize>)
    requires
        doc::are_names(log, out, version),
    ensures
        out.len() == version.len(),
        forall|i: int|
            0 <= i < out.len() ==> {
                &&& (#[trigger] out[i]).0@ == log.hist().ids[version[i] as int].0
                &&& out[i].1 == log.hist().ids[version[i] as int].1
            },
{
    assert forall|i: int| 0 <= i < out.len() implies {
        &&& (#[trigger] out[i]).0@ == log.hist().ids[version[i] as int].0
        &&& out[i].1 == log.hist().ids[version[i] as int].1
    } by {
        assert(out[i]@ == log.hist().ids[version[i] as int]);
    }
}

/// Patches are written as a range of the text, in brackets, and what it becomes, one by one.
pub proof fn law_patches(out: Seq<RangePatch>, list: Seq<Patch>)
    requires
        braid::are_patches(out, list),
    ensures
        out.len() == list.len(),
        forall|i: int|
            0 <= i < out.len() ==> {
                &&& (#[trigger] out[i]).unit@ == seq!['t', 'e', 'x', 't']
                &&& out[i].range@ == seq!['['] + decimal::decimal(list[i].start) + seq![':']
                    + decimal::decimal(list[i].end) + seq![']']
                &&& out[i].content@ == list[i].content
            },
{
    reveal_strlit("text");
    assert("text"@ =~= seq!['t', 'e', 'x', 't']);
    assert forall|i: int| 0 <= i < out.len() implies {
        &&& (#[trigger] out[i]).unit@ == seq!['t', 'e', 'x', 't']
        &&& out[i].range@ == seq!['['] + decimal::decimal(list[i].start) + seq![':']
            + decimal::decimal(list[i].end) + seq![']']
        &&& out[i].content@ == list[i].content
    } by {
        assert(out[i].range@ =~= seq!['['] + decimal::decimal(list[i].start) + seq![':']
            + decimal::decimal(list[i].end) + seq![']']);
    }
}

// ---- transformed operations ----

/// Whether an operation is what the events from `start` on do that one version has seen and
/// another has not: it bears the name of the author of the first one, and types what they
/// type, or deletes as many characters as they do. It does so where each of them finds its
/// place: what is typed stands in a row, and a delete takes what comes to stand at its start
/// each time, or goes from its end to the start.
pub open spec fn is_xf(
    h: Hist,
    from: Seq<usize>,
    to: Seq<usize>,
    x: XfOp,
    start: int,
) -> bool {
    let n = x.end - x.start;
    &&& 0 < n
    &&& 0 <= start
    &&& start + n <= h.len()
    &&& x.agent@ == h.ids[start].0
    &&& forall|v: int|
        start <= v < start + n ==> #[trigger] graph::in_cone(h.parents, to, v) && !graph::in_cone(
            h.parents,
            from,
            v,
        )
    &&& h.ops[start] is Ins ==> {
        &&& x.kind@ == seq!['I', 'n', 's']
        &&& x.content@.len() == n
        &&& forall|k: int|
            0 <= k < n ==> {
                &&& h.ops[start + k] is Ins
                &&& h.char_of(start + k) == #[trigger] x.content@[k]
                &&& merge::xf_at(h, from, to, start + k).ev == Some(
                    EvOp::Ins { pos: x.start + k, ch: x.content@[k] },
                )
            }
    }
    &&& h.ops[start] is Del ==> {
        &&& x.kind@ == seq!['D', 'e', 'l']
        &&& x.content@.len() == 0
        &&& forall|v: int|
            start <= v < start + n ==> {
                &&& #[trigger] h.ops[v] is Del
                &&& merge::xf_at(h, from, to, v).ev == Some(
                    EvOp::Del {
                        pos: if x.fwd {
                            x.start as int
                        } else {
                            x.end - 1 - (v - start)
                        },
                    },
                )
            }
    }
}

/// Every event of a run is one that is due, in its place.
proof fn lemma_run_due(
    h: Hist,
    from: Seq<usize>,
    to: Seq<usize>,
    runs: Seq<XfRun>,
    i: int,
    k: int,
)
    requires
        0 <= i < runs.len(),
        0 <= k < runs[i].end - runs[i].start,
        forall|j: int|
            0 <= j < xf_runs::events_of_runs(runs).len() ==> is_due(
                h,
                from,
                to,
                #[trigger] xf_runs::events_of_runs(runs)[j],
            ),
    ensures
        is_due(h, from, to, xf_runs::event_of_run(runs[i], k)),
    decreases runs.len(),
{
    let all = xf_runs::events_of_runs(runs);
    let less = runs.drop_last();
    let before = xf_runs::events_of_runs(less);
    let last = xf_runs::events_of_run(runs.last());
    assert(all == before + last);
    if i < runs.len() - 1 {
        assert forall|j: int| 0 <= j < before.len() implies is_due(
            h,
            from,
            to,
            #[trigger] before[j],
        ) by {
            assert(all[j] == before[j]);
        }
        assert(less[i] == runs[i]);
        lemma_run_due(h, from, to, less, i, k);
    } else {
        assert(last[k] == xf_runs::event_of_run(runs[i], k));
        assert(all[before.len() + k] == last[k]);
    }
}

spec fn is_due(h: Hist, from: Seq<usize>, to: Seq<usize>, x: Xf) -> bool {
    &&& 0 <= x.lv < h.len()
    &&& plan::due(h.parents, from, to, x.lv)
    &&& x == merge::xf_at(h, from, to, x.lv)
}

proof fn lemma_all_due(h: Hist, from: Seq<usize>, to: Seq<usize>, k: int)
    requires
        0 <= k <= h.len(),
    ensures
        forall|j: int|
            0 <= j < merge::xf_to(h, from, to, k).len() ==> is_due(
                h,
                from,
                to,
                #[trigger] merge::xf_to(h, from, to, k)[j],
            ),
    decreases k,
{
    if k > 0 {
        lemma_all_due(h, from, to, k - 1);
        let before = merge::xf_to(h, from, to, k - 1);
        let out = merge::xf_to(h, from, to, k);
        assert forall|j: int| 0 <= j < out.len() implies is_due(
            h,
            from,
            to,
            #[trigger] out[j],
        ) by {
            if j < before.len() {
                assert(out[j] == before[j]);
            }
        }
    }
}

/// The runs that do something are runs.
proof fn lemma_applied(runs: Seq<XfRun>, i: int) -> (j: int)
    requires
        0 <= i < braid::applied(runs).len(),
    ensures
        0 <= j < runs.len(),
        runs[j] == braid::applied(runs)[i],
        runs[j].op is Some,
    decreases runs.len(),
{
    let less = runs.drop_last();
    if runs.last().op is Some && i == braid::applied(less).len() {
        runs.len() - 1
    } else {
        let j = lemma_applied(less, i);
        assert(less[j] == runs[j]);
        j
    }
}

/// The operations that merge one version into another are what the events do that are new,
/// under the names of those who wrote them.
#[verifier::rlimit(60)]
pub proof fn law_xf_told(log: ListOpLog, from: Seq<usize>, to: Seq<usize>, out: Seq<XfOp>, i: int)
    requires
        log.inv(),
        history::playable(log.hist()),
        graph::known(log.cg.parents(), from),
        graph::known(log.cg.parents(), to),
        travel::say_runs(log.hist(), out, braid::applied(xf_runs::xf_runs(log, from, to))),
        0 <= i < out.len(),
    ensures
        exists|start: int| is_xf(log.hist(), from, to, out[i], start),
{
    let h = log.hist();
    let runs = xf_runs::xf_runs(log, from, to);
    let x = out[i];
    log.lemma_hist();
    xf_runs::law_xf_runs(log, from, to);
    xf_runs::lemma_runs_within(log, from, to, log.size());
    xf_runs::lemma_steps(log, from, to, log.size());
    lemma_all_due(h, from, to, h.len() as int);
    let j = lemma_applied(runs, i);
    let run = runs[j];
    let op = run.op->0;
    let start = run.start;
    assert(braid::says_run(h, x, run));
    assert(xf_runs::run_ok(run));
    let n = run.end - run.start;
    assert forall|k: int| 0 <= k < n implies {
        &&& #[trigger] plan::due(h.parents, from, to, start + k)
        &&& Some(op.event(k)) == merge::xf_at(h, from, to, start + k).ev
    } by {
        lemma_run_due(h, from, to, runs, j, k);
    }
    reveal_strlit("Ins");
    reveal_strlit("Del");
    assert("Ins"@ =~= seq!['I', 'n', 's']);
    assert("Del"@ =~= seq!['D', 'e', 'l']);
    assert forall|v: int| start <= v < start + n implies #[trigger] graph::in_cone(
        h.parents,
        to,
        v,
    ) && !graph::in_cone(h.parents, from, v) by {
        assert(plan::due(h.parents, from, to, start + (v - start)));
    }
    assert forall|v: int| start <= v < start + n implies (#[trigger] h.ops[v] is Ins) == (op.kind
        == ListOpKind::Ins) by {
        assert(plan::due(h.parents, from, to, start + (v - start)));
    }
    assert(h.ops[start] is Ins == (op.kind == ListOpKind::Ins));
    if op.kind == ListOpKind::Ins {
        assert forall|k: int| 0 <= k < n implies {
            &&& h.ops[start + k] is Ins
            &&& h.char_of(start + k) == #[trigger] x.content@[k]
            &&& merge::xf_at(h, from, to, start + k).ev == Some(
                EvOp::Ins { pos: x.start + k, ch: x.content@[k] },
            )
        } by {
            assert(plan::due(h.parents, from, to, start + k));
            assert(h.ops[start + k] is Ins);
        }
    } else {
        assert forall|v: int| start <= v < start + n implies {
            &&& #[trigger] h.ops[v] is Del
            &&& merge::xf_at(h, from, to, v).ev == Some(
                EvOp::Del {
                    pos: if x.fwd {
                        x.start as int
                    } else {
                        x.end - 1 - (v - start)
                    },
                },
            )
        } by {
            assert(!(h.ops[v] is Ins));
            assert(plan::due(h.parents, from, to, start + (v - start)));
        }
    }
    assert(is_xf(h, from, to, x, start));
}

/// What undoes runs stands for events of these.
proof fn lemma_undone(doc: Seq<char>, runs: Seq<XfRun>, i: int) -> (j: int)
    requires
        0 <= i < travel::undone(doc, runs).len(),
    ensures
        0 <= j < runs.len(),
        runs[j].op is Some,
        runs[j].start == travel::undone(doc, runs)[i].start,
    decreases runs.len(),
{
    let before = runs.drop_last();
    if runs.last().op is Some {
        if i == 0 {
            runs.len() - 1
        } else {
            let j = lemma_undone(doc, before, i - 1);
            assert(before[j] == runs[j]);
            j
        }
    } else {
        let j = lemma_undone(doc, before, i);
        assert(before[j] == runs[j]);
        j
    }
}

/// An operation that leads from one version to another bears the name of the author of an
/// event that one of the two has seen and the other has not.
#[verifier::rlimit(40)]
pub proof fn law_travel_named(
    log: ListOpLog,
    from: Seq<usize>,
    to: Seq<usize>,
    out: Seq<XfOp>,
    i: int,
)
    requires
        log.inv(),
        history::playable(log.hist()),
        travel::say_runs(log.hist(), out, travel::travel(log, from, to)),
        0 <= i < out.len(),
    ensures
        exists|v: int|
            0 <= v < log.hist().len() && out[i].agent@ == (#[trigger] log.hist().ids[v]).0
                && graph::in_cone(log.hist().parents, from, v) != graph::in_cone(
                log.hist().parents,
                to,
                v,
            ),
{
    let h = log.hist();
    let there = xf_runs::xf_runs(log, from, to);
    let back = xf_runs::xf_runs(log, to, from);
    let doc = history::document(h, h.version(to));
    log.lemma_hist();
    xf_runs::law_xf_runs(log, from, to);
    xf_runs::lemma_steps(log, from, to, log.size());
    lemma_all_due(h, from, to, h.len() as int);
    xf_runs::law_xf_runs(log, to, from);
    xf_runs::lemma_steps(log, to, from, log.size());
    lemma_all_due(h, to, from, h.len() as int);
    let go = braid::applied(there);
    assert(braid::says_run(h, out[i], travel::travel(log, from, to)[i]));
    if i < go.len() {
        let j = lemma_applied(there, i);
        assert(xf_runs::run_ok(there[j]));
        lemma_run_due(h, from, to, there, j, 0);
        let v = there[j].start;
        assert(out[i].agent@ == h.ids[v].0);
    } else {
        let j = lemma_undone(doc, back, i - go.len());
        assert(xf_runs::run_ok(back[j]));
        lemma_run_due(h, to, from, back, j, 0);
        let v = back[j].start;
        assert(travel::travel(log, from, to)[i] == travel::undone(doc, back)[i - go.len()]);
        assert(out[i].agent@ == h.ids[v].0);
    }
}

/// Transformed operations as replacements: an insert puts its content at its start, a delete
/// replaces its span by nothing, and what does nothing is left out.
pub proof fn law_run_patches(runs: Seq<XfRun>, run: XfRun)
    requires
        run.op matches Some(op) ==> op.valid(),
    ensures
        xf_absolute::run_patches(Seq::empty()) == Seq::<Patch>::empty(),
        xf_absolute::run_patches(runs.push(run)) == match run.op {
            Some(op) => xf_absolute::run_patches(runs).push(
                match op.kind {
                    ListOpKind::Ins => Patch {
                        start: op.start,
                        end: op.start,
                        content: op.content->0,
                    },
                    ListOpKind::Del => Patch {
                        start: op.start,
                        end: op.end,
                        content: Seq::empty(),
                    },
                },
            ),
            None => xf_absolute::run_patches(runs),
        },
{
    assert(runs.push(run).drop_last() =~= runs);
    assert(runs.push(run).last() == run);
}

// ---- ranges ----

/// Numbers that are chosen, as ranges: they hold these and no others, in ascending order, with
/// at least one number between any two of them.
pub proof fn law_ranges(n: int, chosen: spec_fn(int) -> bool)
    requires
        0 <= n <= usize::MAX,
    ensures
        ({
            let ranges = graph::ranges_below(n, chosen);
            &&& forall|i: int|
                0 <= i < ranges.len() ==> (#[trigger] ranges[i]).start < ranges[i].end <= n
            &&& forall|i: int, j: int|
                0 <= i < j < ranges.len() ==> (#[trigger] ranges[i]).end < (
                #[trigger] ranges[j]).start
            &&& forall|v: int|
                0 <= v < n ==> (#[trigger] chosen(v) <==> exists|i: int|
                    0 <= i < ranges.len() && (#[trigger] ranges[i]).start <= v < ranges[i].end)
        }),
    decreases n,
{
    if n > 0 {
        law_ranges(n - 1, chosen);
        let before = graph::ranges_below(n - 1, chosen);
        let ranges = graph::ranges_below(n, chosen);
        assert forall|i: int| 0 <= i < ranges.len() implies (#[trigger] ranges[i]).start
            < ranges[i].end <= n by {
            if i < before.len() {
                assert(before[i].start < before[i].end <= n - 1);
            }
        }
        assert forall|i: int, j: int| 0 <= i < j < ranges.len() implies (#[trigger] ranges[i]).end
            < (#[trigger] ranges[j]).start by {
            assert(before[i].start < before[i].end <= n - 1);
            if j < before.len() {
                assert(before[i].end < before[j].start);
            } else if i < before.len() - 1 {
                assert(before[i].end < before[before.len() - 1].start);
                assert(before[before.len() - 1].end <= n - 1);
            }
        }
        assert forall|v: int| 0 <= v < n implies (#[trigger] chosen(v) <==> exists|i: int|
            0 <= i < ranges.len() && (#[trigger] ranges[i]).start <= v < ranges[i].end) by {
            if chosen(v) {
                if v == n - 1 {
                    assert(ranges[ranges.len() - 1].start <= v < ranges[ranges.len() - 1].end);
                } else {
                    let i = choose|i: int|
                        0 <= i < before.len() && (#[trigger] before[i]).start <= v < before[i].end;
                    assert(ranges[i].start <= v < ranges[i].end);
                }
            }
            if exists|i: int|
                0 <= i < ranges.len() && (#[trigger] ranges[i]).start <= v < ranges[i].end {
                let i = choose|i: int|
                    0 <= i < ranges.len() && (#[trigger] ranges[i]).start <= v < ranges[i].end;
                if v < n - 1 {
                    assert(i < before.len());
                    assert(before[i].start <= v);
                    assert(v < before[i].end);
                } else if !chosen(v) {
                    assert(before[i].end <= n - 1);
                }
            }
        }
    }
}

} // verus!
