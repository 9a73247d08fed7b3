//! All that the log knows of a range of events: what they do, what they follow, and who
//! wrote them.

use crate::agent_assignment::AgentSpan;
use crate::frontier::Frontier;
use crate::graph::GraphRun;
use crate::history::Hist;
use crate::operation::{OpAbs, TextOperation};
use crate::oplog;
use crate::oplog::ListOpLog;
use crate::range::DTRange;
use crate::rle;
use crate::rle::RleVal;
use vstd::prelude::*;

verus! {

/// Events each of which but the first follows the one before it alone.
#[derive(Debug, PartialEq, Eq)]
pub struct GraphEntrySimple {
    pub span: DTRange,
    /// What the first event follows.
    pub parents: Frontier,
}

/// Events by their author's name and count.
#[derive(Debug, Clone, Copy, PartialEq, Eq)]
pub struct RemoteVersionSpan<'a>(pub &'a str, pub DTRange);

/// Events that follow each other, by one author, and that are one operation.
#[verifier::ext_equal]
pub struct Piece {
    pub start: int,
    pub end: int,
    pub op: OpAbs,
    pub parents: Seq<usize>,
    pub name: Seq<char>,
    pub seq: int,
}

pub open spec fn piece_view(p: (TextOperation, GraphEntrySimple, RemoteVersionSpan)) -> Piece {
    Piece {
        start: p.1.span.start as int,
        end: p.1.span.end as int,
        op: p.0@,
        parents: p.1.parents@,
        name: p.2.0@,
        seq: p.2.1.start as int,
    }
}

pub open spec fn pieces_view(
    list: Seq<(TextOperation, GraphEntrySimple, RemoteVersionSpan)>,
) -> Seq<Piece> {
    list.map_values(|p: (TextOperation, GraphEntrySimple, RemoteVersionSpan)| piece_view(p))
}

/// The events `from..to`.
pub open spec fn piece_of(log: ListOpLog, from: int, to: int) -> Piece {
    Piece {
        start: from,
        end: to,
        op: rle::piece::<TextOperation>(log.operations.runs(), from, to),
        parents: log.hist().parents[from],
        name: log.id_of(from).0,
        seq: log.id_of(from).1,
    }
}

/// Up to where the events from `from` on are one operation, follow each other, and have
/// one author.
pub open spec fn piece_end(log: ListOpLog, from: int, to: int) -> int {
    let a = rle::break_after::<TextOperation>(log.operations.runs(), from, to);
    let b = rle::break_after::<GraphRun>(log.cg.graph.entries.runs(), from, to);
    let c = rle::break_after::<AgentSpan>(log.cg.agent_assignment.client_with_lv.runs(), from, to);
    let ab = if a < b {
        a
    } else {
        b
    };
    if ab < c {
        ab
    } else {
        c
    }
}

/// The events `from..to`, in as few parts as what is known of them is held in.
pub open spec fn pieces(log: ListOpLog, from: int, to: int) -> Seq<Piece>
    decreases to - from,
{
    let next = piece_end(log, from, to);
    if from < next {
        seq![piece_of(log, from, next)] + pieces(log, next, to)
    } else {
        Seq::empty()
    }
}

/// Whether the events from `first` on are those of an operation, follow each
/// other, and have one author.
pub open spec fn is_run(
    h: Hist,
    first: int,
    op: OpAbs,
    parents: Seq<usize>,
    name: Seq<char>,
    seq: int,
) -> bool {
    &&& op.valid()
    &&& 0 <= first
    &&& first + op.size() <= h.len()
    &&& h.len() <= usize::MAX
    &&& 0 <= seq
    &&& seq + op.size() <= usize::MAX
    &&& forall|k: int|
        #![trigger h.ops[first + k]]
        #![trigger h.ids[first + k]]
        #![trigger h.parents[first + k]]
        0 <= k < op.size() ==> {
            &&& h.ops[first + k] == op.event(k)
            &&& h.ids[first + k] == (name, seq + k)
            &&& h.parents[first + k] == if k == 0 {
                parents
            } else {
                seq![(first + k - 1) as usize]
            }
        }
}

/// A part is what its events are.
#[verifier::rlimit(40)]
pub proof fn lemma_piece(log: ListOpLog, from: int, to: int)
    requires
        log.inv(),
        0 <= from < to <= log.size(),
    ensures
        ({
            let next = piece_end(log, from, to);
            let p = piece_of(log, from, next);
            &&& from < next <= to
            &&& p.op.size() == next - from
            &&& is_run(log.hist(), from, p.op, p.parents, p.name, p.seq)
            &&& rle::has::<TextOperation>(log.operations.runs(), from)
            &&& rle::has::<GraphRun>(log.cg.graph.entries.runs(), from)
            &&& rle::has::<AgentSpan>(log.cg.agent_assignment.client_with_lv.runs(), from)
        }),
{
    let h = log.hist();
    let ops = log.operations.runs();
    let entries = log.cg.graph.entries.runs();
    let spans = log.cg.agent_assignment.client_with_lv.runs();
    let aa = log.cg.agent_assignment;
    let next = piece_end(log, from, to);
    let p = piece_of(log, from, next);
    log.lemma_hist();
    rle::lemma_packed::<TextOperation>(ops, from);
    rle::lemma_packed::<GraphRun>(entries, from);
    rle::lemma_packed::<AgentSpan>(spans, from);
    let i = rle::run_of::<TextOperation>(ops, from);
    let j = rle::run_of::<GraphRun>(entries, from);
    let k = rle::run_of::<AgentSpan>(spans, from);
    assert(rle::covers::<TextOperation>(ops, i, from));
    assert(rle::covers::<GraphRun>(entries, j, from));
    assert(rle::covers::<AgentSpan>(spans, k, from));
    rle::lemma_piece::<TextOperation>(ops, from, next);
    rle::lemma_piece::<GraphRun>(entries, from, next);
    rle::lemma_piece::<AgentSpan>(spans, from, next);
    let span = rle::piece::<AgentSpan>(spans, from, next);
    let entry = rle::piece::<GraphRun>(entries, from, next);
    assert(AgentSpan::item(span, from, 0) == aa.id_of(from));
    assert(GraphRun::item(entry, from, 0) == h.parents[from]);
    assert forall|x: int|
        #![trigger h.ops[from + x]]
        #![trigger h.ids[from + x]]
        #![trigger h.parents[from + x]]
        0 <= x < next - from implies {
        &&& h.ops[from + x] == p.op.event(x)
        &&& h.ids[from + x] == (p.name, p.seq + x)
        &&& h.parents[from + x] == if x == 0 {
            p.parents
        } else {
            seq![(from + x - 1) as usize]
        }
    } by {
        reveal(oplog::op_at);
        assert(TextOperation::item(p.op, from, x) == rle::at::<TextOperation>(ops, from + x));
        assert(AgentSpan::item(span, from, x) == aa.id_of(from + x));
        assert(GraphRun::item(entry, from, x) == rle::at::<GraphRun>(entries, from + x));
    }
    assert(aa.id_of(next - 1) == AgentSpan::item(span, from, next - 1 - from)) by {
        assert(AgentSpan::item(span, from, next - 1 - from) == rle::at::<AgentSpan>(
            spans,
            from + (next - 1 - from),
        ));
    }
    assert(aa.id_of(next - 1).1 < usize::MAX);
    assert(aa.id_of(from).1 >= 0);
}

impl ListOpLog {
    /// The events of a range, in as few parts as what is known of them is held in.
    #[verifier::rlimit(50)]
    pub fn iter_full_range(&self, range: DTRange) -> (out: Vec<
        (TextOperation, GraphEntrySimple, RemoteVersionSpan<'_>),
    >)
        requires
            self.inv(),
            range.start <= range.end <= self.size(),
        ensures
            pieces_view(out@) == pieces(*self, range.start as int, range.end as int),
            forall|i: int|
                0 <= i < out@.len() ==> {
                    &&& (#[trigger] out@[i]).1.span.start < out@[i].1.span.end
                    &&& out@[i].2.1.size() == out@[i].0@.size()
                },
    {
        let ghost all = pieces(*self, range.start as int, range.end as int);
        let mut out: Vec<(TextOperation, GraphEntrySimple, RemoteVersionSpan<'_>)> = Vec::new();
        let mut at: usize = range.start;
        proof {
            assert(pieces_view(out@) + all =~= all);
        }
        while at < range.end
            invariant
                self.inv(),
                range.start <= at <= range.end <= self.size(),
                all == pieces_view(out@) + pieces(*self, at as int, range.end as int),
                forall|i: int|
                    0 <= i < out@.len() ==> {
                        &&& (#[trigger] out@[i]).1.span.start < out@[i].1.span.end
                        &&& out@[i].2.1.size() == out@[i].0@.size()
                    },
            decreases range.end - at,
        {
            proof {
                lemma_piece(*self, at as int, range.end as int);
                self.lemma_hist();
            }
            let end = range.end;
            let a = self.operations.next_break(at, end);
            let b = self.cg.graph.entries.next_break(at, end);
            let c = self.cg.agent_assignment.client_with_lv.next_break(at, end);
            let ab = if a < b {
                a
            } else {
                b
            };
            let next = if ab < c {
                ab
            } else {
                c
            };
            proof {
                let spans = self.cg.agent_assignment.client_with_lv.runs();
                rle::lemma_piece::<TextOperation>(
                    self.operations.runs(),
                    at as int,
                    next as int,
                );
                rle::lemma_piece::<AgentSpan>(spans, at as int, next as int);
                let span = rle::piece::<AgentSpan>(spans, at as int, next as int);
                assert(AgentSpan::item(span, at as int, 0) == self.cg.agent_assignment.id_of(
                    at as int,
                ));
            }
            let op = self.operations.piece_at(at, next);
            let parents = self.cg.graph.parents_at(at);
            let span = self.cg.agent_assignment.client_with_lv.piece_at(at, next);
            let name = self.cg.agent_assignment.get_agent_name(span.agent);
            let entry = GraphEntrySimple { span: DTRange { start: at, end: next }, parents };
            let ghost before = pieces_view(out@);
            let ghost told = piece_of(*self, at as int, next as int);
            out.push((op, entry, RemoteVersionSpan(name, span.seq_range)));
            proof {
                assert(piece_view(out@.last()) =~= told);
                assert(pieces_view(out@) =~= before.push(told));
                assert(pieces_view(out@) + pieces(*self, next as int, range.end as int)
                    =~= before + (seq![told] + pieces(*self, next as int, range.end as int)));
            }
            at = next;
        }
        proof {
            assert(pieces(*self, at as int, range.end as int) =~= Seq::<Piece>::empty());
            assert(all =~= pieces_view(out@));
        }
        out
    }
}

} // verus!
