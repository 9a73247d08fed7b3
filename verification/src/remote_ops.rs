//! Edits and versions as peers send them: events are named by texts, `author-count`.

use crate::agent_assignment;
use crate::agent_assignment::{AgentId, AgentSpan, LV};
use crate::causal_graph;
use crate::decimal;
use crate::decimal::parse_number;
use crate::events;
use crate::graph;
use crate::graph::{GraphAbs, GraphRun};
use crate::history::Hist;
use crate::names;
use crate::operation;
use crate::operation::{EvOp, ListOpKind, OpAbs, TextOperation};
use crate::oplog;
use crate::oplog::ListOpLog;
use crate::range::DTRange;
use crate::rle;
use crate::sorting;
use crate::sorting::sorted_numbers;
use crate::text::{chars_of, cp_len, head_of};
use vstd::prelude::*;

verus! {

// ---- names of events ----

/// The place of the last dash; -1 if there is none.
pub open spec fn last_dash(s: Seq<char>) -> int
    decreases s.len(),
{
    if s.len() == 0 {
        -1
    } else if s.last() == '-' {
        s.len() - 1
    } else {
        last_dash(s.drop_last())
    }
}

/// The author's name and count that a text names an event by. The count comes after the
/// last dash, as names may have dashes in them.
pub open spec fn named_id(s: Seq<char>) -> Option<(Seq<char>, int)> {
    let k = last_dash(s);
    if k < 0 {
        None
    } else {
        match decimal::number_in(s.skip(k + 1)) {
            Some(n) => Some((s.take(k), n)),
            None => None,
        }
    }
}

/// Which event of a history a text names.
pub open spec fn named_event(h: Hist, s: Seq<char>) -> Option<int> {
    match named_id(s) {
        Some(id) => if events::has_id(h, id) {
            Some(events::place(h, id))
        } else {
            None
        },
        None => None,
    }
}

/// The events that texts name, without those that are not known.
pub open spec fn named_events(h: Hist, ids: Seq<Seq<char>>) -> Seq<usize>
    decreases ids.len(),
{
    if ids.len() == 0 {
        Seq::empty()
    } else {
        let before = named_events(h, ids.drop_last());
        match named_event(h, ids.last()) {
            Some(v) => before.push(v as usize),
            None => before,
        }
    }
}

/// Whether all texts name known events.
pub open spec fn all_named(h: Hist, ids: Seq<Seq<char>>) -> bool {
    forall|i: int| 0 <= i < ids.len() ==> named_event(h, #[trigger] ids[i]) is Some
}

/// Whether `id` is the first of the texts that names no known event.
pub open spec fn first_unnamed(h: Hist, ids: Seq<Seq<char>>, id: Seq<char>) -> bool {
    exists|i: int|
        0 <= i < ids.len() && #[trigger] ids[i] == id && named_event(h, id) is None && all_named(
            h,
            ids.take(i),
        )
}

/// Whether a list holds, in ascending order, the known events that texts name.
pub open spec fn lists_named(h: Hist, ids: Seq<Seq<char>>, list: Seq<usize>) -> bool {
    &&& sorting::in_order(list)
    &&& list.to_multiset() == named_events(h, ids).to_multiset()
}

/// A name of an event that is not known.
#[derive(Debug, PartialEq, Eq)]
pub struct VersionNotFound(pub String);

impl ListOpLog {
    /// The event that a text names.
    pub fn find_named(&self, id: &str) -> (out: Option<LV>)
        requires
            self.inv(),
        ensures
            match out {
                Some(lv) => lv < self.size() && named_event(self.hist(), id@) == Some(lv as int),
                None => named_event(self.hist(), id@) is None,
            },
    {
        let chars = chars_of(id);
        let mut k: usize = chars.len();
        assert(id@.take(k as int) =~= id@);
        while k > 0 && chars[k - 1] != '-'
            invariant
                chars@ == id@,
                k <= id@.len(),
                last_dash(id@) == last_dash(id@.take(k as int)),
            decreases k,
        {
            assert(id@.take(k as int).drop_last() =~= id@.take(k - 1));
            k -= 1;
        }
        if k == 0 {
            return None;
        }
        assert(last_dash(id@) == k - 1) by {
            assert(id@.take(k as int).last() == '-');
        }
        match parse_number(chars.as_slice(), k) {
            None => None,
            Some(seq) => self.find_event(head_of(id, k - 1), seq),
        }
    }
}

/// The events that texts name, in ascending order. With `tolerant`, those that are
/// not known are left out; else the first one is told.
pub fn parse_remote_ids(oplog: &ListOpLog, ids: &[String], tolerant: bool) -> (out: Result<
    Vec<LV>,
    VersionNotFound,
>)
    requires
        oplog.inv(),
    ensures
        ({
            let h = oplog.hist();
            let texts = sorting::texts_of(ids@);
            match out {
                Ok(list) => {
                    &&& tolerant || all_named(h, texts)
                    &&& lists_named(h, texts, list@)
                    &&& graph::known(oplog.cg.parents(), list@)
                },
                Err(e) => !tolerant && first_unnamed(h, texts, e.0@),
            }
        }),
{
    let ghost h = oplog.hist();
    let ghost texts = sorting::texts_of(ids@);
    let mut found: Vec<LV> = Vec::new();
    let mut i: usize = 0;
    assert(texts.take(0) =~= Seq::<Seq<char>>::empty());
    assert(found@ =~= named_events(h, texts.take(0)));
    while i < ids.len()
        invariant
            oplog.inv(),
            h == oplog.hist(),
            texts == sorting::texts_of(ids@),
            i <= ids@.len(),
            found@ == named_events(h, texts.take(i as int)),
            forall|j: int| 0 <= j < found@.len() ==> (#[trigger] found@[j]) < oplog.size(),
            !tolerant ==> forall|j: int|
                0 <= j < i ==> named_event(h, #[trigger] texts[j]) is Some,
        decreases ids@.len() - i,
    {
        proof {
            assert(texts[i as int] == ids@[i as int]@);
            assert(texts.take(i + 1).drop_last() =~= texts.take(i as int));
            assert(texts.take(i + 1).last() == texts[i as int]);
        }
        match oplog.find_named(ids[i].as_str()) {
            Some(lv) => {
                found.push(lv);
            },
            None => {
                if !tolerant {
                    assert(all_named(h, texts.take(i as int)));
                    return Err(VersionNotFound(ids[i].clone()));
                }
            },
        }
        i += 1;
    }
    assert(texts.take(i as int) =~= texts);
    // Versions are held in ascending order.
    let out = sorted_numbers(&found);
    proof {
        broadcast use vstd::seq_lib::group_to_multiset_ensures;

        oplog.lemma_hist();
        assert forall|j: int| 0 <= j < out@.len() implies (#[trigger] out@[j])
            < oplog.cg.parents().len() by {
            assert(out@.contains(out@[j]));
            assert(found@.to_multiset().count(out@[j]) > 0);
            assert(found@.contains(out@[j]));
            let k = found@.index_of(out@[j]);
            assert(found@[k] < oplog.size());
        }
    }
    Ok(out)
}

// ---- taking up what was sent ----

/// The first count from `from` on, or `to`, of which being known is not as given.
pub open spec fn skip_ids(h: Hist, name: Seq<char>, from: int, to: int, known: bool) -> int
    decreases to - from,
{
    if from < to && events::has_id(h, (name, from)) == known {
        skip_ids(h, name, from + 1, to, known)
    } else {
        from
    }
}

pub proof fn lemma_skip_bounds(h: Hist, name: Seq<char>, from: int, to: int, known: bool)
    requires
        from <= to,
    ensures
        from <= skip_ids(h, name, from, to, known) <= to,
    decreases to - from,
{
    if from < to && events::has_id(h, (name, from)) == known {
        lemma_skip_bounds(h, name, from + 1, to, known);
    }
}

/// How many events that an author sent are new, of those from the first one on that is not
/// known up to the next one that is.
pub open spec fn new_count(h: Hist, name: Seq<char>, seq: int, n: nat) -> int {
    let a = skip_ids(h, name, seq, seq + n, true);
    skip_ids(h, name, a, seq + n, false) - a
}

/// No more events are new than were sent.
pub proof fn lemma_new_count(h: Hist, name: Seq<char>, seq: int, n: nat)
    ensures
        0 <= new_count(h, name, seq, n) <= n,
{
    let a = skip_ids(h, name, seq, seq + n, true);
    lemma_skip_bounds(h, name, seq, seq + n, true);
    lemma_skip_bounds(h, name, a, seq + n, false);
}

/// The history with those of the events that an author sent that are new: those from the
/// first one on that is not known, up to the next one that is. The first of all follows
/// `parents`, and each other one the one before it.
pub open spec fn taken_up(
    h: Hist,
    parents: Seq<usize>,
    name: Seq<char>,
    seq: int,
    evs: Seq<EvOp>,
) -> Hist {
    let to = seq + evs.len();
    let a = skip_ids(h, name, seq, to, true);
    let b = skip_ids(h, name, a, to, false);
    if a == b {
        h
    } else {
        oplog::extended(
            h,
            if a == seq {
                parents
            } else {
                seq![events::place(h, (name, a - 1)) as usize]
            },
            name,
            a,
            evs.subrange(a - seq, b - seq),
        )
    }
}

proof fn lemma_skip_ids(log: ListOpLog, agent: AgentId, from: int, to: int, known: bool)
    requires
        log.inv(),
        agent < log.cg.agent_assignment.agents(),
    ensures
        causal_graph::skip(log.cg.agent_assignment, agent, from, to, known) == skip_ids(
            log.hist(),
            log.cg.agent_assignment.name_of(agent as int),
            from,
            to,
            known,
        ),
    decreases to - from,
{
    let aa = log.cg.agent_assignment;
    let name = aa.name_of(agent as int);
    if from < to {
        log.lemma_ids(name, from);
        assert(aa.knows(agent as int, from) == events::has_id(log.hist(), (name, from))) by {
            if events::has_id(log.hist(), (name, from)) {
                let a = choose|a: int|
                    0 <= a < aa.agents() && #[trigger] aa.name_of(a) == name && aa.knows(a, from);
                assert(aa.agent_ids@[aa.name_of(a)] == a);
                assert(aa.agent_ids@[aa.name_of(agent as int)] == agent);
            }
            if aa.knows(agent as int, from) {
                assert(aa.name_of(agent as int) == name);
            }
        }
        lemma_skip_ids(log, agent, from + 1, to, known);
    }
}

/// Which events that an author sent are new, and what they follow, is told by the history.
pub proof fn lemma_fresh(
    log: ListOpLog,
    agent: AgentId,
    start_seq: usize,
    n: nat,
    parents: Seq<usize>,
)
    requires
        log.inv(),
        agent < log.cg.agent_assignment.agents(),
        start_seq + n <= usize::MAX,
    ensures
        ({
            let h = log.hist();
            let name = log.cg.agent_assignment.name_of(agent as int);
            let to = start_seq + n;
            let a = skip_ids(h, name, start_seq as int, to, true);
            let b = skip_ids(h, name, a, to, false);
            let span = oplog::sent_span(agent, start_seq, n);
            &&& start_seq <= a <= b <= to
            &&& log.cg.fresh_part(span) == (DTRange { start: a as usize, end: b as usize })
            &&& a < b ==> log.cg.fresh_parents(span, parents) == (if a == start_seq {
                parents
            } else {
                seq![events::place(h, (name, a - 1)) as usize]
            })
        }),
{
    let h = log.hist();
    let aa = log.cg.agent_assignment;
    let name = aa.name_of(agent as int);
    let to = start_seq + n;
    let a = skip_ids(h, name, start_seq as int, to, true);
    log.lemma_hist();
    lemma_skip_bounds(h, name, start_seq as int, to, true);
    lemma_skip_bounds(h, name, a, to, false);
    lemma_skip_ids(log, agent, start_seq as int, to, true);
    lemma_skip_ids(log, agent, a, to, false);
    causal_graph::lemma_skip(aa, agent, start_seq as int, to, true);
    causal_graph::lemma_skip(aa, agent, a, to, false);
    if a > start_seq {
        assert(aa.knows(agent as int, a - 1));
        let lv = aa.lv_of(agent as int, a - 1);
        assert(aa.id_of(lv) == (agent, a - 1));
        assert(h.ids[lv] == (name, a - 1));
        events::lemma_place(h, lv);
    }
}

/// Of an author that is not known, all events are new.
pub proof fn lemma_all_new(log: ListOpLog, name: Seq<char>, seq: int, n: nat)
    requires
        log.inv(),
        forall|a: int|
            0 <= a < log.cg.agent_assignment.agents() ==> log.cg.agent_assignment.name_of(a)
                != name,
    ensures
        new_count(log.hist(), name, seq, n) == n,
    decreases n,
{
    lemma_none_known(log, name, seq, seq + n);
    if n > 0 {
        log.lemma_ids(name, seq);
    }
}

proof fn lemma_none_known(log: ListOpLog, name: Seq<char>, from: int, to: int)
    requires
        log.inv(),
        forall|a: int|
            0 <= a < log.cg.agent_assignment.agents() ==> log.cg.agent_assignment.name_of(a)
                != name,
        from <= to,
    ensures
        skip_ids(log.hist(), name, from, to, false) == to,
    decreases to - from,
{
    if from < to {
        log.lemma_ids(name, from);
        lemma_none_known(log, name, from + 1, to);
    }
}

/// An edit as its author recorded it: an insert of `ins` at `pos`, or a delete of `del`
/// characters from `pos` on, positioned against the document at `parents`.
#[derive(Debug)]
pub struct RemoteOp {
    pub agent: String,
    pub seq: usize,
    pub parents: Vec<String>,
    pub pos: usize,
    pub del: usize,
    pub ins: Option<String>,
}

/// What the events of an edit do. Those of a delete count backward from the end of the
/// range, as when holding down backspace.
pub open spec fn remote_events(op: RemoteOp) -> Seq<EvOp> {
    if op.del > 0 {
        Seq::new(op.del as nat, |k: int| EvOp::Del { pos: op.pos + op.del - 1 - k })
    } else {
        match op.ins {
            Some(text) => oplog::typed(op.pos as int, text@),
            None => Seq::empty(),
        }
    }
}

impl RemoteOp {
    /// Whether the edit can be counted.
    pub open spec fn fits(&self) -> bool {
        &&& agent_assignment::name_fits(self.agent@)
        &&& self.pos + remote_events(*self).len() <= usize::MAX
        &&& self.seq + remote_events(*self).len() <= usize::MAX
    }
}

/// The known events that texts name, in ascending order.
pub open spec fn named_list(h: Hist, ids: Seq<Seq<char>>) -> Seq<usize> {
    choose|list: Seq<usize>| lists_named(h, ids, list)
}

/// There is one such list.
pub proof fn lemma_named_list(h: Hist, ids: Seq<Seq<char>>, list: Seq<usize>)
    requires
        lists_named(h, ids, list),
    ensures
        list == named_list(h, ids),
{
    let other = named_list(h, ids);
    let leq = |a: usize, b: usize| a <= b;
    assert(vstd::relations::sorted_by(list, leq));
    assert(vstd::relations::sorted_by(other, leq));
    vstd::seq_lib::lemma_sorted_unique(list, other, leq);
}

/// Whether all that an edit follows is known.
pub open spec fn recordable(h: Hist, op: RemoteOp) -> bool {
    all_named(h, sorting::texts_of(op.parents@))
}

/// How many events of an edit are new.
pub open spec fn new_in(h: Hist, op: RemoteOp) -> int {
    new_count(h, op.agent@, op.seq as int, remote_events(op).len())
}

/// Whether an edit can be counted in a log, if it can be recorded there.
pub open spec fn has_room(log: ListOpLog, op: RemoteOp) -> bool {
    recordable(log.hist(), op) ==> {
        &&& op.fits()
        &&& log.size() + new_in(log.hist(), op) <= usize::MAX
        &&& log.cg.agent_assignment.room_for(op.agent@)
    }
}

/// The history with an edit recorded.
pub open spec fn recorded(h: Hist, op: RemoteOp) -> Hist {
    taken_up(
        h,
        named_list(h, sorting::texts_of(op.parents@)),
        op.agent@,
        op.seq as int,
        remote_events(op),
    )
}

/// The operations that an edit is: one, or none where it does nothing.
pub open spec fn remote_abs(op: RemoteOp) -> Seq<OpAbs> {
    if op.del > 0 {
        seq![
            OpAbs {
                kind: ListOpKind::Del,
                start: op.pos as int,
                end: op.pos + op.del,
                fwd: false,
                content: None,
            },
        ]
    } else {
        match op.ins {
            Some(text) => if text@.len() > 0 {
                seq![operation::insert_abs(op.pos as int, text@)]
            } else {
                Seq::empty()
            },
            None => Seq::empty(),
        }
    }
}

/// Whether `now` is the log `was` with an edit stored behind the others. Its author is
/// known by then; of its events those are stored that are new.
pub open spec fn stored(was: ListOpLog, now: ListOpLog, op: RemoteOp) -> bool {
    let h = was.hist();
    let to = op.seq + remote_events(op).len();
    let a = skip_ids(h, op.agent@, op.seq as int, to, true);
    let b = skip_ids(h, op.agent@, a, to, false);
    let span = DTRange { start: was.size() as usize, end: (was.size() + (b - a)) as usize };
    let aa = was.cg.agent_assignment;
    let bb = now.cg.agent_assignment;
    &&& now.hist() == recorded(h, op)
    &&& now.keeps_agents(was)
    &&& now.names() == names::with_name(was.names(), op.agent@)
    &&& now.operations.runs() == oplog::pushed_all(
        was.operations.runs(),
        oplog::parts_of(remote_abs(op), a - op.seq, b - op.seq),
    )
    &&& a == b ==> now.cg.graph == was.cg.graph && bb.client_with_lv == aa.client_with_lv
    &&& a < b ==> now.cg.graph.entries.runs() == rle::pushed::<GraphRun>(
        was.cg.graph.entries.runs(),
        was.size(),
        GraphAbs { len: b - a, parents: now.hist().parents[was.size()] },
    )
    &&& a < b ==> forall|agent: AgentId|
        agent < bb.agents() && #[trigger] bb.name_of(agent as int) == op.agent@
            ==> bb.client_with_lv.runs() == rle::pushed::<AgentSpan>(
            aa.client_with_lv.runs(),
            was.size(),
            agent_assignment::assigned(agent, a, span),
        )
}

/// Gives the operations that an edit is.
fn remote_ops(op: &RemoteOp) -> (out: Vec<TextOperation>)
    requires
        op.fits(),
    ensures
        forall|i: int| 0 <= i < out@.len() ==> (#[trigger] out@[i])@.valid(),
        oplog::ops_view(out@) == remote_abs(*op),
        oplog::events_of(oplog::ops_view(out@)) == remote_events(*op),
{
    let mut out: Vec<TextOperation> = Vec::new();
    if op.del > 0 {
        let mut del = TextOperation::new_delete(DTRange { start: op.pos, end: op.pos + op.del });
        del.loc.fwd = false;
        let ghost told = del@;
        out.push(del);
        proof {
            assert(oplog::ops_view(out@) =~= seq![told]);
            oplog::lemma_events_one(told);
            assert(told.events() =~= remote_events(*op));
        }
    } else if let Some(text) = &op.ins {
        if cp_len(text.as_str()) > 0 {
            let ins = TextOperation::new_insert(op.pos, text.as_str());
            let ghost told = ins@;
            out.push(ins);
            proof {
                assert(oplog::ops_view(out@) =~= seq![told]);
                oplog::lemma_events_one(told);
                assert forall|k: int| 0 <= k < told.size() implies #[trigger] told.event(k)
                    == oplog::typed_char(op.pos as int, text@, k) by {}
                assert(told.events() =~= remote_events(*op));
            }
        } else {
            assert(oplog::ops_view(out@) =~= Seq::<OpAbs>::empty());
            assert(remote_events(*op) =~= Seq::<EvOp>::empty());
        }
    } else {
        assert(oplog::ops_view(out@) =~= Seq::<OpAbs>::empty());
    }
    out
}

/// Records an edit in the log. No branch is touched, so that a caller that adds
/// several can pay for one merge at the end.
///
/// Gives the local versions of what was added, or the first of its parents that is not
/// known; the log then stays as it is.
#[verifier::rlimit(50)]
pub fn add_remote_op(oplog: &mut ListOpLog, op: &RemoteOp) -> (out: Result<
    DTRange,
    VersionNotFound,
>)
    requires
        old(oplog).inv(),
        has_room(*old(oplog), *op),
    ensures
        final(oplog).inv(),
        final(oplog).keeps_agents(*old(oplog)),
        final(oplog).cg.agent_assignment.agents() <= old(oplog).cg.agent_assignment.agents() + 1,
        match out {
            Ok(range) => {
                &&& recordable(old(oplog).hist(), *op)
                &&& range.start == old(oplog).size()
                &&& range.end == final(oplog).size()
                &&& final(oplog).hist() == recorded(old(oplog).hist(), *op)
                &&& stored(*old(oplog), *final(oplog), *op)
                &&& graph::known(
                    old(oplog).cg.parents(),
                    named_list(old(oplog).hist(), sorting::texts_of(op.parents@)),
                )
            },
            Err(e) => {
                &&& *final(oplog) == *old(oplog)
                &&& first_unnamed(old(oplog).hist(), sorting::texts_of(op.parents@), e.0@)
            },
        },
{
    let ghost h = oplog.hist();
    let parents = match parse_remote_ids(oplog, op.parents.as_slice(), false) {
        Ok(list) => list,
        Err(e) => {
            return Err(e);
        },
    };
    let agent = oplog.get_or_create_agent_id(op.agent.as_str());
    let ops = remote_ops(op);
    let ghost mid = *oplog;
    let ghost evs = remote_events(*op);
    proof {
        oplog.lemma_hist();
        lemma_named_list(h, sorting::texts_of(op.parents@), parents@);
        lemma_fresh(mid, agent, op.seq, evs.len(), parents@);
    }
    let range = oplog.add_operations_remote(agent, parents.as_slice(), op.seq, ops.as_slice());
    proof {
        assert(oplog.names() =~= mid.names());
    }
    Ok(range)
}

} // verus!
