//! Documents, logs and branches as an editor holds them: with the agent that edits.

use crate::agent_assignment;
use crate::agent_assignment::{AgentId, LV};
use crate::braid;
use crate::braid::{BadRange, BraidUpdate, RangePatch, TextPatch, XfOp};
use crate::branch::ListBranch;
use crate::decoding;
use crate::decoding::ParseError;
use crate::encoding;
use crate::encoding::{EncodeOptions, ENCODE_FULL, ENCODE_PATCH};
use crate::events;
use crate::frontier;
use crate::frontier::Frontier;
use crate::full_range;
use crate::full_range::GraphEntrySimple;
use crate::graph;
use crate::history;
use crate::history::Hist;
use crate::list_crdt;
use crate::list_crdt::ListCRDT;
use crate::names;
use crate::observed_history;
use crate::operation;
use crate::operation::{EvOp, TextOperation};
use crate::oplog;
use crate::oplog::ListOpLog;
use crate::patches;
use crate::range::DTRange;
use crate::relative_to_absolute;
use crate::remote_ids::RemoteVersion;
use crate::remote_ops;
use crate::remote_ops::{parse_remote_ids, RemoteOp, VersionNotFound};
use crate::segments::HUGE;
use crate::sorting;
use crate::text::cp_len;
use crate::text_buffer;
use crate::travel;
use crate::xf_absolute;
use crate::xf_runs;
use vstd::prelude::*;

verus! {

// ---- logs ----

/// What all operations do.
pub fn get_ops(oplog: &ListOpLog) -> (out: Vec<TextOperation>)
    requires
        oplog.inv(),
    ensures
        out@.len() == oplog.operations.runs().len(),
        forall|i: int|
            0 <= i < out@.len() ==> (#[trigger] out@[i])@ == oplog.operations.runs()[i].1,
        oplog::events_of(oplog::ops_view(out@)) == oplog.hist().ops,
{
    oplog.iter_ops()
}

/// What the operations do that a version has not seen.
pub fn get_ops_since(oplog: &ListOpLog, version: &[LV]) -> (out: Vec<TextOperation>)
    requires
        oplog.inv(),
        graph::known(oplog.cg.parents(), version@),
    ensures
        oplog::ops_view(out@) == braid::ranges_ops(
            *oplog,
            graph::ranges_below(
                oplog.size(),
                |v: int| !graph::in_cone(oplog.cg.parents(), version@, v),
            ),
        ),
        oplog::events_of(oplog::ops_view(out@)) == braid::what_they_do(
            events::events_chosen(
                oplog.hist(),
                oplog.size(),
                |v: int| !graph::in_cone(oplog.cg.parents(), version@, v),
            ),
        ),
{
    oplog.iter_range_since(version)
}

/// What the events follow.
pub fn get_history(oplog: &ListOpLog) -> (out: Vec<GraphEntrySimple>)
    requires
        oplog.inv(),
    ensures
        out@.len() == oplog.cg.graph.entries.runs().len(),
        forall|i: int| 0 <= i < out@.len() ==> oplog.is_entry(i, #[trigger] out@[i]),
{
    oplog.iter_history()
}

/// Whether names are those of the given events.
pub open spec fn are_names(oplog: ListOpLog, out: Seq<RemoteVersion>, version: Seq<usize>) -> bool {
    &&& out.len() == version.len()
    &&& forall|i: int|
        0 <= i < out.len() ==> (#[trigger] out[i])@ == oplog.hist().ids[version[i] as int]
}

/// The names of the newest events of a version.
pub fn local_to_remote_version<'a>(oplog: &'a ListOpLog, local_version: &[LV]) -> (out: Vec<
    RemoteVersion<'a>,
>)
    requires
        oplog.inv(),
        graph::known(oplog.cg.parents(), local_version@),
    ensures
        are_names(*oplog, out@, local_version@),
{
    proof {
        oplog.lemma_hist();
        assert forall|i: int| 0 <= i < local_version@.len() implies (#[trigger] local_version@[i])
            < oplog.size() by {}
    }
    oplog.cg.agent_assignment.local_to_remote_frontier(local_version)
}

/// The names of the newest events.
pub fn oplog_version_to_remote_version(oplog: &ListOpLog) -> (out: Vec<RemoteVersion<'_>>)
    requires
        oplog.inv(),
    ensures
        are_names(*oplog, out@, oplog.cg.version@),
{
    oplog.remote_frontier()
}

/// All events as bytes.
pub fn to_bytes(oplog: &ListOpLog) -> (out: Vec<u8>)
    requires
        oplog.inv(),
    ensures
        out@ == encoding::encoded(
            events::events_between(oplog.hist(), 0, oplog.size()),
            EncodeOptions::Full,
        ),
{
    oplog.encode(&ENCODE_FULL)
}

/// What a version has not seen, as bytes.
pub fn get_patch_since(oplog: &ListOpLog, from_version: &[LV]) -> (out: Vec<u8>)
    requires
        oplog.inv(),
        graph::known(oplog.cg.parents(), from_version@),
    ensures
        out@ == encoding::encoded(
            events::events_chosen(
                oplog.hist(),
                oplog.size(),
                |v: int| !graph::in_cone(oplog.cg.parents(), from_version@, v),
            ),
            EncodeOptions::Patch,
        ),
{
    oplog.encode_from(&ENCODE_PATCH, from_version)
}

/// Takes up the events that bytes tell of.
pub fn decode_and_add(oplog: &mut ListOpLog, bytes: &[u8]) -> (out: Result<Frontier, ParseError>)
    requires
        old(oplog).inv(),
    ensures
        final(oplog).inv(),
        final(oplog).keeps_agents(*old(oplog)),
        match decoding::decoded(
            old(oplog).hist(),
            old(oplog).names(),
            bytes@,
        ) {
            Ok(h) => {
                &&& final(oplog).hist() == h
                &&& decoding::taken(*old(oplog), *final(oplog), bytes@)
                &&& out matches Ok(front) && decoding::newest_told(*final(oplog), bytes@, front@)
            },
            Err(e) => out == Err::<Frontier, ParseError>(e) && *final(oplog) == *old(oplog),
        },
{
    oplog.decode_and_add(bytes)
}

/// The events that texts name, in ascending order. With `tolerant`, those that are not
/// known are left out.
pub fn remote_to_local_version(oplog: &ListOpLog, ids: &[String], tolerant: bool) -> (out: Result<
    Vec<LV>,
    VersionNotFound,
>)
    requires
        oplog.inv(),
    ensures
        named(*oplog, sorting::texts_of(ids@), tolerant, out),
{
    parse_remote_ids(oplog, ids, tolerant)
}

/// Whether `out` is what naming events by texts comes to.
pub open spec fn named(
    oplog: ListOpLog,
    texts: Seq<Seq<char>>,
    tolerant: bool,
    out: Result<Vec<LV>, VersionNotFound>,
) -> bool {
    match out {
        Ok(list) => {
            &&& tolerant || remote_ops::all_named(oplog.hist(), texts)
            &&& remote_ops::lists_named(oplog.hist(), texts, list@)
        },
        Err(e) => !tolerant && remote_ops::first_unnamed(oplog.hist(), texts, e.0@),
    }
}

/// Whether `out` is the updates since a version that is given by names.
pub open spec fn updated(
    oplog: ListOpLog,
    texts: Seq<Seq<char>>,
    out: Result<Vec<BraidUpdate>, VersionNotFound>,
) -> bool {
    match out {
        Ok(list) => {
            &&& remote_ops::all_named(oplog.hist(), texts)
            &&& braid::all_say(
                oplog.hist(),
                list@,
                observed_history::updates_from(
                    oplog,
                    remote_ops::named_list(oplog.hist(), texts),
                ),
            )
        },
        Err(e) => remote_ops::first_unnamed(oplog.hist(), texts, e.0@),
    }
}

/// Whether operations say what the transformed ones say that merge one version into
/// another.
pub open spec fn transformed(
    oplog: ListOpLog,
    from: Seq<usize>,
    to: Seq<usize>,
    out: Seq<XfOp>,
) -> bool {
    travel::say_runs(oplog.hist(), out, braid::applied(xf_runs::xf_runs(oplog, from, to)))
}

/// Whether runs are those of the authors' counts.
pub open spec fn seq_runs(oplog: ListOpLog, out: Seq<(String, usize, usize)>) -> bool {
    let aa = oplog.cg.agent_assignment;
    let runs = aa.client_with_lv.runs();
    &&& out.len() == runs.len()
    &&& forall|i: int|
        0 <= i < out.len() ==> {
            &&& (#[trigger] out[i]).0@ == aa.name_of(runs[i].1.agent as int)
            &&& out[i].1 == runs[i].1.seq_range.start
            &&& out[i].2 == runs[i].1.seq_range.size()
        }
}

/// Whether an agent, if there is one, is one of a log.
pub open spec fn agent_ok(oplog: ListOpLog, agent_id: Option<AgentId>) -> bool {
    agent_id matches Some(a) ==> a < oplog.cg.agent_assignment.agents()
}

/// Whether a name, if there is one, can be had.
pub open spec fn name_ok(name: Option<&str>) -> bool {
    name matches Some(s) ==> agent_assignment::name_fits(s@)
}

/// Whether an agent is the one with a name.
pub open spec fn agent_named(
    oplog: ListOpLog,
    agent_id: Option<AgentId>,
    name: Option<&str>,
) -> bool {
    match (agent_id, name) {
        (Some(a), Some(s)) => a < oplog.cg.agent_assignment.agents()
            && oplog.cg.agent_assignment.name_of(a as int) == s@,
        (None, None) => true,
        _ => false,
    }
}

/// The names of the agents that a name makes.
pub open spec fn own_names(name: Option<&str>) -> Seq<Seq<char>> {
    match name {
        Some(s) => seq![s@],
        None => Seq::empty(),
    }
}

/// How many agents a name makes.
pub open spec fn own_agents(name: Option<&str>) -> int {
    if name is Some {
        1
    } else {
        0
    }
}

/// The version that is given, or the newest one.
pub open spec fn given_or_tip(oplog: ListOpLog, given: Option<&[LV]>) -> Seq<usize> {
    match given {
        Some(v) => v@,
        None => oplog.cg.version@,
    }
}

// ---- a branch ----

/// The document at a version.
pub struct Branch(pub ListBranch);

impl Branch {
    pub fn new() -> (out: Branch)
        ensures
            out.0.version@ == Seq::<usize>::empty(),
            out.0.content@ == Seq::<char>::empty(),
            forall|log: ListOpLog| #[trigger] out.0.is_of(log),
    {
        Branch(ListBranch::new())
    }

    /// The document with all events of a log.
    pub fn all(oplog: &OpLog) -> (out: Branch)
        requires
            oplog.inner.inv(),
            history::playable(oplog.inner.hist()),
        ensures
            out.0.is_of(oplog.inner),
            out.0.version@ == oplog.inner.cg.version@,
            out.0.content@ == history::document(
                oplog.inner.hist(),
                Set::new(|v: int| 0 <= v < oplog.inner.size()),
            ),
    {
        Branch(oplog.inner.checkout_tip())
    }

    pub fn get(&self) -> (out: String)
        ensures
            out@ == self.0.content@,
    {
        self.0.content().to_string()
    }

    /// Merges a version of a log, or all of it.
    pub fn merge(&mut self, ops: &OpLog, branch: Option<&[LV]>)
        requires
            ops.inner.inv(),
            history::playable(ops.inner.hist()),
            old(self).0.is_of(ops.inner),
            graph::known(ops.inner.cg.parents(), given_or_tip(ops.inner, branch)),
        ensures
            final(self).0.is_of(ops.inner),
            graph::is_dominators(
                ops.inner.cg.parents(),
                old(self).0.version@ + given_or_tip(ops.inner, branch),
                final(self).0.version@,
            ),
            final(self).0.content@ == history::document(
                ops.inner.hist(),
                ops.inner.hist().version(old(self).0.version@).union(
                    ops.inner.hist().version(given_or_tip(ops.inner, branch)),
                ),
            ),
    {
        match branch {
            Some(version) => {
                self.0.merge(&ops.inner, version);
            },
            None => {
                self.0.merge(&ops.inner, ops.inner.local_frontier_ref());
            },
        }
    }

    pub fn get_local_frontier(&self) -> (out: Vec<LV>)
        ensures
            out@ == self.0.version@,
    {
        self.0.local_frontier().0
    }

    pub fn wchars_to_chars(&self, pos_wchars: usize) -> (out: usize)
        requires
            text_buffer::wide_len(self.0.content@) <= usize::MAX,
            exists|k: int|
                0 <= k <= self.0.content@.len() && #[trigger] text_buffer::wide_len(
                    self.0.content@.take(k),
                ) == pos_wchars,
        ensures
            out <= self.0.content@.len(),
            text_buffer::wide_len(self.0.content@.take(out as int)) == pos_wchars,
    {
        self.0.content().wchars_to_chars(pos_wchars)
    }

    pub fn chars_to_wchars(&self, pos_chars: usize) -> (out: usize)
        requires
            text_buffer::wide_len(self.0.content@) <= usize::MAX,
            pos_chars <= self.0.content@.len(),
        ensures
            out == text_buffer::wide_len(self.0.content@.take(pos_chars as int)),
    {
        self.0.content().chars_to_wchars(pos_chars)
    }
}

// ---- a log ----

/// A log, and the agent that edits.
pub struct OpLog {
    pub inner: ListOpLog,
    pub agent_id: Option<AgentId>,
}

/// An agent that joins leaves the events stored as they were.
proof fn lemma_joined(was: ListOpLog, now: ListOpLog)
    requires
        was.inv(),
        now.inv(),
        decoding::stored_alone(was),
        now.hist() == was.hist(),
        now.operations == was.operations,
        now.cg.graph == was.cg.graph,
        now.cg.agent_assignment.client_with_lv == was.cg.agent_assignment.client_with_lv,
    ensures
        decoding::stored_alone(now),
{
    let aa = was.cg.agent_assignment;
    let bb = now.cg.agent_assignment;
    let n = was.hist().len();
    assert(Seq::new(n, |k: int| decoding::one_id(bb.id_of(0 + k))) =~= Seq::new(
        n,
        |k: int| decoding::one_id(aa.id_of(0 + k)),
    ));
}

/// Whether there is a number for an agent that joins, if one does.
fn can_join(log: &ListOpLog, agent_name: Option<&str>) -> (out: bool)
    requires
        log.inv(),
    ensures
        out == (agent_name matches Some(name) ==> log.cg.agent_assignment.room_for(name@)),
{
    match agent_name {
        Some(name) => log.cg.agent_assignment.has_room_for(name),
        None => true,
    }
}

fn join_agent(log: &mut ListOpLog, agent_name: Option<&str>) -> (out: Option<AgentId>)
    requires
        old(log).inv(),
        name_ok(agent_name),
        agent_name matches Some(name) ==> old(log).cg.agent_assignment.room_for(name@),
    ensures
        final(log).inv(),
        match agent_name {
            Some(name) => old(log).joined(*final(log), name@),
            None => *final(log) == *old(log),
        },
        final(log).hist() == old(log).hist(),
        agent_named(*final(log), out, agent_name),
        final(log).keeps_agents(*old(log)),
        final(log).cg.version == old(log).cg.version,
        final(log).operations == old(log).operations,
        old(log).cg.agent_assignment.agents() == 0 ==> (out matches Some(a) ==> final(log).next_seq(a) == 0),
        final(log).cg.agent_assignment.agents() <= old(log).cg.agent_assignment.agents()
            + own_agents(agent_name),
{
    match agent_name {
        Some(name) => Some(log.get_or_create_agent_id(name)),
        None => None,
    }
}

/// The names of the agents that bytes tell of, and behind them that of one that joins.
pub open spec fn joined_names(bytes: Seq<u8>, agent_name: Option<&str>) -> Seq<Seq<char>> {
    match agent_name {
        Some(name) => names::with_name(decoding::agents_told(bytes), name@),
        None => decoding::agents_told(bytes),
    }
}

/// The history that bytes tell of, unless there is no number left for another agent that is
/// to join.
pub open spec fn opened(bytes: Seq<u8>, agent_name: Option<&str>) -> Result<Hist, ParseError> {
    match decoding::decoded(events::nothing(), Seq::empty(), bytes) {
        Ok(h) => if joined_names(bytes, agent_name).len() > AgentId::MAX {
            Err(ParseError::TooLarge)
        } else {
            Ok(h)
        },
        Err(e) => Err(e),
    }
}

/// Whether a log holds what bytes tell of and nothing else: events stored one by one, and
/// behind the agents that the bytes name the one that joined.
pub open spec fn opened_as(log: ListOpLog, bytes: Seq<u8>, agent_name: Option<&str>) -> bool {
    &&& decoding::stored_alone(log)
    &&& log.names() == joined_names(bytes, agent_name)
}

impl OpLog {
    pub open spec fn inv(&self) -> bool {
        self.inner.inv() && agent_ok(self.inner, self.agent_id)
    }

    pub fn new(agent_name: Option<&str>) -> (out: OpLog)
        requires
            name_ok(agent_name),
        ensures
            out.inv(),
            out.inner.hist() == events::nothing(),
            agent_named(out.inner, out.agent_id, agent_name),
            out.inner.cg.agent_assignment.agents() == own_agents(agent_name),
            out.agent_id matches Some(a) ==> out.inner.next_seq(a) == 0,
            out.inner.names() == own_names(agent_name),
            out.inner.cg.version@ == Seq::<usize>::empty(),
            out.inner.operations.runs().len() == 0,
    {
        let mut inner = ListOpLog::new();
        let agent_id = join_agent(&mut inner, agent_name);
        assert(inner.names() =~= own_names(agent_name));
        OpLog { inner, agent_id }
    }

    /// Lets another agent edit.
    pub fn set_agent(&mut self, agent: &str)
        requires
            old(self).inv(),
            agent_assignment::name_fits(agent@),
            old(self).inner.cg.agent_assignment.room_for(agent@),
        ensures
            final(self).inv(),
            final(self).inner.hist() == old(self).inner.hist(),
            agent_named(final(self).inner, final(self).agent_id, Some(agent)),
            final(self).inner.keeps_agents(old(self).inner),
            old(self).inner.joined(final(self).inner, agent@),
    {
        let id = self.inner.get_or_create_agent_id(agent);
        self.agent_id = Some(id);
    }

    /// A copy, in which the agent of the same name edits.
    pub fn js_clone(&self) -> (out: OpLog)
        requires
            self.inv(),
        ensures
            out.inv(),
            out.inner.hist() == self.inner.hist(),
            out.inner.cg.version@ == self.inner.cg.version@,
            out.inner.cg.agent_assignment.same(self.inner.cg.agent_assignment),
            out.inner.cg.graph.entries.runs() == self.inner.cg.graph.entries.runs(),
            out.inner.operations.runs() == self.inner.operations.runs(),
            out.agent_id is Some == self.agent_id is Some,
            out.agent_id matches Some(a) ==> out.inner.cg.agent_assignment.name_of(a as int)
                == self.inner.cg.agent_assignment.name_of(self.agent_id->0 as int),
    {
        let inner = self.inner.copied();
        let agent_id = match self.agent_id {
            Some(id) => {
                let ghost aa = inner.cg.agent_assignment;
                assert(aa.name_of(id as int) == self.inner.cg.agent_assignment.name_of(id as int));
                let name = self.inner.get_agent_name(id);
                inner.cg.agent_assignment.get_agent_id(name)
            },
            None => None,
        };
        OpLog { inner, agent_id }
    }

    /// Adds an insert to the document at `parents_in`, or at the newest version.
    pub fn add_insert(&mut self, pos: usize, content: &str, parents_in: Option<&[LV]>) -> (out: LV)
        requires
            old(self).inv(),
            old(self).agent_id is Some,
            graph::known(
                old(self).inner.cg.parents(),
                given_or_tip(old(self).inner, parents_in),
            ),
            content@.len() > 0,
            pos + content@.len() <= usize::MAX,
            old(self).inner.size() + content@.len() <= usize::MAX,
            old(self).inner.next_seq(old(self).agent_id->0) + content@.len() <= usize::MAX,
        ensures
            final(self).inv(),
            final(self).agent_id == old(self).agent_id,
            final(self).inner.same_agents(old(self).inner),
            out == final(self).inner.size() - 1,
            final(self).inner.hist() == oplog::extended(
                old(self).inner.hist(),
                given_or_tip(old(self).inner, parents_in),
                old(self).inner.cg.agent_assignment.name_of(old(self).agent_id->0 as int),
                old(self).inner.next_seq(old(self).agent_id->0),
                oplog::typed(pos as int, content@),
            ),
            old(self).inner.stored(
                final(self).inner,
                given_or_tip(old(self).inner, parents_in),
                old(self).agent_id->0,
                operation::insert_abs(pos as int, content@),
            ),
    {
        let agent = self.agent_id.unwrap();
        match parents_in {
            Some(parents) => self.inner.add_insert_at(agent, parents, pos, content),
            None => {
                let parents = self.inner.local_frontier();
                self.inner.add_insert_at(agent, parents.as_ref(), pos, content)
            },
        }
    }

    /// Adds a delete to the document at `parents_in`, or at the newest version.
    pub fn add_delete(&mut self, pos: usize, len: usize, parents_in: Option<&[LV]>) -> (out: LV)
        requires
            old(self).inv(),
            old(self).agent_id is Some,
            graph::known(
                old(self).inner.cg.parents(),
                given_or_tip(old(self).inner, parents_in),
            ),
            len > 0,
            pos + len <= usize::MAX,
            old(self).inner.size() + len <= usize::MAX,
            old(self).inner.next_seq(old(self).agent_id->0) + len <= usize::MAX,
        ensures
            final(self).inv(),
            final(self).agent_id == old(self).agent_id,
            final(self).inner.same_agents(old(self).inner),
            out == final(self).inner.size() - 1,
            final(self).inner.hist() == oplog::extended(
                old(self).inner.hist(),
                given_or_tip(old(self).inner, parents_in),
                old(self).inner.cg.agent_assignment.name_of(old(self).agent_id->0 as int),
                old(self).inner.next_seq(old(self).agent_id->0),
                Seq::new(len as nat, |k: int| EvOp::Del { pos: pos as int }),
            ),
            old(self).inner.stored(
                final(self).inner,
                given_or_tip(old(self).inner, parents_in),
                old(self).agent_id->0,
                operation::delete_abs((DTRange { start: pos, end: (pos + len) as usize })),
            ),
    {
        let agent = self.agent_id.unwrap();
        let span = DTRange { start: pos, end: pos + len };
        match parents_in {
            Some(parents) => self.inner.add_delete_at(agent, parents, span),
            None => {
                let parents = self.inner.local_frontier();
                self.inner.add_delete_at(agent, parents.as_ref(), span)
            },
        }
    }

    /// The document with all events.
    pub fn checkout(&self) -> (out: Branch)
        requires
            self.inv(),
            history::playable(self.inner.hist()),
        ensures
            out.0.is_of(self.inner),
            out.0.version@ == self.inner.cg.version@,
            out.0.content@ == history::document(
                self.inner.hist(),
                Set::new(|v: int| 0 <= v < self.inner.size()),
            ),
    {
        Branch::all(self)
    }

    pub fn get_ops(&self) -> (out: Vec<TextOperation>)
        requires
            self.inv(),
        ensures
            out@.len() == self.inner.operations.runs().len(),
            forall|i: int|
                0 <= i < out@.len() ==> (#[trigger] out@[i])@ == self.inner.operations.runs()[i].1,
            oplog::events_of(oplog::ops_view(out@)) == self.inner.hist().ops,
    {
        get_ops(&self.inner)
    }

    pub fn get_ops_since(&self, frontier: &[LV]) -> (out: Vec<TextOperation>)
        requires
            self.inv(),
            graph::known(self.inner.cg.parents(), frontier@),
        ensures
            oplog::ops_view(out@) == braid::ranges_ops(
                self.inner,
                graph::ranges_below(
                    self.inner.size(),
                    |v: int| !graph::in_cone(self.inner.cg.parents(), frontier@, v),
                ),
            ),
            oplog::events_of(oplog::ops_view(out@)) == braid::what_they_do(
                events::events_chosen(
                    self.inner.hist(),
                    self.inner.size(),
                    |v: int| !graph::in_cone(self.inner.cg.parents(), frontier@, v),
                ),
            ),
    {
        get_ops_since(&self.inner, frontier)
    }

    pub fn get_history(&self) -> (out: Vec<GraphEntrySimple>)
        requires
            self.inv(),
        ensures
            out@.len() == self.inner.cg.graph.entries.runs().len(),
            forall|i: int| 0 <= i < out@.len() ==> self.inner.is_entry(i, #[trigger] out@[i]),
    {
        get_history(&self.inner)
    }

    pub fn get_local_frontier(&self) -> (out: Vec<LV>)
        ensures
            out@ == self.inner.cg.version@,
    {
        self.inner.local_frontier().0
    }

    pub fn local_to_remote_version(&self, version: &[LV]) -> (out: Vec<RemoteVersion<'_>>)
        requires
            self.inv(),
            graph::known(self.inner.cg.parents(), version@),
        ensures
            are_names(self.inner, out@, version@),
    {
        local_to_remote_version(&self.inner, version)
    }

    /// The events that texts name. Unless told otherwise, all of them are to be known.
    pub fn remote_to_local_version_js(&self, ids: &[String], tolerant: Option<bool>) -> (out: Result<
        Vec<LV>,
        VersionNotFound,
    >)
        requires
            self.inv(),
        ensures
            named(self.inner, sorting::texts_of(ids@), tolerant == Some(true), out),
    {
        let tolerant = match tolerant {
            Some(t) => t,
            None => false,
        };
        remote_to_local_version(&self.inner, ids, tolerant)
    }

    pub fn get_agent_seq_runs(&self) -> (out: Vec<(String, usize, usize)>)
        requires
            self.inv(),
        ensures
            seq_runs(self.inner, out@),
    {
        braid::agent_seq_runs(&self.inner)
    }

    /// The updates since a version that is given by the names of its newest events.
    pub fn get_updates_js(&self, since: Option<&[String]>) -> (out: Result<
        Vec<BraidUpdate>,
        VersionNotFound,
    >)
        requires
            self.inv(),
        ensures
            updated(self.inner, braid::since_texts(since), out),
    {
        braid::get_updates(&self.inner, since)
    }

    pub fn get_remote_version(&self) -> (out: Vec<RemoteVersion<'_>>)
        requires
            self.inv(),
        ensures
            are_names(self.inner, out@, self.inner.cg.version@),
    {
        oplog_version_to_remote_version(&self.inner)
    }

    pub fn to_bytes(&self) -> (out: Vec<u8>)
        requires
            self.inv(),
        ensures
            out@ == encoding::encoded(
                events::events_between(self.inner.hist(), 0, self.inner.size()),
                EncodeOptions::Full,
            ),
    {
        to_bytes(&self.inner)
    }

    pub fn get_patch_since(&self, from_version: &[LV]) -> (out: Vec<u8>)
        requires
            self.inv(),
            graph::known(self.inner.cg.parents(), from_version@),
        ensures
            out@ == encoding::encoded(
                events::events_chosen(
                    self.inner.hist(),
                    self.inner.size(),
                    |v: int| !graph::in_cone(self.inner.cg.parents(), from_version@, v),
                ),
                EncodeOptions::Patch,
            ),
    {
        get_patch_since(&self.inner, from_version)
    }

    pub fn merge_versions(&self, a: &[LV], b: &[LV]) -> (out: Vec<LV>)
        requires
            self.inv(),
            graph::known(self.inner.cg.parents(), a@),
            graph::known(self.inner.cg.parents(), b@),
        ensures
            graph::is_dominators(self.inner.cg.parents(), a@ + b@, out@),
    {
        braid::merge_versions(&self.inner, a, b)
    }

    /// The log that bytes tell of, in which the agent of the given name edits.
    pub fn from_bytes(bytes: &[u8], agent_name: Option<&str>) -> (out: Result<OpLog, ParseError>)
        requires
            name_ok(agent_name),
        ensures
            match opened(bytes@, agent_name) {
                Ok(h) => out matches Ok(log) && {
                    &&& log.inv()
                    &&& log.inner.hist() == h
                    &&& opened_as(log.inner, bytes@, agent_name)
                    &&& agent_named(log.inner, log.agent_id, agent_name)
                },
                Err(e) => out matches Err(x) && x == e,
            },
    {
        match ListOpLog::load_from(bytes) {
            Ok(log) => {
                let mut inner = log;
                let ghost was = inner;
                if !can_join(&inner, agent_name) {
                    return Err(ParseError::TooLarge);
                }
                let agent_id = join_agent(&mut inner, agent_name);
                proof {
                    lemma_joined(was, inner);
                }
                Ok(OpLog { inner, agent_id })
            },
            Err(e) => Err(e),
        }
    }

    /// Takes up the events that bytes tell of and that are missing.
    pub fn add_from_bytes(&mut self, bytes: &[u8]) -> (out: Result<Frontier, ParseError>)
        requires
            old(self).inv(),
        ensures
            final(self).inv(),
            final(self).agent_id == old(self).agent_id,
            final(self).inner.keeps_agents(old(self).inner),
            match decoding::decoded(
                old(self).inner.hist(),
                old(self).inner.names(),
                bytes@,
            ) {
                Ok(h) => {
                    &&& final(self).inner.hist() == h
                    &&& decoding::taken(old(self).inner, final(self).inner, bytes@)
                    &&& out matches Ok(front) && decoding::newest_told(
                        final(self).inner,
                        bytes@,
                        front@,
                    )
                },
                Err(e) => out == Err::<Frontier, ParseError>(e) && final(self).inner
                    == old(self).inner,
            },
    {
        decode_and_add(&mut self.inner, bytes)
    }

    /// All transformed operations.
    pub fn get_xf(&self) -> (out: Vec<XfOp>)
        requires
            self.inv(),
            history::playable(self.inner.hist()),
        ensures
            transformed(self.inner, Seq::empty(), self.inner.cg.version@, out@),
            travel::leads(
                self.inner.hist(),
                self.inner.hist().version(Seq::empty()),
                Set::new(|v: int| 0 <= v < self.inner.size()),
                out@,
            ),
    {
        let root: Vec<LV> = Vec::new();
        assert(root@ =~= Seq::<usize>::empty());
        braid::xf_since(&self.inner, root.as_slice())
    }

    pub fn get_xf_since(&self, from_version: &[LV]) -> (out: Vec<XfOp>)
        requires
            self.inv(),
            history::playable(self.inner.hist()),
            graph::known(self.inner.cg.parents(), from_version@),
        ensures
            transformed(self.inner, from_version@, self.inner.cg.version@, out@),
            travel::leads(
                self.inner.hist(),
                self.inner.hist().version(from_version@),
                Set::new(|v: int| 0 <= v < self.inner.size()),
                out@,
            ),
    {
        braid::xf_since(&self.inner, from_version)
    }
}

// ---- a document ----

/// A log with the document at one of its versions, and the agent that edits.
pub struct Doc {
    pub inner: ListCRDT,
    pub agent_id: Option<AgentId>,
}

impl Doc {
    pub open spec fn inv(&self) -> bool {
        self.inner.inv() && agent_ok(self.inner.oplog, self.agent_id)
    }

    /// What the document reads.
    pub open spec fn text(&self) -> Seq<char> {
        self.inner.branch.content@
    }

    /// Whether the document has all events, and stands at the newest version.
    pub open spec fn at_tip(&self) -> bool {
        self.inner.at_tip()
    }

    pub fn new(agent_name: Option<&str>) -> (out: Doc)
        requires
            name_ok(agent_name),
        ensures
            out.inv(),
            out.inner.oplog.hist() == events::nothing(),
            out.text() == Seq::<char>::empty(),
            agent_named(out.inner.oplog, out.agent_id, agent_name),
            out.inner.oplog.cg.agent_assignment.agents() == own_agents(agent_name),
            out.inner.oplog.names() == own_names(agent_name),
            out.agent_id matches Some(a) ==> out.inner.oplog.next_seq(a) == 0,
            out.inner.branch.version@ == Seq::<usize>::empty(),
    {
        let mut inner = ListCRDT::new();
        let agent_id = match agent_name {
            Some(name) => Some(inner.get_or_create_agent_id(name)),
            None => None,
        };
        assert(inner.oplog.names() =~= own_names(agent_name));
        Doc { inner, agent_id }
    }

    /// Types a text.
    pub fn ins(&mut self, pos: usize, content: &str)
        requires
            old(self).inv(),
            old(self).agent_id is Some,
            pos <= old(self).text().len(),
            old(self).inner.oplog.size() + content@.len() <= usize::MAX,
            old(self).inner.oplog.next_seq(old(self).agent_id->0) + content@.len() <= usize::MAX,
        ensures
            final(self).inv(),
            final(self).agent_id == old(self).agent_id,
            final(self).inner.oplog.same_agents(old(self).inner.oplog),
            content@.len() == 0 ==> *final(self) == *old(self),
            final(self).text() == old(self).text().subrange(0, pos as int) + content@
                + old(self).text().subrange(pos as int, old(self).text().len() as int),
            content@.len() > 0 ==> {
                &&& final(self).inner.branch.version@ == seq![
                    (final(self).inner.oplog.size() - 1) as usize,
                ]
                &&& final(self).inner.oplog.hist() == oplog::extended(
                    old(self).inner.oplog.hist(),
                    old(self).inner.branch.version@,
                    old(self).inner.oplog.cg.agent_assignment.name_of(
                        old(self).agent_id->0 as int,
                    ),
                    old(self).inner.oplog.next_seq(old(self).agent_id->0),
                    oplog::typed(pos as int, content@),
                )
                &&& old(self).inner.oplog.stored(
                    final(self).inner.oplog,
                    old(self).inner.branch.version@,
                    old(self).agent_id->0,
                    operation::insert_abs(pos as int, content@),
                )
            },
    {
        if cp_len(content) == 0 {
            assert(self.text() =~= self.text().subrange(0, pos as int) + content@
                + self.text().subrange(pos as int, self.text().len() as int));
            return ;
        }
        let _lv = self.inner.insert(self.agent_id.unwrap(), pos, content);
    }

    /// Deletes `del_span` characters.
    pub fn del(&mut self, pos: usize, del_span: usize)
        requires
            old(self).inv(),
            old(self).agent_id is Some,
            pos + del_span <= old(self).text().len(),
            old(self).inner.oplog.size() + del_span <= usize::MAX,
            old(self).inner.oplog.next_seq(old(self).agent_id->0) + del_span <= usize::MAX,
        ensures
            final(self).inv(),
            final(self).agent_id == old(self).agent_id,
            final(self).inner.oplog.same_agents(old(self).inner.oplog),
            del_span == 0 ==> *final(self) == *old(self),
            final(self).text() == old(self).text().subrange(0, pos as int)
                + old(self).text().subrange(pos + del_span, old(self).text().len() as int),
            del_span > 0 ==> {
                &&& final(self).inner.branch.version@ == seq![
                    (final(self).inner.oplog.size() - 1) as usize,
                ]
                &&& final(self).inner.oplog.hist() == oplog::extended(
                    old(self).inner.oplog.hist(),
                    old(self).inner.branch.version@,
                    old(self).inner.oplog.cg.agent_assignment.name_of(
                        old(self).agent_id->0 as int,
                    ),
                    old(self).inner.oplog.next_seq(old(self).agent_id->0),
                    Seq::new(del_span as nat, |k: int| EvOp::Del { pos: pos as int }),
                )
                &&& old(self).inner.oplog.stored(
                    final(self).inner.oplog,
                    old(self).inner.branch.version@,
                    old(self).agent_id->0,
                    operation::delete_abs((DTRange { start: pos, end: (pos + del_span) as usize })),
                )
            },
    {
        if del_span == 0 {
            assert(self.text() =~= self.text().subrange(0, pos as int) + self.text().subrange(
                pos + del_span,
                self.text().len() as int,
            ));
            return ;
        }
        // The length is that of a list, so that the end of the span can be counted.
        let _len = self.inner.len();
        let _lv = self.inner.delete(
            self.agent_id.unwrap(),
            DTRange { start: pos, end: pos + del_span },
        );
    }

    pub fn len(&self) -> (out: usize)
        ensures
            out == self.text().len(),
    {
        self.inner.branch.len()
    }

    pub fn is_empty(&self) -> (out: bool)
        ensures
            out == (self.text().len() == 0),
    {
        self.inner.branch.is_empty()
    }

    pub fn get(&self) -> (out: String)
        ensures
            out@ == self.text(),
    {
        self.inner.branch.content().to_string()
    }

    /// What the document read at a version.
    pub fn get_string_at(&self, version: &[LV]) -> (out: String)
        requires
            self.inv(),
            graph::known(self.inner.oplog.cg.parents(), version@),
        ensures
            out@ == history::document(
                self.inner.oplog.hist(),
                self.inner.oplog.hist().version(version@),
            ),
    {
        self.inner.oplog.checkout(version).content().to_string()
    }

    /// How long the document was at a version.
    pub fn len_at(&self, version: &[LV]) -> (out: usize)
        requires
            self.inv(),
            graph::known(self.inner.oplog.cg.parents(), version@),
        ensures
            out == history::document(
                self.inner.oplog.hist(),
                self.inner.oplog.hist().version(version@),
            ).len(),
    {
        self.inner.oplog.len_at(version)
    }

    /// How much longer the document is with all events than it was at a version.
    pub fn len_since(&self, version: &[LV]) -> (out: isize)
        requires
            self.inv(),
            self.inner.oplog.size() <= isize::MAX,
            graph::known(self.inner.oplog.cg.parents(), version@),
        ensures
            out == history::document(
                self.inner.oplog.hist(),
                Set::new(|v: int| 0 <= v < self.inner.oplog.size()),
            ).len() - history::document(
                self.inner.oplog.hist(),
                self.inner.oplog.hist().version(version@),
            ).len(),
    {
        proof {
            let h = self.inner.oplog.hist();
            self.inner.oplog.lemma_hist();
            crate::branch::law_tip(self.inner.oplog);
            let all = Set::new(|v: int| 0 <= v < self.inner.oplog.size());
            assert(h.version(version@).union(all) =~= all) by {
                assert forall|v: int| #[trigger] h.version(version@).contains(
                    v,
                ) implies all.contains(v) by {
                    graph::lemma_cone_order(h.parents, version@, v);
                }
            }
        }
        self.inner.oplog.len_delta(version, self.inner.oplog.cg.version.as_ref())
    }

    /// The updates for the local versions `lo..hi`.
    pub fn get_updates_in_span(&self, lo: usize, hi: usize) -> (out: Vec<BraidUpdate>)
        requires
            self.inv(),
            lo <= hi <= self.inner.oplog.size(),
        ensures
            braid::all_say(
                self.inner.oplog.hist(),
                out@,
                observed_history::flushed(
                    observed_history::gather(
                        Seq::empty(),
                        full_range::pieces(self.inner.oplog, lo as int, hi as int),
                    ),
                ),
            ),
    {
        let updates = self.inner.oplog.updates_in_span(DTRange { start: lo, end: hi });
        braid::to_updates(&updates, &self.inner.oplog)
    }

    /// How many events there are.
    pub fn num_local_versions(&self) -> (out: usize)
        requires
            self.inv(),
        ensures
            out == self.inner.oplog.size(),
    {
        self.inner.oplog.cg.len()
    }

    /// The first and the last count of the run of an agent's events that is known and
    /// overlaps `lo..=hi`; none if none of these is known.
    pub fn known_seq_span_js(&self, agent: &str, lo: usize, hi: usize) -> (out: Option<
        (usize, usize),
    >)
        requires
            self.inv(),
            hi < usize::MAX,
        ensures
            ({
                let aa = self.inner.oplog.cg.agent_assignment;
                let asked = DTRange { start: lo, end: (hi + 1) as usize };
                match out {
                    Some((first, last)) => first <= last < usize::MAX && exists|a: int|
                        0 <= a < aa.agents() && #[trigger] aa.name_of(a) == agent@
                            && aa.is_known_span(
                            a,
                            asked,
                            DTRange { start: first, end: (last + 1) as usize },
                        ),
                    None => forall|a: int, seq: int|
                        0 <= a < aa.agents() && aa.name_of(a) == agent@ && lo <= seq <= hi
                            ==> !#[trigger] aa.knows(a, seq),
                }
            }),
            lo > hi ==> out is None,
    {
        let aa = &self.inner.oplog.cg.agent_assignment;
        let asked = DTRange { start: lo, end: hi + 1 };
        match aa.get_agent_id(agent) {
            None => None,
            Some(id) => {
                proof {
                    assert forall|a: int|
                        0 <= a < aa.agents() && #[trigger] aa.name_of(a) == agent@ implies a
                        == id by {
                        assert(aa.agent_ids@[aa.name_of(a)] == a);
                        assert(aa.agent_ids@[aa.name_of(id as int)] == id);
                    }
                }
                match aa.known_seq_span(id, asked) {
                    Some(span) => {
                        assert(aa.name_of(id as int) == agent@);
                        assert(DTRange {
                            start: span.start,
                            end: (span.end - 1 + 1) as usize,
                        } == span);
                        Some((span.start, span.end - 1))
                    },
                    None => {
                        assert forall|a: int, seq: int|
                            0 <= a < aa.agents() && aa.name_of(a) == agent@ && lo <= seq
                                <= hi implies !#[trigger] aa.knows(a, seq) by {
                            assert(aa.name_of(a) == agent@);
                            assert(asked.has(seq));
                        }
                        None
                    },
                }
            },
        }
    }

    /// Takes up an edit of a peer, and brings the document up to date with it.
    pub fn apply_remote_op_js(&mut self, op: &RemoteOp) -> (out: Result<
        (usize, usize),
        VersionNotFound,
    >)
        requires
            old(self).inv(),
            remote_ops::has_room(old(self).inner.oplog, *op),
            remote_ops::recordable(old(self).inner.oplog.hist(), *op) ==> history::playable(
                remote_ops::recorded(old(self).inner.oplog.hist(), *op),
            ),
        ensures
            final(self).inv(),
            final(self).agent_id == old(self).agent_id,
            final(self).inner.oplog.keeps_agents(old(self).inner.oplog),
            match out {
                Ok((start, end)) => {
                    &&& remote_ops::recordable(old(self).inner.oplog.hist(), *op)
                    &&& start == old(self).inner.oplog.size()
                    &&& end == final(self).inner.oplog.size()
                    &&& final(self).inner.oplog.hist() == remote_ops::recorded(
                        old(self).inner.oplog.hist(),
                        *op,
                    )
                    &&& remote_ops::stored(old(self).inner.oplog, final(self).inner.oplog, *op)
                    &&& final(self).at_tip()
                },
                Err(e) => {
                    &&& final(self).inner == old(self).inner
                    &&& remote_ops::first_unnamed(
                        old(self).inner.oplog.hist(),
                        sorting::texts_of(op.parents@),
                        e.0@,
                    )
                },
            },
    {
        match self.inner.apply_remote_op(op) {
            Ok(range) => Ok((range.start, range.end)),
            Err(e) => Err(e),
        }
    }

    /// Takes up edits of peers, and brings the document up to date once at the end.
    pub fn apply_remote_ops_js(&mut self, ops: &[RemoteOp]) -> (out: Result<(), VersionNotFound>)
        requires
            old(self).inv(),
            list_crdt::room_for_all(old(self).inner.oplog, ops@),
            forall|k: int|
                0 <= k <= ops@.len() && list_crdt::recordable_all(
                    old(self).inner.oplog.hist(),
                    #[trigger] ops@.take(k),
                ) ==> history::playable(
                    list_crdt::recorded_all(old(self).inner.oplog.hist(), ops@.take(k)),
                ),
        ensures
            final(self).inv(),
            final(self).agent_id == old(self).agent_id,
            final(self).inner.oplog.keeps_agents(old(self).inner.oplog),
            match out {
                Ok(()) => {
                    &&& list_crdt::recordable_all(old(self).inner.oplog.hist(), ops@)
                    &&& final(self).inner.oplog.hist() == list_crdt::recorded_all(
                        old(self).inner.oplog.hist(),
                        ops@,
                    )
                    &&& list_crdt::stored_all(
                        old(self).inner.oplog,
                        final(self).inner.oplog,
                        ops@,
                    )
                    &&& final(self).at_tip()
                },
                Err(e) => {
                    &&& final(self).inner.branch == old(self).inner.branch
                    &&& exists|k: int|
                        0 <= k < ops@.len() && list_crdt::recordable_all(
                            old(self).inner.oplog.hist(),
                            #[trigger] ops@.take(k),
                        ) && final(self).inner.oplog.hist() == list_crdt::recorded_all(
                            old(self).inner.oplog.hist(),
                            ops@.take(k),
                        ) && list_crdt::stored_all(
                            old(self).inner.oplog,
                            final(self).inner.oplog,
                            ops@.take(k),
                        ) && remote_ops::first_unnamed(
                            final(self).inner.oplog.hist(),
                            sorting::texts_of(ops@[k].parents@),
                            e.0@,
                        )
                },
            },
    {
        self.inner.apply_remote_ops(ops)
    }

    /// The transformed changes since a version, as patches of the text at that version.
    pub fn get_xf_patches_js(&self, since: &[LV]) -> (out: Vec<RangePatch>)
        requires
            self.inv(),
            self.inner.oplog.size() < HUGE,
            graph::known(self.inner.oplog.cg.parents(), since@),
        ensures
            braid::are_patches(
                out@,
                patches::absolute(
                    xf_absolute::run_patches(
                        xf_runs::xf_runs(
                            self.inner.oplog,
                            since@,
                            self.inner.oplog.cg.version@,
                        ),
                    ),
                ),
            ),
    {
        braid::get_xf_patches(&self.inner.oplog, since)
    }

    /// What a version had seen, as bytes.
    pub fn to_bytes_at(&self, version: &[LV]) -> (out: Vec<u8>)
        requires
            self.inv(),
            graph::known(self.inner.oplog.cg.parents(), version@),
        ensures
            out@ == encoding::encoded(
                events::events_chosen(
                    self.inner.oplog.hist(),
                    self.inner.oplog.size(),
                    |v: int| graph::in_cone(self.inner.oplog.cg.parents(), version@, v),
                ),
                EncodeOptions::Full,
            ),
    {
        self.inner.oplog.encode_at(version, &ENCODE_FULL)
    }

    /// Converts replacements that are each to be made on top of the ones before it to
    /// such that all refer to the text before any of them.
    pub fn relative_to_absolute_patches_js(list: &[TextPatch]) -> (out: Result<
        Vec<RangePatch>,
        BadRange,
    >)
        requires
            braid::numbers_fit(list@),
            braid::stated(list@, list@.len() as int) ==> relative_to_absolute::convertible(
                braid::given(list@),
            ),
        ensures
            match out {
                Ok(res) => {
                    &&& braid::stated(list@, list@.len() as int)
                    &&& braid::are_patches(res@, patches::absolute(braid::given(list@)))
                },
                Err(e) => braid::first_bad(list@, e.0@),
            },
    {
        braid::relative_to_absolute_patches_js(list)
    }

    /// Merges a version into the document.
    pub fn merge(&mut self, branch: &[LV])
        requires
            old(self).inv(),
            graph::known(old(self).inner.oplog.cg.parents(), branch@),
        ensures
            final(self).inv(),
            final(self).inner.oplog == old(self).inner.oplog,
            final(self).agent_id == old(self).agent_id,
            graph::is_dominators(
                old(self).inner.oplog.cg.parents(),
                old(self).inner.branch.version@ + branch@,
                final(self).inner.branch.version@,
            ),
            final(self).text() == history::document(
                old(self).inner.oplog.hist(),
                old(self).inner.oplog.hist().version(old(self).inner.branch.version@).union(
                    old(self).inner.oplog.hist().version(branch@),
                ),
            ),
    {
        self.inner.branch.merge(&self.inner.oplog, branch);
    }

    /// The document with all events that bytes tell of, which the agent of the given
    /// name edits.
    pub fn from_bytes(bytes: &[u8], agent_name: Option<&str>) -> (out: Result<Doc, ParseError>)
        requires
            name_ok(agent_name),
            decoding::decoded(events::nothing(), Seq::empty(), bytes@) matches Ok(h) ==> history::playable(
                h,
            ),
        ensures
            match opened(bytes@, agent_name) {
                Ok(h) => out matches Ok(doc) && {
                    &&& doc.inv()
                    &&& doc.inner.oplog.hist() == h
                    &&& opened_as(doc.inner.oplog, bytes@, agent_name)
                    &&& doc.at_tip()
                    &&& agent_named(doc.inner.oplog, doc.agent_id, agent_name)
                },
                Err(e) => out matches Err(x) && x == e,
            },
    {
        match ListCRDT::load_from(bytes) {
            Ok(list) => {
                let mut inner = list;
                let ghost was = inner.oplog;
                if !can_join(&inner.oplog, agent_name) {
                    return Err(ParseError::TooLarge);
                }
                let agent_id = match agent_name {
                    Some(name) => Some(inner.get_or_create_agent_id(name)),
                    None => None,
                };
                proof {
                    lemma_joined(was, inner.oplog);
                }
                Ok(Doc { inner, agent_id })
            },
            Err(e) => Err(e),
        }
    }

    /// Takes up the events that bytes tell of, and brings the document up to date.
    pub fn merge_bytes(&mut self, bytes: &[u8]) -> (out: Result<Vec<LV>, ParseError>)
        requires
            old(self).inv(),
            decoding::decoded(
                old(self).inner.oplog.hist(),
                old(self).inner.oplog.names(),
                bytes@,
            ) matches Ok(h) ==> history::playable(h),
        ensures
            final(self).inv(),
            final(self).agent_id == old(self).agent_id,
            final(self).inner.oplog.keeps_agents(old(self).inner.oplog),
            match decoding::decoded(
                old(self).inner.oplog.hist(),
                old(self).inner.oplog.names(),
                bytes@,
            ) {
                Ok(h) => {
                    &&& final(self).inner.oplog.hist() == h
                    &&& decoding::taken(old(self).inner.oplog, final(self).inner.oplog, bytes@)
                    &&& final(self).at_tip()
                    &&& out matches Ok(front) && decoding::newest_told(
                        final(self).inner.oplog,
                        bytes@,
                        front@,
                    )
                },
                Err(e) => out == Err::<Vec<LV>, ParseError>(e) && final(self).inner
                    == old(self).inner,
            },
    {
        match self.inner.merge_data_and_ff(bytes) {
            Ok(front) => Ok(front.0),
            Err(e) => Err(e),
        }
    }

    /// The transformed operations since a version.
    pub fn xf_since(&self, from_version: &[LV]) -> (out: Vec<XfOp>)
        requires
            self.inv(),
            graph::known(self.inner.oplog.cg.parents(), from_version@),
        ensures
            transformed(
                self.inner.oplog,
                from_version@,
                self.inner.oplog.cg.version@,
                out@,
            ),
            travel::leads(
                self.inner.oplog.hist(),
                self.inner.oplog.hist().version(from_version@),
                Set::new(|v: int| 0 <= v < self.inner.oplog.size()),
                out@,
            ),
    {
        braid::xf_since(&self.inner.oplog, from_version)
    }

    /// What happened between two versions, as operations that turn the document at `from`
    /// into the one at `to`.
    pub fn xf_between(&self, from: &[LV], to: &[LV]) -> (out: Vec<XfOp>)
        requires
            self.inv(),
            graph::known(self.inner.oplog.cg.parents(), from@),
            graph::known(self.inner.oplog.cg.parents(), to@),
        ensures
            travel::say_runs(
                self.inner.oplog.hist(),
                out@,
                travel::travel(self.inner.oplog, from@, to@),
            ),
            travel::leads(
                self.inner.oplog.hist(),
                self.inner.oplog.hist().version(from@),
                self.inner.oplog.hist().version(to@),
                out@,
            ),
    {
        braid::xf_between(&self.inner.oplog, from, to)
    }

    pub fn wchars_to_chars(&self, pos_wchars: usize) -> (out: usize)
        requires
            text_buffer::wide_len(self.text()) <= usize::MAX,
            exists|k: int|
                0 <= k <= self.text().len() && #[trigger] text_buffer::wide_len(
                    self.text().take(k),
                ) == pos_wchars,
        ensures
            out <= self.text().len(),
            text_buffer::wide_len(self.text().take(out as int)) == pos_wchars,
    {
        self.inner.branch.content().wchars_to_chars(pos_wchars)
    }

    pub fn chars_to_wchars(&self, pos_chars: usize) -> (out: usize)
        requires
            text_buffer::wide_len(self.text()) <= usize::MAX,
            pos_chars <= self.text().len(),
        ensures
            out == text_buffer::wide_len(self.text().take(pos_chars as int)),
    {
        self.inner.branch.content().chars_to_wchars(pos_chars)
    }

    pub fn get_ops_since(&self, frontier: &[LV]) -> (out: Vec<TextOperation>)
        requires
            self.inv(),
            graph::known(self.inner.oplog.cg.parents(), frontier@),
        ensures
            oplog::ops_view(out@) == braid::ranges_ops(
                self.inner.oplog,
                graph::ranges_below(
                    self.inner.oplog.size(),
                    |v: int| !graph::in_cone(self.inner.oplog.cg.parents(), frontier@, v),
                ),
            ),
            oplog::events_of(oplog::ops_view(out@)) == braid::what_they_do(
                events::events_chosen(
                    self.inner.oplog.hist(),
                    self.inner.oplog.size(),
                    |v: int| !graph::in_cone(self.inner.oplog.cg.parents(), frontier@, v),
                ),
            ),
    {
        get_ops_since(&self.inner.oplog, frontier)
    }

    pub fn get_history(&self) -> (out: Vec<GraphEntrySimple>)
        requires
            self.inv(),
        ensures
            out@.len() == self.inner.oplog.cg.graph.entries.runs().len(),
            forall|i: int| 0 <= i < out@.len() ==> self.inner.oplog.is_entry(i, #[trigger] out@[i]),
    {
        get_history(&self.inner.oplog)
    }

    pub fn get_local_frontier(&self) -> (out: Vec<LV>)
        ensures
            out@ == self.inner.branch.version@,
    {
        self.inner.branch.local_frontier().0
    }

    pub fn local_to_remote_version(&self, version: &[LV]) -> (out: Vec<RemoteVersion<'_>>)
        requires
            self.inv(),
            graph::known(self.inner.oplog.cg.parents(), version@),
        ensures
            are_names(self.inner.oplog, out@, version@),
    {
        local_to_remote_version(&self.inner.oplog, version)
    }

    /// The events that texts name. Unless told otherwise, all of them are to be known.
    pub fn remote_to_local_version_js(&self, ids: &[String], tolerant: Option<bool>) -> (out: Result<
        Vec<LV>,
        VersionNotFound,
    >)
        requires
            self.inv(),
        ensures
            named(self.inner.oplog, sorting::texts_of(ids@), tolerant == Some(true), out),
    {
        let tolerant = match tolerant {
            Some(t) => t,
            None => false,
        };
        remote_to_local_version(&self.inner.oplog, ids, tolerant)
    }

    pub fn get_agent_seq_runs(&self) -> (out: Vec<(String, usize, usize)>)
        requires
            self.inv(),
        ensures
            seq_runs(self.inner.oplog, out@),
    {
        braid::agent_seq_runs(&self.inner.oplog)
    }

    /// The updates since a version that is given by the names of its newest events.
    pub fn get_updates_js(&self, since: Option<&[String]>) -> (out: Result<
        Vec<BraidUpdate>,
        VersionNotFound,
    >)
        requires
            self.inv(),
        ensures
            updated(self.inner.oplog, braid::since_texts(since), out),
    {
        braid::get_updates(&self.inner.oplog, since)
    }

    pub fn get_remote_version(&self) -> (out: Vec<RemoteVersion<'_>>)
        requires
            self.inv(),
        ensures
            are_names(self.inner.oplog, out@, self.inner.branch.version@),
    {
        local_to_remote_version(&self.inner.oplog, self.inner.branch.local_frontier_ref())
    }

    pub fn to_bytes(&self) -> (out: Vec<u8>)
        requires
            self.inv(),
        ensures
            out@ == encoding::encoded(
                events::events_between(self.inner.oplog.hist(), 0, self.inner.oplog.size()),
                EncodeOptions::Full,
            ),
    {
        to_bytes(&self.inner.oplog)
    }

    pub fn get_patch_since(&self, from_version: &[LV]) -> (out: Vec<u8>)
        requires
            self.inv(),
            graph::known(self.inner.oplog.cg.parents(), from_version@),
        ensures
            out@ == encoding::encoded(
                events::events_chosen(
                    self.inner.oplog.hist(),
                    self.inner.oplog.size(),
                    |v: int| !graph::in_cone(self.inner.oplog.cg.parents(), from_version@, v),
                ),
                EncodeOptions::Patch,
            ),
    {
        get_patch_since(&self.inner.oplog, from_version)
    }

    pub fn merge_versions(&self, a: &[LV], b: &[LV]) -> (out: Vec<LV>)
        requires
            self.inv(),
            graph::known(self.inner.oplog.cg.parents(), a@),
            graph::known(self.inner.oplog.cg.parents(), b@),
        ensures
            graph::is_dominators(self.inner.oplog.cg.parents(), a@ + b@, out@),
    {
        braid::merge_versions(&self.inner.oplog, a, b)
    }
}

} // verus!
