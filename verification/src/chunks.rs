//! Events in the form in which they are written: runs of events by one author, with
//! names written once.

use crate::agent_assignment;
use crate::events::EventAbs;
use crate::names;
use crate::operation;
use crate::operation::{EvOp, ListOpKind, OpAbs, TextOperation, RangeRev};
use crate::range::DTRange;
use crate::smart_string::SmartString;
use crate::text::{chars_of, text_of_chars};
use crate::wire;
use crate::wire::Wire;
use vstd::prelude::*;

verus! {

pub type EventId = (Seq<char>, int);

/// Events of one author, consecutive ones, each following the one before it alone, that
/// are one operation.
#[verifier::ext_equal]
pub struct Chunk {
    pub name: Seq<char>,
    pub seq: int,
    pub parents: Seq<EventId>,
    pub op: OpAbs,
}

/// One event as an operation. A delete of one character runs forward.
pub open spec fn lone(ev: EvOp) -> OpAbs {
    match ev {
        EvOp::Ins { pos, ch } => OpAbs {
            kind: ListOpKind::Ins,
            start: pos,
            end: pos + 1,
            fwd: true,
            content: Some(one_char(ch)),
        },
        EvOp::Del { pos } => OpAbs {
            kind: ListOpKind::Del,
            start: pos,
            end: pos + 1,
            fwd: true,
            content: None,
        },
    }
}

pub open spec fn one_char(ch: char) -> Seq<char> {
    seq![ch]
}

/// Whether an event joins a chunk.
pub open spec fn joins(c: Chunk, e: EventAbs) -> bool {
    &&& e.id == (c.name, c.seq + c.op.size())
    &&& e.parents == one_id((c.name, c.seq + c.op.size() - 1))
    &&& c.op.continued_by(lone(e.op))
}

pub open spec fn one_id(id: EventId) -> Seq<EventId> {
    seq![id]
}

/// The chunk of one event.
pub open spec fn chunk_of(e: EventAbs) -> Chunk {
    Chunk { name: e.id.0, seq: e.id.1, parents: e.parents, op: lone(e.op) }
}

/// The chunks with one more event: part of the last one where it joins it.
pub open spec fn chunk_step(list: Seq<Chunk>, e: EventAbs) -> Seq<Chunk> {
    if list.len() > 0 && joins(list.last(), e) {
        let c = list.last();
        list.drop_last().push(Chunk { op: c.op.with(lone(e.op)), ..c })
    } else {
        list.push(chunk_of(e))
    }
}

/// Events as chunks.
pub open spec fn chunks_of(evs: Seq<EventAbs>) -> Seq<Chunk>
    decreases evs.len(),
{
    if evs.len() == 0 {
        Seq::empty()
    } else {
        chunk_step(chunks_of(evs.drop_last()), evs.last())
    }
}

/// Event `k` of a chunk.
pub open spec fn chunk_event(c: Chunk, k: int) -> EventAbs {
    EventAbs {
        id: (c.name, c.seq + k),
        parents: if k == 0 {
            c.parents
        } else {
            one_id((c.name, c.seq + k - 1))
        },
        op: c.op.event(k),
    }
}

/// The events of a chunk.
pub open spec fn chunk_events(c: Chunk) -> Seq<EventAbs> {
    Seq::new(c.op.size() as nat, |k: int| chunk_event(c, k))
}

/// The events of chunks.
pub open spec fn chunks_events(list: Seq<Chunk>) -> Seq<EventAbs>
    decreases list.len(),
{
    if list.len() == 0 {
        Seq::empty()
    } else {
        chunks_events(list.drop_last()) + chunk_events(list.last())
    }
}

pub open spec fn id_fits(id: EventId) -> bool {
    agent_assignment::name_fits(id.0) && 0 <= id.1 < usize::MAX
}

pub open spec fn ids_fit(ids: Seq<EventId>) -> bool {
    forall|i: int| 0 <= i < ids.len() ==> id_fits(#[trigger] ids[i])
}

/// Whether an event can be written.
pub open spec fn event_fits(e: EventAbs) -> bool {
    &&& id_fits(e.id)
    &&& ids_fit(e.parents)
    &&& e.parents.len() <= usize::MAX
    &&& lone(e.op).valid()
}

pub open spec fn events_fit(evs: Seq<EventAbs>) -> bool {
    forall|i: int| 0 <= i < evs.len() ==> event_fits(#[trigger] evs[i])
}

/// Whether a chunk can be written.
pub open spec fn chunk_fits(c: Chunk) -> bool {
    &&& agent_assignment::name_fits(c.name)
    &&& 0 <= c.seq
    &&& c.seq + c.op.size() <= usize::MAX
    &&& ids_fit(c.parents)
    &&& c.parents.len() <= usize::MAX
    &&& c.op.valid()
}

pub open spec fn chunks_fit(list: Seq<Chunk>) -> bool {
    forall|i: int| 0 <= i < list.len() ==> chunk_fits(#[trigger] list[i])
}

proof fn lemma_lone(ev: EvOp)
    requires
        lone(ev).valid(),
    ensures
        lone(ev).size() == 1,
        lone(ev).event(0) == ev,
        lone(ev).events() == seq![ev],
{
    assert(lone(ev).events() =~= seq![ev]);
}

pub proof fn lemma_chunk_step(list: Seq<Chunk>, e: EventAbs)
    requires
        chunks_fit(list),
        event_fits(e),
    ensures
        chunks_fit(chunk_step(list, e)),
        chunks_events(chunk_step(list, e)) == chunks_events(list).push(e),
        chunk_step(list, e).len() <= list.len() + 1,
{
    let out = chunk_step(list, e);
    lemma_lone(e.op);
    if list.len() > 0 && joins(list.last(), e) {
        let c = list.last();
        let d = out.last();
        let n = c.op.size();
        assert(chunk_fits(list[list.len() - 1]));
        operation::lemma_with(c.op, lone(e.op));
        assert(d.op.events().len() == n + 1);
        assert forall|k: int| 0 <= k < n + 1 implies #[trigger] chunk_event(d, k)
            == chunk_events(c).push(e)[k] by {
            assert(d.op.events()[k] == d.op.event(k));
            if k < n {
                assert(c.op.events()[k] == c.op.event(k));
                assert(chunk_events(c)[k] == chunk_event(c, k));
            } else {
                assert(lone(e.op).events()[0] == lone(e.op).event(0));
                assert(chunk_event(d, k) =~= e);
            }
        }
        assert(chunk_events(d) =~= chunk_events(c).push(e));
        assert(out.drop_last() =~= list.drop_last());
        assert(chunks_events(out) =~= chunks_events(list).push(e));
        assert forall|i: int| 0 <= i < out.len() implies chunk_fits(#[trigger] out[i]) by {
            if i < list.len() - 1 {
                assert(out[i] == list[i]);
            }
        }
    } else {
        let d = chunk_of(e);
        assert(chunk_event(d, 0) =~= e);
        assert(chunk_events(d) =~= seq![e]);
        assert(out.drop_last() =~= list);
        assert(chunks_events(out) =~= chunks_events(list).push(e));
        assert forall|i: int| 0 <= i < out.len() implies chunk_fits(#[trigger] out[i]) by {
            if i < list.len() {
                assert(out[i] == list[i]);
            }
        }
    }
}

/// Nothing is lost: the chunks of events hold these events, in order.
pub proof fn law_chunks(evs: Seq<EventAbs>)
    requires
        events_fit(evs),
    ensures
        chunks_fit(chunks_of(evs)),
        chunks_events(chunks_of(evs)) == evs,
        chunks_of(evs).len() <= evs.len(),
    decreases evs.len(),
{
    if evs.len() == 0 {
        assert(chunks_events(chunks_of(evs)) =~= evs);
    } else {
        let less = evs.drop_last();
        assert forall|i: int| 0 <= i < less.len() implies event_fits(#[trigger] less[i]) by {
            assert(less[i] == evs[i]);
        }
        law_chunks(less);
        assert(event_fits(evs[evs.len() - 1]));
        lemma_chunk_step(chunks_of(less), evs.last());
        assert(less.push(evs.last()) =~= evs);
    }
}

// ---- names ----

/// A list of names with those of authors.
pub open spec fn with_ids(names: Seq<Seq<char>>, ids: Seq<EventId>) -> Seq<Seq<char>>
    decreases ids.len(),
{
    if ids.len() == 0 {
        names
    } else {
        names::with_name(with_ids(names, ids.drop_last()), ids.last().0)
    }
}

/// The names in chunks, each once, in the order in which they come up.
pub open spec fn names_of(list: Seq<Chunk>) -> Seq<Seq<char>>
    decreases list.len(),
{
    if list.len() == 0 {
        Seq::empty()
    } else {
        let c = list.last();
        with_ids(names::with_name(names_of(list.drop_last()), c.name), c.parents)
    }
}

/// Whether a list of names goes on with more names.
pub open spec fn more_names(a: Seq<Seq<char>>, b: Seq<Seq<char>>) -> bool {
    a.len() <= b.len() && forall|i: int| 0 <= i < a.len() ==> #[trigger] b[i] == a[i]
}

proof fn lemma_with_name(names: Seq<Seq<char>>, name: Seq<char>)
    ensures
        more_names(names, names::with_name(names, name)),
        names::with_name(names, name).contains(name),
        names::with_name(names, name).len() <= names.len() + 1,
        forall|i: int|
            0 <= i < names::with_name(names, name).len() ==> #[trigger] names::with_name(names, name)[i] == name
                || i < names.len(),
{
    let out = names::with_name(names, name);
    if !names.contains(name) {
        assert(out[names.len() as int] == name);
    }
}

proof fn lemma_more_contains(a: Seq<Seq<char>>, b: Seq<Seq<char>>, name: Seq<char>)
    requires
        more_names(a, b),
        a.contains(name),
    ensures
        b.contains(name),
{
    let i = a.index_of(name);
    assert(b[i] == name);
}

proof fn lemma_with_ids(names: Seq<Seq<char>>, ids: Seq<EventId>)
    requires
        ids_fit(ids),
        forall|i: int|
            0 <= i < names.len() ==> agent_assignment::name_fits(#[trigger] names[i]),
    ensures
        more_names(names, with_ids(names, ids)),
        forall|i: int|
            0 <= i < ids.len() ==> with_ids(names, ids).contains((#[trigger] ids[i]).0),
        forall|i: int|
            0 <= i < with_ids(names, ids).len() ==> agent_assignment::name_fits(
                #[trigger] with_ids(names, ids)[i],
            ),
    decreases ids.len(),
{
    if ids.len() > 0 {
        let less = ids.drop_last();
        assert forall|i: int| 0 <= i < less.len() implies id_fits(#[trigger] less[i]) by {
            assert(less[i] == ids[i]);
        }
        lemma_with_ids(names, less);
        let mid = with_ids(names, less);
        let out = with_ids(names, ids);
        let k = ids.len() - 1;
        assert(id_fits(ids[k]));
        lemma_with_name(mid, ids[k].0);
        assert forall|i: int| 0 <= i < names.len() implies #[trigger] out[i] == names[i] by {
            assert(mid[i] == names[i]);
        }
        assert forall|i: int| 0 <= i < ids.len() implies out.contains((#[trigger] ids[i]).0) by {
            if i < k {
                assert(less[i] == ids[i]);
                lemma_more_contains(mid, out, ids[i].0);
            }
        }
        assert forall|i: int| 0 <= i < out.len() implies agent_assignment::name_fits(
            #[trigger] out[i],
        ) by {
            if i < mid.len() {
                assert(out[i] == mid[i]);
            }
        }
    }
}

/// Whether a list of names holds all names of a chunk.
pub open spec fn names_chunk(names: Seq<Seq<char>>, c: Chunk) -> bool {
    &&& names.contains(c.name)
    &&& forall|i: int| 0 <= i < c.parents.len() ==> names.contains((#[trigger] c.parents[i]).0)
}

pub proof fn lemma_names(list: Seq<Chunk>)
    requires
        chunks_fit(list),
    ensures
        forall|i: int| 0 <= i < list.len() ==> names_chunk(names_of(list), #[trigger] list[i]),
        forall|i: int|
            0 <= i < names_of(list).len() ==> agent_assignment::name_fits(
                #[trigger] names_of(list)[i],
            ),
    decreases list.len(),
{
    if list.len() > 0 {
        let less = list.drop_last();
        let k = list.len() - 1;
        let c = list[k];
        assert forall|i: int| 0 <= i < less.len() implies chunk_fits(#[trigger] less[i]) by {
            assert(less[i] == list[i]);
        }
        lemma_names(less);
        assert(chunk_fits(c));
        let a = names_of(less);
        let b = names::with_name(a, c.name);
        let out = names_of(list);
        lemma_with_name(a, c.name);
        assert forall|i: int| 0 <= i < b.len() implies agent_assignment::name_fits(
            #[trigger] b[i],
        ) by {
            if i < a.len() {
                assert(b[i] == a[i]);
            }
        }
        lemma_with_ids(b, c.parents);
        assert forall|i: int| 0 <= i < list.len() implies names_chunk(out, #[trigger] list[i]) by {
            if i < k {
                let d = less[i];
                assert(d == list[i]);
                assert(names_chunk(a, d));
                assert(more_names(a, out)) by {
                    assert forall|j: int| 0 <= j < a.len() implies #[trigger] out[j] == a[j] by {
                        assert(b[j] == a[j]);
                    }
                }
                lemma_more_contains(a, out, d.name);
                assert forall|j: int| 0 <= j < d.parents.len() implies out.contains(
                    (#[trigger] d.parents[j]).0,
                ) by {
                    lemma_more_contains(a, out, d.parents[j].0);
                }
            } else {
                lemma_more_contains(b, out, c.name);
            }
        }
    }
}

// ---- records ----

/// A chunk with names by their place in a list.
#[derive(Debug)]
pub struct ChunkRec {
    pub agent: usize,
    pub seq: usize,
    pub parents: Vec<(usize, usize)>,
    pub op: TextOperation,
}

/// What a [`ChunkRec`] says.
#[verifier::ext_equal]
pub struct RecAbs {
    pub agent: int,
    pub seq: int,
    pub parents: Seq<(int, int)>,
    pub op: OpAbs,
}

/// An author's event by the place of the author's name.
pub open spec fn id_rec(names: Seq<Seq<char>>, id: EventId) -> (int, int) {
    (names.index_of(id.0), id.1)
}

pub open spec fn rec_of(names: Seq<Seq<char>>, c: Chunk) -> RecAbs {
    RecAbs {
        agent: names.index_of(c.name),
        seq: c.seq,
        parents: c.parents.map_values(|id: EventId| id_rec(names, id)),
        op: c.op,
    }
}

pub open spec fn rec_id(names: Seq<Seq<char>>, id: (int, int)) -> EventId {
    (names[id.0], id.1)
}

/// The chunk that a record tells of.
pub open spec fn rec_chunk(names: Seq<Seq<char>>, r: RecAbs) -> Chunk {
    Chunk {
        name: names[r.agent],
        seq: r.seq,
        parents: r.parents.map_values(|id: (int, int)| rec_id(names, id)),
        op: r.op,
    }
}

pub proof fn lemma_rec(names: Seq<Seq<char>>, c: Chunk)
    requires
        names_chunk(names, c),
    ensures
        rec_chunk(names, rec_of(names, c)) == c,
{
    let r = rec_of(names, c);
    assert forall|i: int| 0 <= i < c.parents.len() implies #[trigger] rec_chunk(
        names,
        r,
    ).parents[i] == c.parents[i] by {
        assert(names.contains(c.parents[i].0));
        assert(r.parents[i] == id_rec(names, c.parents[i]));
    }
    assert(rec_chunk(names, r).parents =~= c.parents);
}

/// Whether a record refers to names that there are, and tells of a chunk that can be
/// written.
pub open spec fn rec_fits(names: Seq<Seq<char>>, r: RecAbs) -> bool {
    &&& 0 <= r.agent < names.len()
    &&& 0 <= r.seq
    &&& r.seq + r.op.size() <= usize::MAX
    &&& r.parents.len() <= usize::MAX
    &&& forall|i: int|
        0 <= i < r.parents.len() ==> 0 <= (#[trigger] r.parents[i]).0 < names.len() && 0
            <= r.parents[i].1 < usize::MAX
    &&& r.op.valid()
}

// ---- operations as bytes ----

/// Which of three forms an operation has.
pub open spec fn tag_of(op: OpAbs) -> int {
    match op.kind {
        ListOpKind::Ins => 0,
        ListOpKind::Del => if op.fwd {
            1
        } else {
            2
        },
    }
}

/// The bytes of an operation behind its form.
pub open spec fn op_body(op: OpAbs) -> Seq<u8> {
    match op.kind {
        ListOpKind::Ins => <(usize, Vec<char>) as Wire>::bytes((op.start, op.content->0)),
        ListOpKind::Del => <(usize, usize) as Wire>::bytes((op.start, op.size())),
    }
}

proof fn lemma_told_chars(list: Seq<char>)
    ensures
        wire::told_list::<char>(list) == list,
{
    assert(wire::told_list::<char>(list) =~= list);
}

impl Wire for TextOperation {
    type Abs = OpAbs;

    open spec fn told(&self) -> OpAbs {
        self@
    }

    open spec fn fine(a: OpAbs) -> bool {
        a.valid()
    }

    open spec fn bytes(a: OpAbs) -> Seq<u8> {
        wire::number_bytes(tag_of(a)) + op_body(a)
    }

    proof fn lemma_one(a: OpAbs, b: OpAbs, s: Seq<u8>) {
        let x = wire::number_bytes(tag_of(a));
        let y = wire::number_bytes(tag_of(b));
        wire::lemma_parts(s, x, op_body(a));
        wire::lemma_parts(s, y, op_body(b));
        <usize as Wire>::lemma_one(tag_of(a), tag_of(b), s);
        let rest = s.skip(x.len() as int);
        match a.kind {
            ListOpKind::Ins => {
                <(usize, Vec<char>) as Wire>::lemma_one(
                    (a.start, a.content->0),
                    (b.start, b.content->0),
                    rest,
                );
            },
            ListOpKind::Del => {
                <(usize, usize) as Wire>::lemma_one(
                    (a.start, a.size()),
                    (b.start, b.size()),
                    rest,
                );
            },
        }
        assert(a =~= b);
    }

    fn put(&self, out: &mut Vec<u8>) {
        let ghost was = out@;
        let start = self.loc.span.start;
        match self.kind {
            ListOpKind::Ins => {
                let tag: usize = 0;
                tag.put(out);
                start.put(out);
                if let Some(content) = &self.content {
                    let chars = chars_of(content.as_str());
                    proof {
                        lemma_told_chars(chars@);
                    }
                    assert(chars@.len() <= usize::MAX);
                    chars.put(out);
                }
            },
            ListOpKind::Del => {
                let tag: usize = if self.loc.fwd {
                    1
                } else {
                    2
                };
                tag.put(out);
                start.put(out);
                let len = self.len();
                len.put(out);
            },
        }
        assert(out@ =~= was + Self::bytes(self.told()));
    }

    fn get(data: &[u8], at: usize) -> (out: Option<(TextOperation, usize)>) {
        let ghost rest = data@.skip(at as int);
        match <usize as Wire>::get(data, at) {
            None => {
                assert forall|a: OpAbs| Self::fine(a) implies !wire::begins(
                    rest,
                    #[trigger] Self::bytes(a),
                ) by {
                    wire::lemma_parts(rest, wire::number_bytes(tag_of(a)), op_body(a));
                    assert(!wire::begins(rest, <usize as Wire>::bytes(tag_of(a))));
                }
                None
            },
            Some((tag, mid)) => {
                proof {
                    wire::lemma_read(data@, at as int, mid as int);
                    assert forall|a: OpAbs|
                        Self::fine(a) && wire::begins(rest, #[trigger] Self::bytes(a)) implies tag
                        == tag_of(a) && wire::begins(data@.skip(mid as int), op_body(a)) by {
                        wire::lemma_parts(rest, wire::number_bytes(tag_of(a)), op_body(a));
                        <usize as Wire>::lemma_one(tag_of(a), tag as int, rest);
                    }
                }
                if tag == 0 {
                    get_insert(data, at, mid)
                } else if tag <= 2 {
                    get_delete(data, at, mid, tag == 1)
                } else {
                    None
                }
            },
        }
    }
}

#[verifier::rlimit(40)]
fn get_insert(data: &[u8], at: usize, mid: usize) -> (out: Option<(TextOperation, usize)>)
    requires
        at <= mid <= data@.len(),
        data@.subrange(at as int, mid as int) == wire::number_bytes(0),
    ensures
        match out {
            Some((v, end)) => {
                &&& at <= end <= data@.len()
                &&& v@.valid()
                &&& data@.subrange(at as int, end as int) == <TextOperation as Wire>::bytes(v@)
            },
            None => forall|a: OpAbs|
                a.valid() && tag_of(a) == 0 ==> !wire::begins(
                    data@.skip(mid as int),
                    #[trigger] op_body(a),
                ),
        },
{
    let ghost rest = data@.skip(mid as int);
    match <(usize, Vec<char>) as Wire>::get(data, mid) {
        None => {
            assert forall|a: OpAbs| a.valid() && tag_of(a) == 0 implies !wire::begins(
                rest,
                #[trigger] op_body(a),
            ) by {
                let pair = (a.start, a.content->0);
                assert(<(usize, Vec<char>) as Wire>::fine(pair));
                assert(!wire::begins(rest, <(usize, Vec<char>) as Wire>::bytes(pair)));
            }
            None
        },
        Some(((start, chars), end)) => {
            let len = chars.len();
            proof {
                lemma_told_chars(chars@);
                wire::lemma_read(data@, mid as int, end as int);
                assert forall|a: OpAbs|
                    a.valid() && tag_of(a) == 0 && wire::begins(
                        rest,
                        #[trigger] op_body(a),
                    ) implies a.start == start && a.content == Some(chars@) by {
                    <(usize, Vec<char>) as Wire>::lemma_one(
                        (a.start, a.content->0),
                        (start as int, chars@),
                        rest,
                    );
                }
            }
            if len == 0 || start > usize::MAX - len {
                return None;
            }
            let text = text_of_chars(chars.as_slice());
            let op = TextOperation {
                kind: ListOpKind::Ins,
                loc: RangeRev { span: DTRange { start, end: start + len }, fwd: true },
                content: Some(SmartString::from_text(text.as_str())),
            };
            proof {
                assert(data@.subrange(at as int, end as int) =~= data@.subrange(
                    at as int,
                    mid as int,
                ) + data@.subrange(mid as int, end as int));
            }
            Some((op, end))
        },
    }
}

fn get_delete(data: &[u8], at: usize, mid: usize, fwd: bool) -> (out: Option<
    (TextOperation, usize),
>)
    requires
        at <= mid <= data@.len(),
        data@.subrange(at as int, mid as int) == wire::number_bytes(
            if fwd {
                1
            } else {
                2
            },
        ),
    ensures
        match out {
            Some((v, end)) => {
                &&& at <= end <= data@.len()
                &&& v@.valid()
                &&& data@.subrange(at as int, end as int) == <TextOperation as Wire>::bytes(v@)
            },
            None => forall|a: OpAbs|
                a.valid() && tag_of(a) == (if fwd {
                    1int
                } else {
                    2
                }) ==> !wire::begins(data@.skip(mid as int), #[trigger] op_body(a)),
        },
{
    let ghost rest = data@.skip(mid as int);
    let ghost tag: int = if fwd {
        1
    } else {
        2
    };
    match <(usize, usize) as Wire>::get(data, mid) {
        None => {
            assert forall|a: OpAbs| a.valid() && tag_of(a) == tag implies !wire::begins(
                rest,
                #[trigger] op_body(a),
            ) by {
                let pair = (a.start, a.size());
                assert(<(usize, usize) as Wire>::fine(pair));
                assert(!wire::begins(rest, <(usize, usize) as Wire>::bytes(pair)));
            }
            None
        },
        Some(((start, len), end)) => {
            proof {
                wire::lemma_read(data@, mid as int, end as int);
                assert forall|a: OpAbs|
                    a.valid() && tag_of(a) == tag && wire::begins(
                        rest,
                        #[trigger] op_body(a),
                    ) implies a.start == start && a.size() == len by {
                    <(usize, usize) as Wire>::lemma_one(
                        (a.start, a.size()),
                        (start as int, len as int),
                        rest,
                    );
                }
            }
            if len == 0 || start > usize::MAX - len {
                return None;
            }
            let op = TextOperation {
                kind: ListOpKind::Del,
                loc: RangeRev { span: DTRange { start, end: start + len }, fwd },
                content: None,
            };
            proof {
                assert(data@.subrange(at as int, end as int) =~= data@.subrange(
                    at as int,
                    mid as int,
                ) + data@.subrange(mid as int, end as int));
            }
            Some((op, end))
        },
    }
}

// ---- records as bytes ----

/// The parts of a record, in the order in which they are written.
pub open spec fn rec_parts(r: RecAbs) -> (((int, int), Seq<(int, int)>), OpAbs) {
    (((r.agent, r.seq), r.parents), r.op)
}

impl Wire for ChunkRec {
    type Abs = RecAbs;

    open spec fn told(&self) -> RecAbs {
        RecAbs {
            agent: self.agent as int,
            seq: self.seq as int,
            parents: wire::told_list::<(usize, usize)>(self.parents@),
            op: self.op@,
        }
    }

    open spec fn fine(a: RecAbs) -> bool {
        <(((usize, usize), Vec<(usize, usize)>), TextOperation) as Wire>::fine(rec_parts(a))
    }

    open spec fn bytes(a: RecAbs) -> Seq<u8> {
        <(((usize, usize), Vec<(usize, usize)>), TextOperation) as Wire>::bytes(rec_parts(a))
    }

    proof fn lemma_one(a: RecAbs, b: RecAbs, s: Seq<u8>) {
        <(((usize, usize), Vec<(usize, usize)>), TextOperation) as Wire>::lemma_one(
            rec_parts(a),
            rec_parts(b),
            s,
        );
        assert(a =~= b);
    }

    fn put(&self, out: &mut Vec<u8>) {
        let ghost was = out@;
        self.agent.put(out);
        self.seq.put(out);
        self.parents.put(out);
        self.op.put(out);
        assert(out@ =~= was + Self::bytes(self.told()));
    }

    fn get(data: &[u8], at: usize) -> (out: Option<(ChunkRec, usize)>) {
        let ghost rest = data@.skip(at as int);
        match <(((usize, usize), Vec<(usize, usize)>), TextOperation) as Wire>::get(data, at) {
            None => {
                assert forall|a: RecAbs| Self::fine(a) implies !wire::begins(
                    rest,
                    #[trigger] Self::bytes(a),
                ) by {
                    let p = rec_parts(a);
                    assert(!wire::begins(
                        rest,
                        <(((usize, usize), Vec<(usize, usize)>), TextOperation) as Wire>::bytes(p),
                    ));
                }
                None
            },
            Some(((((agent, seq), parents), op), end)) => Some(
                (ChunkRec { agent, seq, parents, op }, end),
            ),
        }
    }
}

} // verus!
