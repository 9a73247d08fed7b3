//! Text operations: runs of events that insert or delete one character each.

use crate::range::DTRange;
use crate::rle::RleVal;
use crate::smart_string::SmartString;
use crate::text::{cp_len, head_of, tail_of};
use vstd::prelude::*;

verus! {

#[derive(Debug, Clone, Copy, PartialEq, Eq, Structural)]
pub enum ListOpKind {
    Ins,
    Del,
}

/// A span of a document, and the direction in which events run through it.
#[derive(Debug, Clone, Copy, PartialEq, Eq, Structural)]
pub struct RangeRev {
    pub span: DTRange,
    pub fwd: bool,
}

/// A run of events. Each one inserts or deletes one character of the document
/// that the one before it left.
///
/// An insert types its content from `loc.span.start` on. A forward delete
/// deletes at `loc.span.start` over and over; a backward one deletes from the end of the
/// span to its start.
#[derive(Debug, PartialEq, Eq)]
pub struct TextOperation {
    pub kind: ListOpKind,
    pub loc: RangeRev,
    /// What is inserted.
    pub content: Option<SmartString>,
}

/// What a [`TextOperation`] says.
#[verifier::ext_equal]
pub struct OpAbs {
    pub kind: ListOpKind,
    pub start: int,
    pub end: int,
    pub fwd: bool,
    pub content: Option<Seq<char>>,
}

/// What one event does to a document.
#[verifier::ext_equal]
pub enum EvOp {
    Ins { pos: int, ch: char },
    Del { pos: int },
}

impl View for TextOperation {
    type V = OpAbs;

    open spec fn view(&self) -> OpAbs {
        OpAbs {
            kind: self.kind,
            start: self.loc.span.start as int,
            end: self.loc.span.end as int,
            fwd: self.loc.fwd,
            content: match self.content {
                Some(c) => Some(c@),
                None => None,
            },
        }
    }
}

impl OpAbs {
    pub open spec fn size(self) -> int {
        self.end - self.start
    }

    /// Whether the operation is a run of events: one per character of its span. An
    /// insert runs forward, and has as many characters as its span; a delete has
    /// no content.
    pub open spec fn valid(self) -> bool {
        &&& 0 <= self.start < self.end <= usize::MAX
        &&& match self.kind {
            ListOpKind::Ins => self.fwd && (self.content matches Some(c) && c.len()
                == self.size()),
            ListOpKind::Del => self.content is None,
        }
    }

    /// What event `k` of the run does.
    pub open spec fn event(self, k: int) -> EvOp {
        match self.kind {
            ListOpKind::Ins => EvOp::Ins { pos: self.start + k, ch: self.content->0[k] },
            ListOpKind::Del => EvOp::Del {
                pos: if self.fwd {
                    self.start
                } else {
                    self.end - 1 - k
                },
            },
        }
    }

    /// What the events of the run do.
    pub open spec fn events(self) -> Seq<EvOp> {
        Seq::new(self.size() as nat, |k: int| self.event(k))
    }

    /// Whether `next`, behind this run, continues it. A delete of one character
    /// runs in either direction.
    pub open spec fn continued_by(self, next: OpAbs) -> bool {
        &&& self.kind == next.kind
        &&& match self.kind {
            ListOpKind::Ins => next.start == self.end,
            ListOpKind::Del => self.continued_fwd(next) || self.continued_back(next),
        }
    }

    pub open spec fn continued_fwd(self, next: OpAbs) -> bool {
        &&& self.size() == 1 || self.fwd
        &&& next.size() == 1 || next.fwd
        &&& next.start == self.start
        &&& self.end + next.size() <= usize::MAX
    }

    pub open spec fn continued_back(self, next: OpAbs) -> bool {
        &&& self.size() == 1 || !self.fwd
        &&& next.size() == 1 || !next.fwd
        &&& next.end == self.start
    }

    /// This run and one that continues it, as one run.
    pub open spec fn with(self, next: OpAbs) -> OpAbs {
        match self.kind {
            ListOpKind::Ins => OpAbs {
                end: self.end + next.size(),
                content: Some(self.content->0 + next.content->0),
                ..self
            },
            ListOpKind::Del => if next.start >= self.start {
                OpAbs { end: self.end + next.size(), fwd: true, ..self }
            } else {
                OpAbs { start: next.start, fwd: false, ..self }
            },
        }
    }

    /// The events `from..to` of the run.
    pub open spec fn between(self, from: int, to: int) -> OpAbs {
        match self.kind {
            ListOpKind::Ins => OpAbs {
                start: self.start + from,
                end: self.start + to,
                content: Some(self.content->0.subrange(from, to)),
                ..self
            },
            ListOpKind::Del => if self.fwd {
                OpAbs { end: self.start + (to - from), ..self }
            } else {
                OpAbs { start: self.end - to, end: self.end - from, ..self }
            },
        }
    }
}

/// An insert of `content` at `pos`.
pub open spec fn insert_abs(pos: int, content: Seq<char>) -> OpAbs {
    OpAbs {
        kind: ListOpKind::Ins,
        start: pos,
        end: pos + content.len(),
        fwd: true,
        content: Some(content),
    }
}

/// A forward delete of a span.
pub open spec fn delete_abs(span: DTRange) -> OpAbs {
    OpAbs {
        kind: ListOpKind::Del,
        start: span.start as int,
        end: span.end as int,
        fwd: true,
        content: None,
    }
}

/// The operation that one event is.
pub open spec fn event_abs(ev: EvOp) -> OpAbs {
    match ev {
        EvOp::Ins { pos, ch } => insert_abs(pos, seq![ch]),
        EvOp::Del { pos } => OpAbs {
            kind: ListOpKind::Del,
            start: pos,
            end: pos + 1,
            fwd: true,
            content: None,
        },
    }
}

impl TextOperation {
    /// An insert of `content` at `pos`.
    pub fn new_insert(pos: usize, content: &str) -> (out: TextOperation)
        requires
            pos + content@.len() <= usize::MAX,
        ensures
            out@ == insert_abs(pos as int, content@),
    {
        let len = cp_len(content);
        TextOperation {
            kind: ListOpKind::Ins,
            loc: RangeRev { span: DTRange { start: pos, end: pos + len }, fwd: true },
            content: Some(SmartString::from_text(content)),
        }
    }

    /// A forward delete of a span.
    pub fn new_delete(span: DTRange) -> (out: TextOperation)
        ensures
            out@ == delete_abs(span),
    {
        TextOperation {
            kind: ListOpKind::Del,
            loc: RangeRev { span, fwd: true },
            content: None,
        }
    }

    /// Event `k` of the run, as an operation of its own.
    pub fn one(&self, k: usize) -> (out: TextOperation)
        requires
            self@.valid(),
            k < self@.size(),
        ensures
            out@ == event_abs(self@.event(k as int)),
            out@.valid(),
            out@.events() == seq![self@.event(k as int)],
    {
        let mut out = self.between(k, k + 1);
        out.loc.fwd = true;
        proof {
            if self.kind == ListOpKind::Ins {
                assert(self@.content->0.subrange(k as int, k + 1) =~= seq![self@.content->0[k as int]]);
            }
            assert(out@.events() =~= seq![self@.event(k as int)]);
        }
        out
    }

    pub fn start(&self) -> (out: usize)
        ensures
            out == self@.start,
    {
        self.loc.span.start
    }

    pub fn end(&self) -> (out: usize)
        ensures
            out == self@.end,
    {
        self.loc.span.end
    }

    /// How many events the operation is.
    pub fn len(&self) -> (out: usize)
        requires
            self@.start <= self@.end,
        ensures
            out == self@.size(),
    {
        self.loc.span.end - self.loc.span.start
    }

    /// What is inserted.
    pub fn content_as_str(&self) -> (out: Option<&str>)
        ensures
            match out {
                Some(s) => self@.content == Some(s@),
                None => self@.content is None,
            },
    {
        match &self.content {
            Some(c) => Some(c.as_str()),
            None => None,
        }
    }

    /// Whether `next`, behind this run, continues it.
    pub fn can_append(&self, next: &TextOperation) -> (out: bool)
        requires
            self@.valid(),
            next@.valid(),
        ensures
            out == self@.continued_by(next@),
    {
        if self.kind != next.kind {
            return false;
        }
        match self.kind {
            ListOpKind::Ins => next.loc.span.start == self.loc.span.end,
            ListOpKind::Del => {
                let one = self.len() == 1;
                let next_one = next.len() == 1;
                if (one || self.loc.fwd) && (next_one || next.loc.fwd) && next.loc.span.start
                    == self.loc.span.start && next.len() <= usize::MAX - self.loc.span.end {
                    true
                } else {
                    (one || !self.loc.fwd) && (next_one || !next.loc.fwd) && next.loc.span.end
                        == self.loc.span.start
                }
            },
        }
    }

    /// Continues this run by another.
    pub fn append(&mut self, next: TextOperation)
        requires
            old(self)@.valid(),
            next@.valid(),
            old(self)@.continued_by(next@),
        ensures
            final(self)@ == old(self)@.with(next@),
            final(self)@.valid(),
            final(self)@.events() == old(self)@.events() + next@.events(),
    {
        let ghost a = self@;
        let ghost b = next@;
        proof {
            lemma_with(a, b);
        }
        let len = next.len();
        match self.kind {
            ListOpKind::Ins => {
                self.loc.span.end = self.loc.span.end + len;
                if let (Some(c), Some(more)) = (&self.content, &next.content) {
                    let mut all = c.clone();
                    all.push_str(more.as_str());
                    self.content = Some(all);
                }
            },
            ListOpKind::Del => {
                if next.loc.span.start >= self.loc.span.start {
                    self.loc.fwd = true;
                    self.loc.span.end = self.loc.span.end + len;
                } else {
                    self.loc.fwd = false;
                    self.loc.span.start = next.loc.span.start;
                }
            },
        }
        assert(self@ =~= a.with(b));
    }

    /// The events `from..to` of the run.
    pub fn between(&self, from: usize, to: usize) -> (out: TextOperation)
        requires
            self@.valid(),
            from < to <= self@.size(),
        ensures
            out@ == self@.between(from as int, to as int),
            out@.valid(),
            out@.events() == self@.events().subrange(from as int, to as int),
    {
        proof {
            lemma_between(self@, from as int, to as int);
        }
        let span = self.loc.span;
        match self.kind {
            ListOpKind::Ins => {
                let content = match &self.content {
                    Some(c) => {
                        let part = tail_of(head_of(c.as_str(), to), from);
                        assert(part@ =~= c@.subrange(from as int, to as int));
                        Some(SmartString::from_text(part))
                    },
                    None => None,
                };
                TextOperation {
                    kind: ListOpKind::Ins,
                    loc: RangeRev {
                        span: DTRange { start: span.start + from, end: span.start + to },
                        fwd: self.loc.fwd,
                    },
                    content,
                }
            },
            ListOpKind::Del => {
                let part = if self.loc.fwd {
                    DTRange { start: span.start, end: span.start + (to - from) }
                } else {
                    DTRange { start: span.end - to, end: span.end - from }
                };
                TextOperation {
                    kind: ListOpKind::Del,
                    loc: RangeRev { span: part, fwd: self.loc.fwd },
                    content: None,
                }
            },
        }
    }
}

impl Clone for TextOperation {
    fn clone(&self) -> (out: TextOperation)
        ensures
            out@ == self@,
    {
        TextOperation {
            kind: self.kind,
            loc: self.loc,
            content: match &self.content {
                Some(c) => Some(c.clone()),
                None => None,
            },
        }
    }
}

/// A run that continues another makes one run of the events of both.
pub proof fn lemma_with(a: OpAbs, b: OpAbs)
    requires
        a.valid(),
        b.valid(),
        a.continued_by(b),
    ensures
        a.with(b).valid(),
        a.with(b).size() == a.size() + b.size(),
        a.with(b).events() == a.events() + b.events(),
{
    let c = a.with(b);
    assert(c.size() == a.size() + b.size());
    assert forall|k: int| 0 <= k < c.size() implies #[trigger] c.events()[k] == (a.events()
        + b.events())[k] by {
        if k < a.size() {
        } else {
            assert(b.events()[k - a.size()] == b.event(k - a.size()));
        }
    }
    assert(c.events() =~= a.events() + b.events());
}

pub proof fn lemma_between(a: OpAbs, from: int, to: int)
    requires
        a.valid(),
        0 <= from < to <= a.size(),
    ensures
        a.between(from, to).valid(),
        a.between(from, to).size() == to - from,
        a.between(from, to).events() == a.events().subrange(from, to),
{
    assert(a.between(from, to).events() =~= a.events().subrange(from, to));
}

impl RleVal for TextOperation {
    type Abs = OpAbs;

    type Item = EvOp;

    open spec fn abs(&self) -> OpAbs {
        self@
    }

    open spec fn valid(a: OpAbs) -> bool {
        a.valid()
    }

    open spec fn size(a: OpAbs) -> int {
        a.size()
    }

    open spec fn item(a: OpAbs, start: int, k: int) -> EvOp {
        a.event(k)
    }

    open spec fn joins(a: OpAbs, b: OpAbs, at: int) -> bool {
        a.continued_by(b)
    }

    open spec fn join(a: OpAbs, b: OpAbs) -> OpAbs {
        a.with(b)
    }

    open spec fn part(a: OpAbs, start: int, from: int, to: int) -> OpAbs {
        a.between(from, to)
    }

    proof fn lemma_size(a: OpAbs) {
    }

    proof fn lemma_join(a: OpAbs, b: OpAbs, start: int) {
        lemma_with(a, b);
        assert forall|k: int| 0 <= k < a.size() implies #[trigger] a.with(b).event(k) == a.event(
            k,
        ) by {
            assert(a.with(b).events()[k] == (a.events() + b.events())[k]);
        }
        assert forall|k: int| a.size() <= k < a.size() + b.size() implies #[trigger] a.with(b).event(
            k,
        ) == b.event(k - a.size()) by {
            assert(a.with(b).events()[k] == (a.events() + b.events())[k]);
        }
    }

    proof fn lemma_part(a: OpAbs, start: int, from: int, to: int) {
        lemma_between(a, from, to);
        assert forall|k: int| 0 <= k < to - from implies #[trigger] a.between(from, to).event(k)
            == a.event(from + k) by {
            assert(a.between(from, to).events()[k] == a.events().subrange(from, to)[k]);
        }
    }

    fn len(&self) -> (out: usize) {
        self.loc.span.end - self.loc.span.start
    }

    fn can_append_at(&self, other: &TextOperation, at: usize) -> (out: bool) {
        self.can_append(other)
    }

    fn append(&mut self, other: TextOperation, at: usize) {
        TextOperation::append(self, other);
    }

    fn slice(&self, start: usize, from: usize, to: usize) -> (out: TextOperation) {
        self.between(from, to)
    }

    fn copied(&self) -> (out: TextOperation) {
        self.clone()
    }
}

// ---- what operations do to a document ----

/// Whether the event finds its place in the document.
pub open spec fn fits(doc: Seq<char>, ev: EvOp) -> bool {
    match ev {
        EvOp::Ins { pos, .. } => 0 <= pos <= doc.len(),
        EvOp::Del { pos } => 0 <= pos < doc.len(),
    }
}

/// The document after an event.
pub open spec fn after(doc: Seq<char>, ev: EvOp) -> Seq<char> {
    match ev {
        EvOp::Ins { pos, ch } => doc.insert(pos, ch),
        EvOp::Del { pos } => doc.remove(pos),
    }
}

/// The document after events one after the other.
pub open spec fn after_all(doc: Seq<char>, evs: Seq<EvOp>) -> Seq<char>
    decreases evs.len(),
{
    if evs.len() == 0 {
        doc
    } else {
        after(after_all(doc, evs.drop_last()), evs.last())
    }
}

/// Whether events made one after the other all find their place.
pub open spec fn fits_all(doc: Seq<char>, evs: Seq<EvOp>) -> bool
    decreases evs.len(),
{
    evs.len() == 0 || fits_all(doc, evs.drop_last()) && fits(
        after_all(doc, evs.drop_last()),
        evs.last(),
    )
}

/// The document after a whole operation: an insert puts its content, in reverse
/// where it runs backward, at its start; a delete takes its span away.
pub open spec fn after_op(doc: Seq<char>, op: OpAbs) -> Seq<char> {
    match op.kind {
        ListOpKind::Ins => {
            let text = if op.fwd {
                op.content->0
            } else {
                op.content->0.reverse()
            };
            doc.subrange(0, op.start) + text + doc.subrange(op.start, doc.len() as int)
        },
        ListOpKind::Del => doc.subrange(0, op.start) + doc.subrange(op.end, doc.len() as int),
    }
}

/// Whether a whole operation finds its place in the document.
pub open spec fn op_fits(doc: Seq<char>, op: OpAbs) -> bool {
    match op.kind {
        ListOpKind::Ins => 0 <= op.start <= doc.len(),
        ListOpKind::Del => 0 <= op.start <= op.end <= doc.len(),
    }
}

/// An operation does what its events do, and finds its place if they do.
pub proof fn law_op_is_its_events(doc: Seq<char>, op: OpAbs)
    requires
        op.valid(),
    ensures
        op_fits(doc, op) == fits_all(doc, op.events()),
        op_fits(doc, op) ==> after_op(doc, op) == after_all(doc, op.events()),
{
    lemma_op_events(doc, op, op.size());
    assert(op.between(0, op.size()).events() =~= op.events());
    if op.kind == ListOpKind::Ins {
        assert(op.content->0.subrange(0, op.size()) =~= op.content->0);
    }
    assert(op.between(0, op.size()) =~= op);
}

proof fn lemma_op_events(doc: Seq<char>, op: OpAbs, n: int)
    requires
        op.valid(),
        1 <= n <= op.size(),
    ensures
        ({
            let part = op.between(0, n);
            &&& op_fits(doc, part) == fits_all(doc, part.events())
            &&& op_fits(doc, part) ==> after_op(doc, part) == after_all(doc, part.events())
        }),
    decreases n,
{
    let part = op.between(0, n);
    lemma_between(op, 0, n);
    if n == 1 {
        let first = part.events();
        assert(first.len() == 1);
        assert(first.drop_last() =~= Seq::<EvOp>::empty());
        assert(after_all(doc, first.drop_last()) == doc);
        assert(fits_all(doc, first.drop_last()));
        if op_fits(doc, part) {
            assert(after_op(doc, part) =~= after(doc, first.last()));
        }
    } else {
        let before = op.between(0, n - 1);
        lemma_between(op, 0, n - 1);
        lemma_op_events(doc, op, n - 1);
        assert(part.events().drop_last() =~= before.events());
        assert(part.events().last() == op.event(n - 1));
        if op_fits(doc, before) {
            let mid = after_op(doc, before);
            if fits(mid, op.event(n - 1)) {
                assert(after_op(doc, part) =~= after(mid, op.event(n - 1)));
            }
        }
    }
}

} // verus!
