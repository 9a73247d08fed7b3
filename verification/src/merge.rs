//! Merging: what has to be done to the document at one version to bring it up to
//! another.

use crate::agent_assignment::LV;
use crate::frontier;
use crate::graph;
use crate::history;
use crate::history::{Hist, Track};
use crate::history_laws;
use crate::operation;
use crate::operation::{EvOp, OpAbs, TextOperation};
use crate::oplog;
use crate::oplog::ListOpLog;
use crate::plan;
use crate::range::DTRange;
use crate::rle;
use crate::rle::{KVPair, RleVal, Runs};
use crate::tracker;
use crate::tracker::{replay, Tracker, NONE};
use vstd::prelude::*;

verus! {

/// An event, in its place in the document that it finds; none if it deletes what is
/// gone there.
pub struct Xf {
    pub lv: int,
    pub ev: Option<EvOp>,
}

/// The events that are there when all events before `k` have been taken up.
pub open spec fn upto(h: Hist, from: Seq<usize>, merging: Seq<usize>, k: int) -> Set<int> {
    Set::new(|a: int| plan::there(h.parents, from, merging, k, a))
}

pub open spec fn xf_at(h: Hist, from: Seq<usize>, merging: Seq<usize>, v: int) -> Xf {
    Xf { lv: v, ev: history_laws::moved(h, upto(h, from, merging, v), v) }
}

/// The events before `k` that are due, each in its place in the document that those
/// before it leave.
pub open spec fn xf_to(h: Hist, from: Seq<usize>, merging: Seq<usize>, k: int) -> Seq<Xf>
    decreases k,
{
    if k <= 0 {
        Seq::empty()
    } else {
        let before = xf_to(h, from, merging, k - 1);
        if plan::due(h.parents, from, merging, k - 1) {
            before.push(xf_at(h, from, merging, k - 1))
        } else {
            before
        }
    }
}

/// All events that are due, each in its place in the document that those before it leave.
pub open spec fn xf_ops(h: Hist, from: Seq<usize>, merging: Seq<usize>) -> Seq<Xf> {
    xf_to(h, from, merging, h.len() as int)
}

/// The document after events in their places.
pub open spec fn after_xf(doc: Seq<char>, list: Seq<Xf>) -> Seq<char>
    decreases list.len(),
{
    if list.len() == 0 {
        doc
    } else {
        history_laws::after_moved(after_xf(doc, list.drop_last()), list.last().ev)
    }
}

/// Whether each event finds its place in the document that those before it leave.
pub open spec fn xf_fits(doc: Seq<char>, list: Seq<Xf>) -> bool
    decreases list.len(),
{
    list.len() == 0 || xf_fits(doc, list.drop_last()) && (list.last().ev matches Some(ev)
        ==> operation::fits(after_xf(doc, list.drop_last()), ev))
}

// ---- laws ----

proof fn lemma_there_closed(h: Hist, from: Seq<usize>, merging: Seq<usize>, k: int)
    requires
        h.valid(),
        0 <= k <= h.len(),
    ensures
        history_laws::closed(h, upto(h, from, merging, k)),
{
    let s = upto(h, from, merging, k);
    assert forall|a: int| #[trigger] s.contains(a) implies 0 <= a < h.len() by {
        if graph::in_cone(h.parents, from, a) {
            graph::lemma_cone_order(h.parents, from, a);
        } else {
            graph::lemma_cone_order(h.parents, merging, a);
        }
    }
    assert forall|v: int, a: int|
        #![trigger s.contains(v), graph::reaches(h.parents, v, a)]
        s.contains(v) && graph::reaches(h.parents, v, a) implies s.contains(a) by {
        if graph::in_cone(h.parents, from, v) {
            graph::lemma_cone_closed(h.parents, from, v, a);
        } else {
            graph::lemma_cone_closed(h.parents, merging, v, a);
            graph::lemma_reaches_order(h.parents, v, a);
        }
    }
}

proof fn lemma_seen_there(h: Hist, from: Seq<usize>, merging: Seq<usize>, v: int)
    requires
        h.valid(),
        0 <= v < h.len(),
        plan::due(h.parents, from, merging, v),
    ensures
        h.seen_by(v).subset_of(upto(h, from, merging, v)),
        !upto(h, from, merging, v).contains(v),
        upto(h, from, merging, v + 1) == upto(h, from, merging, v).insert(v),
{
    let s = upto(h, from, merging, v);
    assert forall|a: int| #[trigger] h.seen_by(v).contains(a) implies s.contains(a) by {
        graph::lemma_parents_cone(h.parents, v, a);
        graph::lemma_cone_closed(h.parents, merging, v, a);
        graph::lemma_reaches_order(h.parents, v, a);
    }
    assert(upto(h, from, merging, v + 1) =~= s.insert(v));
}

/// Making the events that are due, in order and each in its place, turns the document at
/// one version into that of both versions together.
pub proof fn law_xf(h: Hist, from: Seq<usize>, merging: Seq<usize>)
    requires
        history::playable(h),
    ensures
        ({
            let doc = history::document(h, h.version(from));
            let list = xf_ops(h, from, merging);
            &&& xf_fits(doc, list)
            &&& after_xf(doc, list) == history::document(
                h,
                h.version(from).union(h.version(merging)),
            )
        }),
{
    let n = h.len() as int;
    lemma_xf(h, from, merging, n);
    let s = upto(h, from, merging, n);
    assert forall|a: int| #[trigger] s.contains(a) == h.version(from).union(
        h.version(merging),
    ).contains(a) by {
        if graph::in_cone(h.parents, merging, a) {
            graph::lemma_cone_order(h.parents, merging, a);
        }
    }
    assert(s =~= h.version(from).union(h.version(merging)));
}

pub proof fn lemma_xf(h: Hist, from: Seq<usize>, merging: Seq<usize>, k: int)
    requires
        history::playable(h),
        0 <= k <= h.len(),
    ensures
        ({
            let doc = history::document(h, h.version(from));
            let list = xf_to(h, from, merging, k);
            &&& xf_fits(doc, list)
            &&& after_xf(doc, list) == history::document(h, upto(h, from, merging, k))
        }),
    decreases k,
{
    let doc = history::document(h, h.version(from));
    if k == 0 {
        assert forall|a: int| #[trigger] upto(h, from, merging, 0).contains(a) == h.version(
            from,
        ).contains(a) by {
            if graph::in_cone(h.parents, merging, a) {
                graph::lemma_cone_order(h.parents, merging, a);
            }
        }
        assert(upto(h, from, merging, 0) =~= h.version(from));
    } else {
        let v = k - 1;
        lemma_xf(h, from, merging, v);
        if plan::due(h.parents, from, merging, v) {
            let before = xf_to(h, from, merging, v);
            let list = xf_to(h, from, merging, k);
            assert(list.drop_last() =~= before);
            lemma_seen_there(h, from, merging, v);
            lemma_there_closed(h, from, merging, v);
            history_laws::law_moved(h, upto(h, from, merging, v), v);
        } else {
            assert(upto(h, from, merging, k) =~= upto(h, from, merging, v));
        }
    }
}

/// An event that was made on the very document that it finds is taken as it is.
pub proof fn law_fast(h: Hist, from: Seq<usize>, merging: Seq<usize>, v: int)
    requires
        history::playable(h),
        h.len() <= usize::MAX,
        0 <= v < h.len(),
        plan::fast(h.parents, from, merging, v),
    ensures
        xf_at(h, from, merging, v).ev == Some(h.ops[v]),
{
    assert forall|a: int| #[trigger] upto(h, from, merging, v).contains(a) == h.seen_by(v).contains(
        a,
    ) by {
        plan::lemma_front(h.parents, from, merging, v, a);
    }
    assert(upto(h, from, merging, v) =~= h.seen_by(v));
    history_laws::law_unmoved(h, v);
}

/// An event in its place ends within as many characters as there are events.
pub proof fn lemma_place_bound(h: Hist, from: Seq<usize>, merging: Seq<usize>, v: int)
    requires
        history::playable(h),
        0 <= v < h.len(),
        plan::due(h.parents, from, merging, v),
    ensures
        xf_at(h, from, merging, v).ev matches Some(ev) ==> 0 <= pos_of(ev) < h.len()
            && same_kind(ev, h.ops[v]),
{
    let t = history::whole(h);
    let n = h.len() as int;
    let s = upto(h, from, merging, v);
    history_laws::lemma_track(h, n);
    lemma_few_items(h, t);
    let x = match h.ops[v] {
        EvOp::Ins { .. } => v,
        EvOp::Del { .. } => t.target[v],
    };
    assert(history_laws::has_item(t, x));
    let i = history::place_of(t.items, x);
    assert(t.items[i] == x);
    history::lemma_kept_len(t.items, history::shows(t, s), i);
}

// ---- results ----

/// A result of merging.
#[derive(Debug)]
pub enum TransformedResultRaw {
    /// Events that are to be taken as the log has them.
    FF(DTRange),
    /// An operation that is to be moved to `xf_pos`, with its first event.
    Apply { xf_pos: usize, op: KVPair<TextOperation> },
    /// Events that delete what is gone.
    DeleteAlreadyHappened(DTRange),
}

/// What a [`TransformedResultRaw`] says.
#[verifier::ext_equal]
pub enum RawAbs {
    FF { start: int, end: int },
    Apply { lv: int, xf_pos: int, op: OpAbs },
    Gone { start: int, end: int },
}

impl View for TransformedResultRaw {
    type V = RawAbs;

    open spec fn view(&self) -> RawAbs {
        match *self {
            TransformedResultRaw::FF(r) => RawAbs::FF { start: r.start as int, end: r.end as int },
            TransformedResultRaw::Apply { xf_pos, op } => RawAbs::Apply {
                lv: op.0 as int,
                xf_pos: xf_pos as int,
                op: op.1@,
            },
            TransformedResultRaw::DeleteAlreadyHappened(r) => RawAbs::Gone {
                start: r.start as int,
                end: r.end as int,
            },
        }
    }
}

pub open spec fn raws_view(list: Seq<TransformedResultRaw>) -> Seq<RawAbs> {
    list.map_values(|r: TransformedResultRaw| r@)
}

/// An operation moved to another place.
pub open spec fn moved_to(op: OpAbs, pos: int) -> OpAbs {
    OpAbs { start: pos, end: pos + op.size(), ..op }
}

/// Where an event has its place.
pub open spec fn pos_of(ev: EvOp) -> int {
    match ev {
        EvOp::Ins { pos, .. } => pos,
        EvOp::Del { pos } => pos,
    }
}

/// The results with one more event.
pub open spec fn raw_step(
    log: ListOpLog,
    before: Seq<RawAbs>,
    v: int,
    ff: bool,
    ev: Option<EvOp>,
) -> Seq<RawAbs> {
    if ff {
        match before.last() {
            RawAbs::FF { start, end } if before.len() > 0 && end == v => before.drop_last().push(
                RawAbs::FF { start, end: v + 1 },
            ),
            _ => before.push(RawAbs::FF { start: v, end: v + 1 }),
        }
    } else {
        match ev {
            Some(ev) => before.push(
                RawAbs::Apply {
                    lv: v,
                    xf_pos: pos_of(ev),
                    op: rle::piece::<TextOperation>(log.operations.runs(), v, v + 1),
                },
            ),
            None => match before.last() {
                RawAbs::Gone { start, end } if before.len() > 0 && end == v => before.drop_last().push(
                    RawAbs::Gone { start, end: v + 1 },
                ),
                _ => before.push(RawAbs::Gone { start: v, end: v + 1 }),
            },
        }
    }
}

/// The results for the events before `k`.
pub open spec fn raws_to(
    log: ListOpLog,
    from: Seq<usize>,
    merging: Seq<usize>,
    allow_ff: bool,
    k: int,
) -> Seq<RawAbs>
    decreases k,
{
    let h = log.hist();
    if k <= 0 {
        Seq::empty()
    } else {
        let before = raws_to(log, from, merging, allow_ff, k - 1);
        if plan::due(h.parents, from, merging, k - 1) {
            raw_step(
                log,
                before,
                k - 1,
                allow_ff && plan::fast(h.parents, from, merging, k - 1),
                xf_at(h, from, merging, k - 1).ev,
            )
        } else {
            before
        }
    }
}

pub open spec fn unchanged(h: Hist, v: int) -> Xf {
    Xf { lv: v, ev: Some(h.ops[v]) }
}

pub open spec fn applied(op: OpAbs, lv: int, k: int) -> Xf {
    Xf { lv: lv + k, ev: Some(op.event(k)) }
}

/// The events of a result.
pub open spec fn xfs_of(h: Hist, raw: RawAbs) -> Seq<Xf> {
    match raw {
        RawAbs::FF { start, end } => Seq::new(
            (end - start) as nat,
            |k: int| unchanged(h, start + k),
        ),
        RawAbs::Apply { lv, xf_pos, op } => Seq::new(
            op.size() as nat,
            |k: int| applied(moved_to(op, xf_pos), lv, k),
        ),
        RawAbs::Gone { start, end } => Seq::new(
            (end - start) as nat,
            |k: int| Xf { lv: start + k, ev: None },
        ),
    }
}

/// The events of results.
pub open spec fn xfs_all(h: Hist, raws: Seq<RawAbs>) -> Seq<Xf>
    decreases raws.len(),
{
    if raws.len() == 0 {
        Seq::empty()
    } else {
        xfs_all(h, raws.drop_last()) + xfs_of(h, raws.last())
    }
}

/// Whether a result stands for events.
spec fn sound(raw: RawAbs) -> bool {
    match raw {
        RawAbs::FF { start, end } => start < end,
        RawAbs::Apply { op, .. } => op.valid() && op.size() == 1,
        RawAbs::Gone { start, end } => start < end,
    }
}

spec fn all_sound(raws: Seq<RawAbs>) -> bool {
    forall|i: int| 0 <= i < raws.len() ==> sound(#[trigger] raws[i])
}

proof fn lemma_raw_step(log: ListOpLog, before: Seq<RawAbs>, v: int, ff: bool, ev: Option<EvOp>)
    requires
        log.inv(),
        0 <= v < log.size(),
        all_sound(before),
        ff ==> ev == Some(log.hist().ops[v]),
        ev matches Some(e) ==> same_kind(e, log.hist().ops[v]),
    ensures
        all_sound(raw_step(log, before, v, ff, ev)),
        xfs_all(log.hist(), raw_step(log, before, v, ff, ev)) == xfs_all(log.hist(), before).push(
            Xf { lv: v, ev },
        ),
{
    let h = log.hist();
    let out = raw_step(log, before, v, ff, ev);
    let runs = log.operations.runs();
    rle::lemma_packed::<TextOperation>(runs, v);
    let last = out.last();
    if before.len() > 0 {
        assert(sound(before[before.len() - 1]));
    }
    if out.len() > before.len() {
        assert(out.drop_last() =~= before);
        if !ff && ev is Some {
            let i = rle::run_of::<TextOperation>(runs, v);
            assert(rle::covers::<TextOperation>(runs, i, v));
            rle::lemma_piece::<TextOperation>(runs, v, v + 1);
            let op = rle::piece::<TextOperation>(runs, v, v + 1);
            assert(TextOperation::item(op, v, 0) == rle::at::<TextOperation>(runs, v));
            reveal(oplog::op_at);
            assert(op.event(0) == h.ops[v]);
            let m = moved_to(op, pos_of(ev->0));
            assert(m.event(0) == ev->0);
        }
        assert(xfs_of(h, last) =~= seq![Xf { lv: v, ev }]);
        assert(xfs_all(h, out) =~= xfs_all(h, before).push(Xf { lv: v, ev }));
    } else {
        assert(out.drop_last() =~= before.drop_last());
        assert(xfs_of(h, last) =~= xfs_of(h, before.last()).push(Xf { lv: v, ev }));
        assert(xfs_all(h, out) =~= xfs_all(h, before).push(Xf { lv: v, ev }));
    }
}

/// Whether two events do the same but for the place.
pub open spec fn same_kind(a: EvOp, b: EvOp) -> bool {
    match (a, b) {
        (EvOp::Ins { ch: x, .. }, EvOp::Ins { ch: y, .. }) => x == y,
        (EvOp::Del { .. }, EvOp::Del { .. }) => true,
        _ => false,
    }
}

/// The results stand for the events that are due, each in its place: taking an event as
/// it is, where that is allowed, makes no difference.
pub proof fn law_raws(
    log: ListOpLog,
    from: Seq<usize>,
    merging: Seq<usize>,
    allow_ff: bool,
)
    requires
        log.inv(),
        history::playable(log.hist()),
    ensures
        xfs_all(log.hist(), raws_to(log, from, merging, allow_ff, log.size())) == xf_ops(
            log.hist(),
            from,
            merging,
        ),
{
    log.lemma_hist();
    lemma_raws(log, from, merging, allow_ff, log.size());
}

proof fn lemma_raws(
    log: ListOpLog,
    from: Seq<usize>,
    merging: Seq<usize>,
    allow_ff: bool,
    k: int,
)
    requires
        log.inv(),
        history::playable(log.hist()),
        0 <= k <= log.size(),
    ensures
        all_sound(raws_to(log, from, merging, allow_ff, k)),
        xfs_all(log.hist(), raws_to(log, from, merging, allow_ff, k)) == xf_to(
            log.hist(),
            from,
            merging,
            k,
        ),
    decreases k,
{
    let h = log.hist();
    log.lemma_hist();
    if k > 0 {
        let v = k - 1;
        lemma_raws(log, from, merging, allow_ff, v);
        if plan::due(h.parents, from, merging, v) {
            let ff = allow_ff && plan::fast(h.parents, from, merging, v);
            let ev = xf_at(h, from, merging, v).ev;
            if ff {
                law_fast(h, from, merging, v);
            }
            lemma_raw_step(log, raws_to(log, from, merging, allow_ff, v), v, ff, ev);
        }
    }
}

// ---- working the results out ----

impl Tracker {
    /// How many of the items before item `x` the document shows.
    fn rank_of(
        &self,
        marks: &Vec<bool>,
        gone: &Vec<bool>,
        x: usize,
        Ghost(h): Ghost<Hist>,
        Ghost(s): Ghost<Set<int>>,
    ) -> (out: usize)
        requires
            history::playable(h),
            self.is(h, h.len() as int),
            tracker::marked(history::whole(h), s, marks@, gone@, h.len() as int),
            x < h.len(),
            history_laws::has_item(history::whole(h), x as int),
        ensures
            out == history::rank(
                history::whole(h),
                s,
                history::place_of(history::whole(h).items, x as int),
            ),
            out < self.items@.len() <= h.len(),
    {
        let ghost t = history::whole(h);
        let ghost n = h.len() as int;
        let ghost at = history::place_of(t.items, x as int);
        proof {
            history_laws::lemma_track(h, n);
            assert(t.items[at] == x);
            history_laws::lemma_place_of(h, t, n, at);
            lemma_few_items(h, t);
        }
        let mut i: usize = 0;
        let mut count: usize = 0;
        while self.items[i] != x
            invariant
                t == history::whole(h),
                n == h.len(),
                n <= NONE,
                t.items == tracker::codes(self.items@),
                tracker::marked(t, s, marks@, gone@, n),
                history_laws::track_ok(h, t, n),
                forall|j: int| 0 <= j < self.items@.len() ==> (#[trigger] self.items@[j]) < n,
                0 <= at < self.items@.len(),
                t.items[at] == x,
                i <= at,
                count <= i,
                count == history::rank(t, s, i as int),
            decreases at - i,
        {
            let y = self.items[i];
            assert(i < self.items.len());
            assert(t.items[i as int] == y);
            assert(history::shows(t, s)(y as int) == (marks@[y as int] && !gone@[y as int]));
            if marks[y] && !gone[y] {
                count += 1;
            }
            i += 1;
        }
        proof {
            assert(t.items[i as int] == x);
            history_laws::lemma_place_of(h, t, n, i as int);
        }
        count
    }
}

/// There are no more items than events.
pub proof fn lemma_few_items(h: Hist, t: Track)
    requires
        history_laws::track_ok(h, t, h.len() as int),
    ensures
        t.items.len() <= h.len(),
{
    let n = h.len() as int;
    assert forall|i: int| 0 <= i < t.items.len() implies 0 <= #[trigger] t.items[i] < n by {}
    assert(t.items.no_duplicates()) by {
        assert forall|i: int, j: int| 0 <= i < t.items.len() && 0 <= j < t.items.len() && i
            != j implies t.items[i] != t.items[j] by {
            if i < j {
                assert(t.items[i] != t.items[j]);
            } else {
                assert(t.items[j] != t.items[i]);
            }
        }
    }
    t.items.unique_seq_to_set();
    let all = vstd::set_lib::set_int_range(0, n);
    vstd::set_lib::lemma_int_range(0, n);
    assert(t.items.to_set().subset_of(all)) by {
        assert forall|x: int| t.items.to_set().contains(x) implies all.contains(x) by {
            let i = t.items.index_of(x);
            assert(t.items[i] == x);
        }
    }
    vstd::set_lib::lemma_len_subset(t.items.to_set(), all);
}

fn push_ff(out: &mut Vec<TransformedResultRaw>, v: usize, Ghost(log): Ghost<ListOpLog>, Ghost(
    ev,
): Ghost<Option<EvOp>>)
    requires
        v < usize::MAX,
    ensures
        raws_view(final(out)@) == raw_step(log, raws_view(old(out)@), v as int, true, ev),
{
    let n = out.len();
    if n > 0 {
        if let TransformedResultRaw::FF(r) = out[n - 1] {
            if r.end == v {
                out.set(n - 1, TransformedResultRaw::FF(DTRange { start: r.start, end: v + 1 }));
                assert(raws_view(out@) =~= raw_step(log, raws_view(old(out)@), v as int, true, ev));
                return ;
            }
        }
    }
    out.push(TransformedResultRaw::FF(DTRange { start: v, end: v + 1 }));
    assert(raws_view(out@) =~= raw_step(log, raws_view(old(out)@), v as int, true, ev));
}

fn push_gone(out: &mut Vec<TransformedResultRaw>, v: usize, Ghost(log): Ghost<ListOpLog>)
    requires
        v < usize::MAX,
    ensures
        raws_view(final(out)@) == raw_step(log, raws_view(old(out)@), v as int, false, None),
{
    let n = out.len();
    if n > 0 {
        if let TransformedResultRaw::DeleteAlreadyHappened(r) = out[n - 1] {
            if r.end == v {
                out.set(
                    n - 1,
                    TransformedResultRaw::DeleteAlreadyHappened(
                        DTRange { start: r.start, end: v + 1 },
                    ),
                );
                assert(raws_view(out@) =~= raw_step(
                    log,
                    raws_view(old(out)@),
                    v as int,
                    false,
                    None,
                ));
                return ;
            }
        }
    }
    out.push(TransformedResultRaw::DeleteAlreadyHappened(DTRange { start: v, end: v + 1 }));
    assert(raws_view(out@) =~= raw_step(log, raws_view(old(out)@), v as int, false, None));
}

/// What is there after one more event.
proof fn lemma_taken(
    h: Hist,
    from: Seq<usize>,
    merging: Seq<usize>,
    v: int,
    marks: Seq<bool>,
    gone: Seq<bool>,
    marks2: Seq<bool>,
    gone2: Seq<bool>,
)
    requires
        history::playable(h),
        0 <= v < h.len(),
        plan::due(h.parents, from, merging, v),
        tracker::marked(history::whole(h), upto(h, from, merging, v), marks, gone, h.len() as int),
        marks2 == marks.update(v, true),
        gone2 == (if history::whole(h).target[v] < 0 {
            gone
        } else {
            gone.update(history::whole(h).target[v], true)
        }),
    ensures
        tracker::marked(
            history::whole(h),
            upto(h, from, merging, v + 1),
            marks2,
            gone2,
            h.len() as int,
        ),
{
    let t = history::whole(h);
    let s = upto(h, from, merging, v);
    let s2 = upto(h, from, merging, v + 1);
    history_laws::lemma_track(h, h.len() as int);
    lemma_seen_there(h, from, merging, v);
    assert forall|x: int| 0 <= x < h.len() implies #[trigger] gone2[x] == history::gone(
        t,
        s2,
        x,
    ) by {
        assert(gone[x] == history::gone(t, s, x));
        if history::gone(t, s2, x) {
            let d = choose|d: int|
                0 <= d < t.target.len() && s2.contains(d) && #[trigger] t.target[d] == x;
            if d != v {
                assert(s.contains(d));
            }
        }
        if history::gone(t, s, x) {
            let d = choose|d: int|
                0 <= d < t.target.len() && s.contains(d) && #[trigger] t.target[d] == x;
            assert(s2.contains(d));
        }
        if t.target[v] == x {
            assert(s2.contains(v));
        }
    }
}

impl ListOpLog {
    /// Works out the events that have to be made to bring the document at one version
    /// up to another.
    #[verifier::rlimit(50)]
    pub fn transform(&self, from: &[LV], merging: &[LV], allow_ff: bool) -> (out: Vec<
        TransformedResultRaw,
    >)
        requires
            self.inv(),
            history::playable(self.hist()),
            graph::known(self.cg.parents(), from@),
            graph::known(self.cg.parents(), merging@),
        ensures
            raws_view(out@) == raws_to(*self, from@, merging@, allow_ff, self.size()),
    {
        let ghost h = self.hist();
        let ghost g = self.cg.parents();
        let ghost whole = history::whole(h);
        proof {
            self.lemma_hist();
            history_laws::lemma_track(h, h.len() as int);
        }
        let n = self.len();
        let t = replay(self).unwrap();
        let have = self.cg.graph.cone_marks(from);
        let want = self.cg.graph.cone_marks(merging);
        let mut marks = self.cg.graph.cone_marks(from);
        let ghost s0 = upto(h, from@, merging@, 0);
        proof {
            assert forall|x: int| 0 <= x < n implies #[trigger] marks@[x] == s0.contains(x) by {}
        }
        let mut gone = tracker::gone_marks(&t.target, &marks, Ghost(whole), Ghost(s0));
        let mut front = frontier::copy_of(from);
        let mut out: Vec<TransformedResultRaw> = Vec::new();
        assert(raws_view(out@) =~= raws_to(*self, from@, merging@, allow_ff, 0));
        let mut v: usize = 0;
        while v < n
            invariant
                self.inv(),
                h == self.hist(),
                g == self.cg.parents(),
                whole == history::whole(h),
                history::playable(h),
                history_laws::track_ok(h, whole, h.len() as int),
                n == self.size(),
                h.len() == n,
                n <= NONE,
                v <= n,
                t.is(h, n as int),
                have@.len() == n,
                want@.len() == n,
                forall|a: int| 0 <= a < n ==> #[trigger] have@[a] == graph::in_cone(g, from@, a),
                forall|a: int| 0 <= a < n ==> #[trigger] want@[a] == graph::in_cone(g, merging@, a),
                tracker::marked(
                    whole,
                    upto(h, from@, merging@, v as int),
                    marks@,
                    gone@,
                    n as int,
                ),
                front@ == plan::front_at(g, from@, merging@, v as int),
                raws_view(out@) == raws_to(*self, from@, merging@, allow_ff, v as int),
            decreases n - v,
        {
            let ghost s = upto(h, from@, merging@, v as int);
            if want[v] && !have[v] {
                let parents = self.cg.graph.parents_at(v);
                let ff = allow_ff && frontier::same_list(parents.as_ref(), front.as_slice());
                let x = t.target[v];
                let ghost ev = xf_at(h, from@, merging@, v as int).ev;
                assert(whole.target[v as int] == tracker::code(x));
                assert(x == NONE <==> h.ops[v as int] is Ins);
                if ff {
                    push_ff(&mut out, v, Ghost(*self), Ghost(ev));
                } else if x != NONE && gone[x] {
                    push_gone(&mut out, v, Ghost(*self));
                } else {
                    let item = if x == NONE {
                        v
                    } else {
                        x
                    };
                    assert(history_laws::has_item(whole, item as int));
                    let pos = t.rank_of(&marks, &gone, item, Ghost(h), Ghost(s));
                    proof {
                        rle::lemma_packed::<TextOperation>(self.operations.runs(), v as int);
                        lemma_one(self.operations.runs(), v as int);
                    }
                    let op = self.operations.piece_at(v, v + 1);
                    let ghost before = raws_view(out@);
                    out.push(TransformedResultRaw::Apply { xf_pos: pos, op: KVPair(v, op) });
                    assert(raws_view(out@) =~= raw_step(*self, before, v as int, false, ev));
                }
                let ghost was_marks = marks@;
                let ghost was_gone = gone@;
                marks.set(v, true);
                if x != NONE {
                    gone.set(x, true);
                }
                proof {
                    lemma_taken(
                        h,
                        from@,
                        merging@,
                        v as int,
                        was_marks,
                        was_gone,
                        marks@,
                        gone@,
                    );
                }
                front = plan::without(&front, parents.as_ref());
                front.push(v);
            } else {
                assert(upto(h, from@, merging@, v + 1) =~= s);
            }
            v += 1;
        }
        out
    }
}

/// One key of a run is part of the run.
proof fn lemma_one(runs: Runs<OpAbs>, v: int)
    requires
        rle::sorted::<TextOperation>(runs),
        rle::has::<TextOperation>(runs, v),
    ensures
        v + 1 <= rle::break_after::<TextOperation>(runs, v, v + 1),
{
    let i = rle::run_of::<TextOperation>(runs, v);
    assert(rle::covers::<TextOperation>(runs, i, v));
}

} // verus!
