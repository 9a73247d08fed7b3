//! Updates and patches in the form in which peers exchange them: events are named by
//! texts, and edits are replacements of ranges of the text.

use crate::agent_assignment::LV;
use crate::branch;
use crate::decimal;
use crate::decimal::{digits_value, push_decimal};
use crate::events;
use crate::events::EventAbs;
use crate::frontier::Frontier;
use crate::full_range::GraphEntrySimple;
use crate::graph;
use crate::graph::GraphRun;
use crate::history;
use crate::history::Hist;
use crate::observed_history;
use crate::observed_history::{Update, UpdateAbs};
use crate::operation::{EvOp, ListOpKind, OpAbs, TextOperation};
use crate::oplog;
use crate::oplog::ListOpLog;
use crate::patches;
use crate::patches::{Patch, Replacement};
use crate::range::DTRange;
use crate::relative_to_absolute;
use crate::relative_to_absolute::relative_to_absolute_patches;
use crate::remote_ops;
use crate::remote_ops::{parse_remote_ids, VersionNotFound};
use crate::rle;
use crate::rle::RleVal;
use crate::segments::HUGE;
use crate::smart_string::SmartString;
use crate::sorting;
use crate::sorting::sorted_texts;
use crate::text::chars_of;
use crate::travel;
use crate::xf_absolute;
use crate::xf_runs;
use crate::xf_runs::XfRun;
use vstd::prelude::*;

verus! {

// ---- texts ----

/// The text that names an event.
pub open spec fn event_text(id: (Seq<char>, int)) -> Seq<char> {
    id.0.push('-') + decimal::decimal(id.1)
}

/// The text for a range.
pub open spec fn range_text(start: int, end: int) -> Seq<char> {
    (Seq::empty().push('[') + decimal::decimal(start)).push(':') + decimal::decimal(end).push(']')
}

fn name_event(name: &str, seq: usize) -> (out: String)
    ensures
        out@ == event_text((name@, seq as int)),
{
    let mut out = String::new();
    out.append(name);
    out.push('-');
    push_decimal(&mut out, seq);
    assert(out@ =~= event_text((name@, seq as int)));
    out
}

fn write_range(start: usize, end: usize) -> (out: String)
    ensures
        out@ == range_text(start as int, end as int),
{
    let mut out = String::new();
    out.push('[');
    push_decimal(&mut out, start);
    out.push(':');
    push_decimal(&mut out, end);
    out.push(']');
    assert(out@ =~= range_text(start as int, end as int));
    out
}

// ---- patches ----

/// A replacement of a range of what is counted in `unit`.
#[derive(Debug, PartialEq, Eq)]
pub struct RangePatch {
    pub unit: &'static str,
    pub range: String,
    pub content: String,
}

/// Whether a patch says that `start..end` of the text becomes `content`.
pub open spec fn is_patch(p: RangePatch, start: int, end: int, content: Seq<char>) -> bool {
    &&& p.unit@ == "text"@
    &&& p.range@ == range_text(start, end)
    &&& p.content@ == content
}

/// Whether patches say what replacements say.
pub open spec fn are_patches(out: Seq<RangePatch>, list: Seq<Patch>) -> bool {
    &&& out.len() == list.len()
    &&& forall|i: int|
        0 <= i < out.len() ==> is_patch(
            #[trigger] out[i],
            list[i].start,
            list[i].end,
            list[i].content,
        )
}

pub fn to_range_patch(r: &Replacement) -> (out: RangePatch)
    ensures
        is_patch(out, r@.start, r@.end, r@.content),
{
    RangePatch {
        unit: "text",
        range: write_range(r.range.start, r.range.end),
        content: r.content.to_string(),
    }
}

fn to_range_patches(list: &Vec<Replacement>) -> (out: Vec<RangePatch>)
    ensures
        are_patches(out@, patches::patches_of(list@)),
{
    let ghost told = patches::patches_of(list@);
    let mut out: Vec<RangePatch> = Vec::new();
    let mut i: usize = 0;
    while i < list.len()
        invariant
            told == patches::patches_of(list@),
            i <= list@.len(),
            out@.len() == i,
            forall|j: int|
                0 <= j < i ==> is_patch(
                    #[trigger] out@[j],
                    told[j].start,
                    told[j].end,
                    told[j].content,
                ),
        decreases list@.len() - i,
    {
        assert(told[i as int] == list@[i as int]@);
        out.push(to_range_patch(&list[i]));
        i += 1;
    }
    out
}

/// The transformed changes since a version, as patches of the text at that version.
pub fn get_xf_patches(oplog: &ListOpLog, since: &[LV]) -> (out: Vec<RangePatch>)
    requires
        oplog.inv(),
        oplog.size() < HUGE,
        history::playable(oplog.hist()),
        graph::known(oplog.cg.parents(), since@),
    ensures
        are_patches(
            out@,
            patches::absolute(
                xf_absolute::run_patches(
                    xf_runs::xf_runs(*oplog, since@, oplog.cg.version@),
                ),
            ),
        ),
{
    let list = oplog.xf_absolute_since(since);
    to_range_patches(&list)
}

// ---- ranges ----

/// The first place from `from` on, or the end, where being a digit is not as given.
pub open spec fn skip_digits(s: Seq<char>, from: int, digits: bool) -> int
    decreases s.len() - from,
{
    if 0 <= from < s.len() && decimal::is_digit(s[from]) == digits {
        skip_digits(s, from + 1, digits)
    } else {
        from
    }
}

/// The first group of digits from `from` on, which is empty if there is none.
pub open spec fn group_in(s: Seq<char>, from: int) -> (int, int) {
    let a = skip_digits(s, from, false);
    (a, skip_digits(s, a, true))
}

pub open spec fn group_value(s: Seq<char>, group: (int, int)) -> int {
    decimal::value(s.subrange(group.0, group.1))
}

/// The first two groups of digits of a text.
pub open spec fn groups_in(s: Seq<char>) -> ((int, int), (int, int)) {
    let first = group_in(s, 0);
    (first, group_in(s, first.1))
}

/// Whether one of the first two groups of digits is too large a number.
pub open spec fn range_too_large(s: Seq<char>) -> bool {
    let (a, b) = groups_in(s);
    group_value(s, a) > usize::MAX || group_value(s, b) > usize::MAX
}

/// The range that a text states by its first two groups of digits; none if there
/// are fewer.
pub open spec fn range_in(s: Seq<char>) -> Option<(int, int)> {
    let (a, b) = groups_in(s);
    if b.0 < b.1 {
        Some((group_value(s, a), group_value(s, b)))
    } else {
        None
    }
}

/// Why a text states no range.
#[derive(Debug, Clone, Copy, PartialEq, Eq, Structural)]
pub enum RangeError {
    /// It has fewer than two groups of digits.
    Bad,
    /// A number is too large.
    TooLarge,
}

fn skip_to(chars: &Vec<char>, from: usize, digits: bool) -> (out: usize)
    requires
        from <= chars@.len(),
    ensures
        out == skip_digits(chars@, from as int, digits),
        from <= out <= chars@.len(),
        forall|i: int| from <= i < out ==> decimal::is_digit(#[trigger] chars@[i]) == digits,
        out < chars@.len() ==> decimal::is_digit(chars@[out as int]) != digits,
{
    let mut i: usize = from;
    while i < chars.len() && is_digit_char(chars[i]) == digits
        invariant
            from <= i <= chars@.len(),
            skip_digits(chars@, i as int, digits) == skip_digits(chars@, from as int, digits),
            forall|j: int| from <= j < i ==> decimal::is_digit(#[trigger] chars@[j]) == digits,
        decreases chars@.len() - i,
    {
        i += 1;
    }
    i
}

fn is_digit_char(c: char) -> (out: bool)
    ensures
        out == decimal::is_digit(c),
{
    '0' <= c && c <= '9'
}

/// The number of a group of digits: zero if it is empty, none if it is too large.
fn group_number(chars: &Vec<char>, from: usize, to: usize) -> (out: Option<usize>)
    requires
        from <= to <= chars@.len(),
        forall|i: int| from <= i < to ==> decimal::is_digit(#[trigger] chars@[i]),
    ensures
        match out {
            Some(n) => group_value(chars@, (from as int, to as int)) == n,
            None => group_value(chars@, (from as int, to as int)) > usize::MAX,
        },
{
    let ghost t = chars@.subrange(from as int, to as int);
    if from == to {
        assert(t =~= Seq::<char>::empty());
        return Some(0);
    }
    assert(decimal::all_digits(t)) by {
        assert forall|i: int| 0 <= i < t.len() implies decimal::is_digit(#[trigger] t[i]) by {
            assert(t[i] == chars@[from + i]);
        }
    }
    digits_value(chars.as_slice(), from, to)
}

/// The range that a text states by its first two groups of digits.
pub fn parse_range(text: &str) -> (out: Result<DTRange, RangeError>)
    ensures
        match out {
            Ok(r) => !range_too_large(text@) && range_in(text@) == Some(
                (r.start as int, r.end as int),
            ),
            Err(RangeError::TooLarge) => range_too_large(text@),
            Err(RangeError::Bad) => !range_too_large(text@) && range_in(text@) is None,
        },
{
    let chars = chars_of(text);
    let a = skip_to(&chars, 0, false);
    let b = skip_to(&chars, a, true);
    let c = skip_to(&chars, b, false);
    let d = skip_to(&chars, c, true);
    match (group_number(&chars, a, b), group_number(&chars, c, d)) {
        (Some(start), Some(end)) => {
            if c == d {
                Err(RangeError::Bad)
            } else {
                Ok(DTRange { start, end })
            }
        },
        _ => Err(RangeError::TooLarge),
    }
}

/// Replacements as they are given: a text that states a range, and the new text.
#[derive(Debug)]
pub struct TextPatch {
    pub range: String,
    pub content: String,
}

/// What given replacements say.
pub open spec fn given(list: Seq<TextPatch>) -> Seq<Patch> {
    list.map_values(|p: TextPatch| given_patch(p))
}

pub open spec fn given_patch(p: TextPatch) -> Patch {
    let (start, end) = match range_in(p.range@) {
        Some(r) => r,
        None => (0int, 0int),
    };
    Patch { start, end, content: p.content@ }
}

/// A text that states no range.
#[derive(Debug, PartialEq, Eq)]
pub struct BadRange(pub String);

/// Whether the first replacements state a range.
pub open spec fn stated(list: Seq<TextPatch>, count: int) -> bool {
    forall|i: int| 0 <= i < count ==> range_in((#[trigger] list[i]).range@) is Some
}

/// Whether no number is too large, as far as the replacements are read.
pub open spec fn numbers_fit(list: Seq<TextPatch>) -> bool {
    forall|i: int|
        0 <= i < list.len() && stated(list, i) ==> !range_too_large((#[trigger] list[i]).range@)
}

/// Whether the first replacement that states no range has this text in its place.
pub open spec fn first_bad(list: Seq<TextPatch>, text: Seq<char>) -> bool {
    exists|i: int|
        0 <= i < list.len() && stated(list, i) && text == (#[trigger] list[i]).range@ && range_in(
            text,
        ) is None
}

/// The replacements that are given, up to the first one that states no range.
pub fn read_patches(list: &[TextPatch]) -> (out: Result<Vec<Replacement>, BadRange>)
    requires
        numbers_fit(list@),
    ensures
        match out {
            Ok(rel) => {
                &&& stated(list@, list@.len() as int)
                &&& patches::patches_of(rel@) == given(list@)
            },
            Err(e) => first_bad(list@, e.0@),
        },
{
    let mut rel: Vec<Replacement> = Vec::new();
    let mut i: usize = 0;
    while i < list.len()
        invariant
            i <= list@.len(),
            numbers_fit(list@),
            stated(list@, i as int),
            rel@.len() == i,
            forall|j: int| 0 <= j < i ==> (#[trigger] rel@[j])@ == given_patch(list@[j]),
        decreases list@.len() - i,
    {
        let p = &list[i];
        match parse_range(p.range.as_str()) {
            Ok(range) => {
                let r = Replacement {
                    range,
                    content: SmartString::from_text(p.content.as_str()),
                };
                assert(r@ =~= given_patch(list@[i as int]));
                rel.push(r);
            },
            Err(_) => {
                return Err(BadRange(p.range.clone()));
            },
        }
        i += 1;
    }
    assert(patches::patches_of(rel@) =~= given(list@));
    Ok(rel)
}

/// Converts replacements that are each to be made on top of the ones before it to
/// such that all refer to the text before any of them.
pub fn relative_to_absolute_patches_js(list: &[TextPatch]) -> (out: Result<
    Vec<RangePatch>,
    BadRange,
>)
    requires
        numbers_fit(list@),
        stated(list@, list@.len() as int) ==> relative_to_absolute::convertible(given(list@)),
    ensures
        match out {
            Ok(res) => {
                &&& stated(list@, list@.len() as int)
                &&& are_patches(res@, patches::absolute(given(list@)))
            },
            Err(e) => first_bad(list@, e.0@),
        },
{
    match read_patches(list) {
        Ok(rel) => {
            let res = relative_to_absolute_patches(rel.as_slice());
            Ok(to_range_patches(&res))
        },
        Err(e) => Err(e),
    }
}

// ---- updates ----

/// An update as peers exchange it.
#[derive(Debug, PartialEq, Eq)]
pub struct BraidUpdate {
    /// The last event of the run that the update is. A version may be several events, but
    /// the one that an update arrives at is always one.
    pub version: Vec<String>,
    /// The first event of the run, which is the one that follows `parents`.
    pub first_event: String,
    /// The events that the update follows, in dictionary order.
    pub parents: Vec<String>,
    pub patches: Vec<RangePatch>,
}

/// The texts that name events.
pub open spec fn event_texts(ids: Seq<(Seq<char>, int)>) -> Seq<Seq<char>> {
    ids.map_values(|id: (Seq<char>, int)| event_text(id))
}

/// Whether an update says what another one says.
pub open spec fn says(h: Hist, out: BraidUpdate, u: UpdateAbs) -> bool {
    let first = u.seq_end + 1 - (u.pos_end - u.pos_start);
    &&& sorting::texts_of(out.version@) == seq![event_text((u.name, u.seq_end))]
    &&& out.first_event@ == event_text((u.name, first))
    &&& sorting::texts_in_order(sorting::texts_of(out.parents@))
    &&& sorting::texts_of(out.parents@).to_multiset() == event_texts(
        events::ids_of(h, u.parents),
    ).to_multiset()
    &&& out.patches@.len() == 1
    &&& match u.content {
        // An insert replaces nothing, a delete what it removes.
        Some(c) => is_patch(out.patches@[0], u.pos_start, u.pos_start, c),
        None => is_patch(out.patches@[0], u.pos_start, u.pos_end, Seq::empty()),
    }
}

/// Whether updates say what others say.
pub open spec fn all_say(h: Hist, out: Seq<BraidUpdate>, list: Seq<UpdateAbs>) -> bool {
    &&& out.len() == list.len()
    &&& forall|i: int| 0 <= i < out.len() ==> says(h, #[trigger] out[i], list[i])
}

fn name_parents(oplog: &ListOpLog, parents: &Frontier) -> (out: Vec<String>)
    requires
        oplog.inv(),
        graph::known(oplog.cg.parents(), parents@),
    ensures
        sorting::texts_of(out@) == event_texts(events::ids_of(oplog.hist(), parents@)),
{
    let ghost h = oplog.hist();
    let ghost ids = events::ids_of(h, parents@);
    let mut out: Vec<String> = Vec::new();
    let mut i: usize = 0;
    while i < parents.0.len()
        invariant
            oplog.inv(),
            h == oplog.hist(),
            graph::known(oplog.cg.parents(), parents@),
            ids == events::ids_of(h, parents@),
            i <= parents@.len(),
            out@.len() == i,
            forall|j: int| 0 <= j < i ==> (#[trigger] out@[j])@ == event_text(ids[j]),
        decreases parents@.len() - i,
    {
        proof {
            oplog.lemma_hist();
            assert(parents@[i as int] < oplog.cg.parents().len());
            assert(ids[i as int] == h.ids[parents@[i as int] as int]);
        }
        let rv = oplog.cg.agent_assignment.local_to_remote_version(parents.0[i]);
        out.push(name_event(rv.0, rv.1));
        i += 1;
    }
    assert(sorting::texts_of(out@) =~= event_texts(ids));
    out
}

pub fn to_update(u: &Update, oplog: &ListOpLog) -> (out: BraidUpdate)
    requires
        oplog.inv(),
        observed_history::update_ok(oplog.hist(), u@),
    ensures
        says(oplog.hist(), out, u@),
{
    // A version is a set. Sorting gives it an order, so that peers that name the
    // same parents make the same list.
    let parents = sorted_texts(name_parents(oplog, &u.parents));
    let agent = u.agent.to_string();
    // There is one event per character.
    let first_seq = u.seq_end + 1 - (u.pos_end - u.pos_start);
    let mut version: Vec<String> = Vec::new();
    version.push(name_event(agent.as_str(), u.seq_end));
    let patch = match &u.content {
        Some(c) => RangePatch {
            unit: "text",
            range: write_range(u.pos_start, u.pos_start),
            content: c.to_string(),
        },
        None => RangePatch {
            unit: "text",
            range: write_range(u.pos_start, u.pos_end),
            content: String::new(),
        },
    };
    let mut patches: Vec<RangePatch> = Vec::new();
    patches.push(patch);
    let out = BraidUpdate {
        version,
        first_event: name_event(agent.as_str(), first_seq),
        parents,
        patches,
    };
    assert(sorting::texts_of(out.version@) =~= seq![event_text((u@.name, u@.seq_end))]);
    out
}

pub fn to_updates(updates: &Vec<Update>, oplog: &ListOpLog) -> (out: Vec<BraidUpdate>)
    requires
        oplog.inv(),
        observed_history::updates_ok(oplog.hist(), observed_history::updates_view(updates@)),
    ensures
        all_say(oplog.hist(), out@, observed_history::updates_view(updates@)),
{
    let ghost list = observed_history::updates_view(updates@);
    let mut out: Vec<BraidUpdate> = Vec::new();
    let mut i: usize = 0;
    while i < updates.len()
        invariant
            oplog.inv(),
            list == observed_history::updates_view(updates@),
            observed_history::updates_ok(oplog.hist(), list),
            i <= updates@.len(),
            out@.len() == i,
            forall|j: int| 0 <= j < i ==> says(oplog.hist(), #[trigger] out@[j], list[j]),
        decreases updates@.len() - i,
    {
        assert(list[i as int] == updates@[i as int]@);
        out.push(to_update(&updates[i], oplog));
        i += 1;
    }
    out
}

/// The names of the newest events of a version that may be given.
pub open spec fn since_texts(since: Option<&[String]>) -> Seq<Seq<char>> {
    match since {
        Some(ids) => sorting::texts_of(ids@),
        None => Seq::empty(),
    }
}

/// The updates since a version that is given by the names of its newest events; all
/// there are if none is given.
pub fn get_updates(oplog: &ListOpLog, since: Option<&[String]>) -> (out: Result<
    Vec<BraidUpdate>,
    VersionNotFound,
>)
    requires
        oplog.inv(),
    ensures
        match out {
            Ok(list) => {
                &&& remote_ops::all_named(oplog.hist(), since_texts(since))
                &&& all_say(
                    oplog.hist(),
                    list@,
                    observed_history::updates_from(
                        *oplog,
                        remote_ops::named_list(oplog.hist(), since_texts(since)),
                    ),
                )
            },
            Err(e) => remote_ops::first_unnamed(oplog.hist(), since_texts(since), e.0@),
        },
{
    let frontier: Vec<LV> = match since {
        None => {
            let root: Vec<LV> = Vec::new();
            assert(root@ =~= remote_ops::named_events(oplog.hist(), Seq::empty()));
            root
        },
        Some(ids) => match parse_remote_ids(oplog, ids, false) {
            Ok(list) => list,
            Err(e) => {
                return Err(e);
            },
        },
    };
    proof {
        remote_ops::lemma_named_list(oplog.hist(), since_texts(since), frontier@);
    }
    let updates = oplog.updates_since(frontier.as_slice());
    Ok(to_updates(&updates, oplog))
}

// ---- transformed operations ----

/// A transformed operation, and the name of the agent that wrote it.
#[derive(Debug, PartialEq, Eq)]
pub struct XfOp {
    pub agent: String,
    pub kind: &'static str,
    pub start: usize,
    pub end: usize,
    pub fwd: bool,
    pub content: String,
}

/// The runs that do something.
pub open spec fn applied(runs: Seq<XfRun>) -> Seq<XfRun>
    decreases runs.len(),
{
    if runs.len() == 0 {
        Seq::empty()
    } else {
        let before = applied(runs.drop_last());
        if runs.last().op is Some {
            before.push(runs.last())
        } else {
            before
        }
    }
}

/// Whether an operation says what a run says.
pub open spec fn says_run(h: Hist, x: XfOp, run: XfRun) -> bool {
    run.op matches Some(op) && {
        &&& x.agent@ == h.ids[run.start].0
        &&& x.kind@ == match op.kind {
            ListOpKind::Ins => "Ins"@,
            ListOpKind::Del => "Del"@,
        }
        &&& x.start == op.start
        &&& x.end == op.end
        &&& x.fwd == op.fwd
        &&& x.content@ == match op.content {
            Some(c) => c,
            None => Seq::empty(),
        }
    }
}

/// The operations that merge `to` into the document at `from`: each one positioned against
/// the document that those before it make.
#[verifier::rlimit(50)]
fn merge_ops(oplog: &ListOpLog, from: &[LV], to: &[LV]) -> (out: Vec<XfOp>)
    requires
        oplog.inv(),
        history::playable(oplog.hist()),
        graph::known(oplog.cg.parents(), from@),
        graph::known(oplog.cg.parents(), to@),
    ensures
        travel::say_runs(
            oplog.hist(),
            out@,
            applied(xf_runs::xf_runs(*oplog, from@, to@)),
        ),
{
    let ghost h = oplog.hist();
    let runs = oplog.iter_xf_operations_from(from, to);
    let ghost all = xf_runs::runs_view(runs@);
    let mut out: Vec<XfOp> = Vec::new();
    let mut i: usize = 0;
    proof {
        oplog.lemma_hist();
        xf_runs::lemma_runs_within(*oplog, from@, to@, oplog.size());
        assert(all.take(0) =~= Seq::<XfRun>::empty());
    }
    while i < runs.len()
        invariant
            oplog.inv(),
            h == oplog.hist(),
            all == xf_runs::runs_view(runs@),
            xf_runs::runs_ok(all),
            forall|j: int| 0 <= j < all.len() ==> (#[trigger] all[j]).end <= oplog.size(),
            i <= runs@.len(),
            out@.len() == applied(all.take(i as int)).len(),
            forall|j: int|
                0 <= j < out@.len() ==> says_run(
                    h,
                    #[trigger] out@[j],
                    applied(all.take(i as int))[j],
                ),
        decreases runs@.len() - i,
    {
        proof {
            oplog.lemma_hist();
            assert(all[i as int] == xf_runs::run_view(runs@[i as int]));
            assert(xf_runs::run_ok(all[i as int]));
            assert(all.take(i + 1).drop_last() =~= all.take(i as int));
            assert(all.take(i + 1).last() == all[i as int]);
        }
        let (range, op) = &runs[i];
        if let Some(op) = op {
            let rv = oplog.cg.agent_assignment.local_to_remote_version(range.start);
            let content = match op.content_as_str() {
                Some(s) => String::from_str(s),
                None => String::new(),
            };
            out.push(
                XfOp {
                    agent: String::from_str(rv.0),
                    kind: match op.kind {
                        ListOpKind::Ins => "Ins",
                        ListOpKind::Del => "Del",
                    },
                    start: op.start(),
                    end: op.end(),
                    fwd: op.loc.fwd,
                    content,
                },
            );
        }
        i += 1;
    }
    assert(all.take(i as int) =~= all);
    out
}

/// The operations between two versions: each one positioned against the document that
/// those before it make of the one at `from`, so that all of them in order turn
/// that document into the one at `to`.
///
/// What only `from` has is undone. What undoes an operation bears the name of the agent
/// that wrote it.
pub fn xf_between(oplog: &ListOpLog, from: &[LV], to: &[LV]) -> (out: Vec<XfOp>)
    requires
        oplog.inv(),
        history::playable(oplog.hist()),
        graph::known(oplog.cg.parents(), from@),
        graph::known(oplog.cg.parents(), to@),
    ensures
        travel::say_runs(oplog.hist(), out@, travel::travel(*oplog, from@, to@)),
        travel::leads(
            oplog.hist(),
            oplog.hist().version(from@),
            oplog.hist().version(to@),
            out@,
        ),
{
    let mut out = merge_ops(oplog, from, to);
    let mut back = travel::undo_ops(oplog, from, to);
    let ghost go = out@;
    let ghost undo = back@;
    out.append(&mut back);
    proof {
        let list = travel::travel(*oplog, from@, to@);
        assert forall|i: int| 0 <= i < out@.len() implies says_run(
            oplog.hist(),
            #[trigger] out@[i],
            list[i],
        ) by {
            if i < go.len() {
                assert(out@[i] == go[i]);
            } else {
                assert(out@[i] == undo[i - go.len()]);
            }
        }
        travel::law_travel(*oplog, from@, to@, out@);
    }
    out
}

/// The operations since a version.
pub fn xf_since(oplog: &ListOpLog, version: &[LV]) -> (out: Vec<XfOp>)
    requires
        oplog.inv(),
        history::playable(oplog.hist()),
        graph::known(oplog.cg.parents(), version@),
    ensures
        travel::say_runs(
            oplog.hist(),
            out@,
            applied(xf_runs::xf_runs(*oplog, version@, oplog.cg.version@)),
        ),
        travel::leads(
            oplog.hist(),
            oplog.hist().version(version@),
            Set::new(|v: int| 0 <= v < oplog.size()),
            out@,
        ),
{
    proof {
        let h = oplog.hist();
        oplog.lemma_hist();
        branch::law_tip(*oplog);
        assert forall|v: int| #[trigger] h.version(version@).contains(v) implies h.version(
            oplog.cg.version@,
        ).contains(v) by {
            graph::lemma_cone_order(h.parents, version@, v);
        }
        travel::law_travel_on(*oplog, version@, oplog.cg.version@);
    }
    xf_between(oplog, version, oplog.local_frontier_ref())
}

// ---- versions and operations ----

/// The newest events of two versions together.
pub fn merge_versions(oplog: &ListOpLog, a: &[LV], b: &[LV]) -> (out: Vec<LV>)
    requires
        oplog.inv(),
        graph::known(oplog.cg.parents(), a@),
        graph::known(oplog.cg.parents(), b@),
    ensures
        graph::is_dominators(oplog.cg.parents(), a@ + b@, out@),
{
    oplog.version_union(a, b).0
}

/// The events as runs: an author's name, the first count, and how many. In the order of
/// their local versions.
pub fn agent_seq_runs(oplog: &ListOpLog) -> (out: Vec<(String, usize, usize)>)
    requires
        oplog.inv(),
    ensures
        ({
            let aa = oplog.cg.agent_assignment;
            let runs = aa.client_with_lv.runs();
            &&& out@.len() == runs.len()
            &&& forall|i: int|
                0 <= i < out@.len() ==> {
                    &&& (#[trigger] out@[i]).0@ == aa.name_of(runs[i].1.agent as int)
                    &&& out@[i].1 == runs[i].1.seq_range.start
                    &&& out@[i].2 == runs[i].1.seq_range.size()
                }
        }),
{
    let ghost aa = oplog.cg.agent_assignment;
    let ghost runs = aa.client_with_lv.runs();
    let list = oplog.iter_remote_mappings();
    let mut out: Vec<(String, usize, usize)> = Vec::new();
    let mut i: usize = 0;
    while i < list.len()
        invariant
            oplog.inv(),
            aa == oplog.cg.agent_assignment,
            runs == aa.client_with_lv.runs(),
            list@.len() == runs.len(),
            forall|j: int| 0 <= j < list@.len() ==> aa.is_mapping(j, #[trigger] list@[j]),
            i <= list@.len(),
            out@.len() == i,
            forall|j: int|
                0 <= j < i ==> {
                    &&& (#[trigger] out@[j]).0@ == aa.name_of(runs[j].1.agent as int)
                    &&& out@[j].1 == runs[j].1.seq_range.start
                    &&& out@[j].2 == runs[j].1.seq_range.size()
                },
        decreases list@.len() - i,
    {
        let s = list[i];
        proof {
            assert(aa.is_mapping(i as int, list@[i as int]));
            assert(crate::agent_assignment::AgentSpan::valid(runs[i as int].1));
        }
        out.push((String::from_str(s.0), s.1.start, s.1.end - s.1.start));
        i += 1;
    }
    out
}

impl ListOpLog {
    /// The newest events of two versions together.
    pub fn version_union(&self, a: &[LV], b: &[LV]) -> (out: Frontier)
        requires
            self.inv(),
            graph::known(self.cg.parents(), a@),
            graph::known(self.cg.parents(), b@),
        ensures
            graph::is_dominators(self.cg.parents(), a@ + b@, out@),
            graph::known(self.cg.parents(), out@),
    {
        self.cg.graph.find_dominators_2(a, b)
    }

    /// What the events do that a version has not seen, as parts of the stored operations.
    #[verifier::rlimit(40)]
    pub fn iter_range_since(&self, version: &[LV]) -> (out: Vec<TextOperation>)
        requires
            self.inv(),
            graph::known(self.cg.parents(), version@),
        ensures
            oplog::ops_view(out@) == ranges_ops(
                *self,
                graph::ranges_below(
                    self.size(),
                    |v: int| !graph::in_cone(self.cg.parents(), version@, v),
                ),
            ),
            oplog::events_of(oplog::ops_view(out@)) == what_they_do(
                events::events_chosen(
                    self.hist(),
                    self.size(),
                    |v: int| !graph::in_cone(self.cg.parents(), version@, v),
                ),
            ),
    {
        let ranges = self.cg.diff_since(version);
        let ghost h = self.hist();
        let mut out: Vec<TextOperation> = Vec::new();
        let mut i: usize = 0;
        proof {
            self.lemma_hist();
            assert(ranges@.take(0) =~= Seq::<DTRange>::empty());
            assert(oplog::ops_view(out@) =~= ranges_ops(*self, ranges@.take(0)));
            assert(oplog::events_of(oplog::ops_view(out@)) =~= what_they_do(
                events::events_in(h, ranges@.take(0)),
            ));
        }
        while i < ranges.len()
            invariant
                self.inv(),
                i <= ranges@.len(),
                forall|j: int|
                    0 <= j < ranges@.len() ==> (#[trigger] ranges@[j]).start < ranges@[j].end
                        <= self.size(),
                oplog::ops_view(out@) == ranges_ops(*self, ranges@.take(i as int)),
                h == self.hist(),
                h.ops.len() == self.size(),
                oplog::events_of(oplog::ops_view(out@)) == what_they_do(
                    events::events_in(h, ranges@.take(i as int)),
                ),
            decreases ranges@.len() - i,
        {
            let ghost before = oplog::ops_view(out@);
            proof {
                assert(ranges@.take(i + 1).drop_last() =~= ranges@.take(i as int));
                assert(ranges@.take(i + 1).last() == ranges@[i as int]);
            }
            let mut more = self.ops_in_range(ranges[i]);
            let ghost told = oplog::ops_view(more@);
            out.append(&mut more);
            proof {
                let r = ranges@[i as int];
                assert(oplog::ops_view(out@) =~= before + told);
                oplog::lemma_events_concat(before, told);
                assert(oplog::events_of(oplog::ops_view(out@)) =~= what_they_do(
                    events::events_in(h, ranges@.take(i + 1)),
                ));
            }
            i += 1;
        }
        proof {
            assert(ranges@.take(i as int) =~= ranges@);
            events::lemma_events_in(
                h,
                self.size(),
                |v: int| !graph::in_cone(self.cg.parents(), version@, v),
            );
        }
        out
    }

    /// For each stored run of events what its first one follows.
    pub open spec fn is_entry(&self, i: int, e: GraphEntrySimple) -> bool {
        let run = self.cg.graph.entries.runs()[i];
        &&& e.span.start == run.0
        &&& e.span.end == run.0 + run.1.len
        &&& e.parents@ == run.1.parents
    }

    /// The events as runs of such that follow each other, in order.
    pub fn iter_history(&self) -> (out: Vec<GraphEntrySimple>)
        requires
            self.inv(),
        ensures
            out@.len() == self.cg.graph.entries.runs().len(),
            forall|i: int| 0 <= i < out@.len() ==> self.is_entry(i, #[trigger] out@[i]),
    {
        let mut out: Vec<GraphEntrySimple> = Vec::new();
        let mut i: usize = 0;
        while i < self.cg.graph.entries.0.len()
            invariant
                self.inv(),
                i <= self.cg.graph.entries.runs().len(),
                out@.len() == i,
                forall|j: int| 0 <= j < out@.len() ==> self.is_entry(j, #[trigger] out@[j]),
            decreases self.cg.graph.entries.runs().len() - i,
        {
            let entry = &self.cg.graph.entries.0[i];
            proof {
                let runs = self.cg.graph.entries.runs();
                assert(runs[i as int] == (entry.0 as int, entry.1.abs()));
                assert(rle::end_of::<GraphRun>(runs, i as int) <= usize::MAX);
            }
            let e = GraphEntrySimple {
                span: DTRange { start: entry.0, end: entry.0 + entry.1.len },
                parents: entry.1.parents.clone(),
            };
            out.push(e);
            i += 1;
        }
        out
    }
}

/// What events do.
pub open spec fn what_they_do(evs: Seq<EventAbs>) -> Seq<EvOp> {
    evs.map_values(|e: EventAbs| e.op)
}

/// What the events of ranges do, as parts of the stored operations.
pub open spec fn ranges_ops(log: ListOpLog, ranges: Seq<DTRange>) -> Seq<OpAbs>
    decreases ranges.len(),
{
    if ranges.len() == 0 {
        Seq::empty()
    } else {
        ranges_ops(log, ranges.drop_last()) + oplog::ops_between(
            log.operations.runs(),
            ranges.last().start as int,
            ranges.last().end as int,
        )
    }
}

} // verus!
