//! What holds of the texts that peers exchange.

use crate::braid;
use crate::decimal;
use crate::events;
use crate::graph;
use crate::history::Hist;
use crate::oplog::ListOpLog;
use crate::remote_ops;
use crate::sorting;
use vstd::prelude::*;

verus! {

// ---- names of events ----

/// Digits behind a text leave the last dash where it is.
proof fn lemma_last_dash(a: Seq<char>, digits: Seq<char>)
    requires
        decimal::all_digits(digits),
    ensures
        remote_ops::last_dash(a + digits) == remote_ops::last_dash(a),
    decreases digits.len(),
{
    if digits.len() == 0 {
        assert(a + digits =~= a);
    } else {
        let less = digits.drop_last();
        assert forall|i: int| 0 <= i < less.len() implies decimal::is_digit(
            #[trigger] less[i],
        ) by {
            assert(less[i] == digits[i]);
        }
        assert(decimal::is_digit(digits[digits.len() - 1]));
        assert((a + digits).drop_last() =~= a + less);
        lemma_last_dash(a, less);
    }
}

/// The last dash is where nothing behind it is one.
proof fn lemma_last_dash_at(s: Seq<char>, k: int)
    requires
        -1 <= k < s.len(),
        k >= 0 ==> s[k] == '-',
        forall|j: int| k < j < s.len() ==> #[trigger] s[j] != '-',
    ensures
        remote_ops::last_dash(s) == k,
    decreases s.len(),
{
    if s.len() > 0 && k < s.len() - 1 {
        let t = s.drop_last();
        assert(s[s.len() - 1] != '-');
        assert forall|j: int| k < j < t.len() implies #[trigger] t[j] != '-' by {
            assert(t[j] == s[j]);
        }
        if k >= 0 {
            assert(t[k] == s[k]);
        }
        lemma_last_dash_at(t, k);
    }
}

/// A text names an event by what stands before its last dash, which is the author's name,
/// and the number behind it, which is the author's count. Without a dash, or without a
/// number behind it, it names none.
pub proof fn law_named_id(s: Seq<char>, k: int)
    requires
        -1 <= k < s.len(),
        k >= 0 ==> s[k] == '-',
        forall|j: int| k < j < s.len() ==> #[trigger] s[j] != '-',
    ensures
        k < 0 ==> remote_ops::named_id(s) is None,
        k >= 0 ==> match remote_ops::named_id(s) {
            Some(id) => id.0 == s.take(k) && decimal::number_in(s.skip(k + 1)) == Some(id.1),
            None => decimal::number_in(s.skip(k + 1)) is None,
        },
{
    lemma_last_dash_at(s, k);
}

/// A text names the event of a history that has the author and count it states, and no
/// other.
pub proof fn law_named_event(h: Hist, s: Seq<char>, v: int)
    requires
        h.valid(),
    ensures
        remote_ops::named_event(h, s) == Some(v) <==> 0 <= v < h.len() && remote_ops::named_id(s)
            == Some(h.ids[v]),
{
    if remote_ops::named_event(h, s) == Some(v) {
        let id = remote_ops::named_id(s)->0;
        assert(events::has_id(h, id));
    }
    if 0 <= v < h.len() {
        events::lemma_place(h, v);
    }
}

/// The text for an event is the author's name, a dash, and the digits of the author's count,
/// and names it.
pub proof fn law_event_text(id: (Seq<char>, int))
    requires
        0 <= id.1 <= usize::MAX,
    ensures
        braid::event_text(id) == id.0 + seq!['-'] + decimal::decimal(id.1),
        remote_ops::named_id(braid::event_text(id)) == Some(id),
{
    assert(braid::event_text(id) =~= id.0 + seq!['-'] + decimal::decimal(id.1));
    let digits = decimal::decimal(id.1);
    let front = id.0.push('-');
    let s = braid::event_text(id);
    decimal::law_decimal(id.1);
    lemma_last_dash(front, digits);
    assert(remote_ops::last_dash(front) == id.0.len());
    assert(s.skip(id.0.len() as int + 1) =~= digits);
    assert(s.take(id.0.len() as int) =~= id.0);
    assert(decimal::is_digit(digits[0]));
}

/// An event of a log is found by the text for it.
pub proof fn law_event_found(log: ListOpLog, v: int)
    requires
        log.inv(),
        0 <= v < log.size(),
    ensures
        remote_ops::named_event(log.hist(), braid::event_text(log.hist().ids[v])) == Some(v),
{
    log.lemma_hist();
    log.lemma_event_fits(v);
    law_event_text(log.hist().ids[v]);
    events::lemma_place(log.hist(), v);
}

proof fn lemma_named_events(log: ListOpLog, version: Seq<usize>)
    requires
        log.inv(),
        graph::known(log.cg.parents(), version),
    ensures
        ({
            let h = log.hist();
            let texts = braid::event_texts(events::ids_of(h, version));
            &&& remote_ops::named_events(h, texts) == version
            &&& remote_ops::all_named(h, texts)
        }),
    decreases version.len(),
{
    let h = log.hist();
    let texts = braid::event_texts(events::ids_of(h, version));
    log.lemma_hist();
    assert forall|i: int| 0 <= i < texts.len() implies remote_ops::named_event(
        h,
        #[trigger] texts[i],
    ) is Some by {
        assert(version[i] < log.cg.parents().len());
        law_event_found(log, version[i] as int);
    }
    if version.len() == 0 {
        assert(remote_ops::named_events(h, texts) =~= version);
    } else {
        let less = version.drop_last();
        assert forall|i: int| 0 <= i < less.len() implies (#[trigger] less[i])
            < log.cg.parents().len() by {
            assert(less[i] == version[i]);
        }
        lemma_named_events(log, less);
        let k = version.len() - 1;
        assert(version[k] < log.cg.parents().len());
        law_event_found(log, version[k] as int);
        assert(texts.drop_last() =~= braid::event_texts(events::ids_of(h, less)));
        assert(texts.last() == braid::event_text(h.ids[version[k] as int]));
        assert(remote_ops::named_events(h, texts) =~= version);
    }
}

/// The texts for the newest events of a version lead back to it.
pub proof fn law_version_found(log: ListOpLog, version: Seq<usize>)
    requires
        log.inv(),
        graph::known(log.cg.parents(), version),
        sorting::in_order(version),
    ensures
        ({
            let h = log.hist();
            let texts = braid::event_texts(events::ids_of(h, version));
            &&& remote_ops::all_named(h, texts)
            &&& remote_ops::named_list(h, texts) == version
        }),
{
    let h = log.hist();
    let texts = braid::event_texts(events::ids_of(h, version));
    lemma_named_events(log, version);
    assert(remote_ops::lists_named(h, texts, version));
    remote_ops::lemma_named_list(h, texts, version);
}

// ---- ranges ----

/// Where characters that are digits, or are not, end.
proof fn lemma_skip(s: Seq<char>, from: int, to: int, digits: bool)
    requires
        0 <= from <= to <= s.len(),
        forall|i: int| from <= i < to ==> decimal::is_digit(#[trigger] s[i]) == digits,
        to < s.len() ==> decimal::is_digit(s[to]) != digits,
    ensures
        braid::skip_digits(s, from, digits) == to,
    decreases to - from,
{
    if from < to {
        assert(decimal::is_digit(s[from]) == digits);
        lemma_skip(s, from + 1, to, digits);
    }
}

/// What a text states as a range: the first two numbers in it, whatever stands before,
/// between and behind them.
pub proof fn law_range_in(
    front: Seq<char>,
    a: Seq<char>,
    between: Seq<char>,
    b: Seq<char>,
    rest: Seq<char>,
)
    requires
        forall|i: int| 0 <= i < front.len() ==> !('0' <= #[trigger] front[i] <= '9'),
        forall|i: int| 0 <= i < a.len() ==> '0' <= #[trigger] a[i] <= '9',
        forall|i: int| 0 <= i < between.len() ==> !('0' <= #[trigger] between[i] <= '9'),
        forall|i: int| 0 <= i < b.len() ==> '0' <= #[trigger] b[i] <= '9',
        a.len() > 0,
        between.len() > 0,
        rest.len() > 0 ==> b.len() > 0 && !('0' <= rest[0] <= '9'),
    ensures
        ({
            let s = front + a + between + b + rest;
            &&& b.len() > 0 ==> braid::range_in(s) == Some((decimal::value(a), decimal::value(b)))
            &&& b.len() == 0 ==> braid::range_in(s) is None
            &&& braid::range_too_large(s) <==> decimal::value(a) > usize::MAX || decimal::value(b)
                > usize::MAX
        }),
{
    let s = front + a + between + b + rest;
    let k = front.len() as int;
    let l = k + a.len();
    let m = l + between.len();
    let n = m + b.len();
    assert forall|i: int| 0 <= i < k implies !decimal::is_digit(#[trigger] s[i]) by {
        assert(s[i] == front[i]);
    }
    assert forall|i: int| k <= i < l implies decimal::is_digit(#[trigger] s[i]) by {
        assert(s[i] == a[i - k]);
    }
    assert forall|i: int| l <= i < m implies !decimal::is_digit(#[trigger] s[i]) by {
        assert(s[i] == between[i - l]);
    }
    assert forall|i: int| m <= i < n implies decimal::is_digit(#[trigger] s[i]) by {
        assert(s[i] == b[i - m]);
    }
    if n < s.len() {
        assert(s[n] == rest[0]);
    }
    lemma_skip(s, 0, k, false);
    lemma_skip(s, k, l, true);
    lemma_skip(s, l, m, false);
    lemma_skip(s, m, n, true);
    assert(s.subrange(k, l) =~= a);
    assert(s.subrange(m, n) =~= b);
}

/// A text in which there is no digit states no range, and no number that is too large.
pub proof fn law_no_range(s: Seq<char>)
    requires
        forall|i: int| 0 <= i < s.len() ==> !('0' <= #[trigger] s[i] <= '9'),
    ensures
        braid::range_in(s) is None,
        !braid::range_too_large(s),
{
    let n = s.len() as int;
    assert forall|i: int| 0 <= i < n implies decimal::is_digit(#[trigger] s[i]) == false by {}
    lemma_skip(s, 0, n, false);
    lemma_skip(s, n, n, true);
    lemma_skip(s, n, n, false);
    assert(s.subrange(n, n) =~= Seq::<char>::empty());
}

/// The text for a range is its two numbers in brackets with a colon between them, and states
/// it.
pub proof fn law_range_text(start: int, end: int)
    requires
        0 <= start <= usize::MAX,
        0 <= end <= usize::MAX,
    ensures
        braid::range_text(start, end) == seq!['['] + decimal::decimal(start) + seq![':']
            + decimal::decimal(end) + seq![']'],
        braid::range_in(braid::range_text(start, end)) == Some((start, end)),
        !braid::range_too_large(braid::range_text(start, end)),
{
    let a = decimal::decimal(start);
    let b = decimal::decimal(end);
    let s = braid::range_text(start, end);
    assert(s =~= seq!['['] + a + seq![':'] + b + seq![']']);
    decimal::law_decimal(start);
    decimal::law_decimal(end);
    let m = a.len() as int;
    let n = b.len() as int;
    assert(s.len() == m + n + 3);
    assert(s[0] == '[');
    assert(s[m + 1] == ':');
    assert(s[m + n + 2] == ']');
    assert forall|i: int| 1 <= i < m + 1 implies decimal::is_digit(#[trigger] s[i]) by {
        assert(s[i] == a[i - 1]);
    }
    assert forall|i: int| m + 2 <= i < m + n + 2 implies decimal::is_digit(#[trigger] s[i]) by {
        assert(s[i] == b[i - (m + 2)]);
    }
    lemma_skip(s, 0, 1, false);
    lemma_skip(s, 1, m + 1, true);
    lemma_skip(s, m + 1, m + 2, false);
    lemma_skip(s, m + 2, m + n + 2, true);
    assert(s.subrange(1, m + 1) =~= a);
    assert(s.subrange(m + 2, m + n + 2) =~= b);
}

} // verus!
