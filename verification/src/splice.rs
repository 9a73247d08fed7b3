//! Splicing one relative replacement after the other into the segments.

use crate::patches;
use crate::patches::Patch;
use crate::segments;
use crate::segments::{Seg, SegStore, Segment};
use crate::smart_string::SmartString;
use crate::text::{cp_len, head_of, tail_of};
use vstd::prelude::*;
use vstd::string::*;

verus! {

// ---- the segments that an edit leaves ----

/// The length of the current text before segment `k`.
pub open spec fn cum(segs: Seq<Seg>, k: int) -> int {
    segments::cur_len(segs.take(k))
}

/// What stays of a kept segment `a` before an edit at `s`.
pub open spec fn left_part(segs: Seq<Seg>, a: int, s: int) -> Seq<Seg> {
    if segs[a].kept() && s > cum(segs, a) {
        seq![segments::kept_seg(s - cum(segs, a))]
    } else {
        Seq::empty()
    }
}

/// What stays of a kept segment `b` after an edit that ends at `e`.
pub open spec fn right_part(segs: Seq<Seg>, b: int, e: int) -> Seq<Seg> {
    if segs[b].kept() {
        seq![segments::kept_seg(cum(segs, b) + segs[b].size - e)]
    } else {
        Seq::empty()
    }
}

/// The content of the replacement that an edit of `s..e` makes of the segments
/// `a..=b`.
pub open spec fn joined(segs: Seq<Seg>, a: int, b: int, s: int, e: int, c: Seq<char>) -> Seq<char> {
    (match segs[a].content {
        Some(x) => x.take(s - cum(segs, a)),
        None => Seq::empty(),
    }) + c + (match segs[b].content {
        Some(x) => x.skip(e - cum(segs, b)),
        None => Seq::empty(),
    })
}

/// The segments after `s..e` was replaced by `c`, where `s` belongs to segment
/// `a` and `e` lies in segment `b`.
pub open spec fn spliced(segs: Seq<Seg>, a: int, b: int, s: int, e: int, c: Seq<char>) -> Seq<Seg> {
    let left = left_part(segs, a, s);
    let right = right_part(segs, b, e);
    let content = joined(segs, a, b, s, e, c);
    let del = segments::orig_len(segs.subrange(a, b + 1)) - segments::orig_len(left)
        - segments::orig_len(right);
    segs.take(a) + left + seq![segments::repl_seg(content.len() as int, del, content)] + right
        + segs.skip(b + 1)
}

// ---- sums over segments and patches ----

pub proof fn lemma_concat(x: Seq<Seg>, y: Seq<Seg>, offset: int)
    ensures
        segments::cur_len(x + y) == segments::cur_len(x) + segments::cur_len(y),
        segments::orig_len(x + y) == segments::orig_len(x) + segments::orig_len(y),
        segments::patches_in(x + y, offset) == segments::patches_in(x, offset)
            + segments::patches_in(y, offset + segments::orig_len(x)),
    decreases y.len(),
{
    if y.len() == 0 {
        assert(x + y =~= x);
        assert(segments::patches_in(x + y, offset) =~= segments::patches_in(x, offset)
            + segments::patches_in(y, offset + segments::orig_len(x)));
    } else {
        lemma_concat(x, y.drop_last(), offset);
        assert((x + y).drop_last() =~= x + y.drop_last());
        assert((x + y).last() == y.last());
        assert(segments::patches_in(x + y, offset) =~= segments::patches_in(x, offset)
            + segments::patches_in(y, offset + segments::orig_len(x)));
    }
}

pub proof fn lemma_single(x: Seg, offset: int)
    ensures
        segments::cur_len(seq![x]) == x.size,
        segments::orig_len(seq![x]) == x.orig(),
        segments::patches_in(seq![x], offset) == (match x.content {
            None => Seq::<Patch>::empty(),
            Some(c) => seq![Patch { start: offset, end: offset + x.del, content: c }],
        }),
{
    reveal_with_fuel(segments::cur_len, 2);
    reveal_with_fuel(segments::orig_len, 2);
    reveal_with_fuel(segments::patches_in, 2);
    assert(seq![x].drop_last() =~= Seq::<Seg>::empty());
    assert(segments::patches_in(seq![x], offset) =~= (match x.content {
        None => Seq::<Patch>::empty(),
        Some(c) => seq![Patch { start: offset, end: offset + x.del, content: c }],
    }));
}

proof fn lemma_empty()
    ensures
        segments::cur_len(Seq::<Seg>::empty()) == 0,
        segments::orig_len(Seq::<Seg>::empty()) == 0,
        forall|offset: int| #[trigger]
            segments::patches_in(Seq::<Seg>::empty(), offset) == Seq::<Patch>::empty(),
{
}

proof fn lemma_nonneg(segs: Seq<Seg>)
    requires
        segments::each_settled(segs),
    ensures
        segments::cur_len(segs) >= 0,
        segments::orig_len(segs) >= 0,
    decreases segs.len(),
{
    if segs.len() > 0 {
        assert(segs.last().settled());
        assert(segments::each_settled(segs.drop_last())) by {
            assert forall|k: int| 0 <= k < segs.drop_last().len() implies (
            #[trigger] segs.drop_last()[k]).settled() by {
                assert(segs[k].settled());
            }
        }
        lemma_nonneg(segs.drop_last());
    }
}

/// Sums up to `j` are at least those up to `i`.
pub proof fn lemma_cum_mono(segs: Seq<Seg>, i: int, j: int)
    requires
        segments::each_settled(segs),
        0 <= i <= j <= segs.len(),
    ensures
        0 <= cum(segs, i) <= cum(segs, j),
        cum(segs, j) == cum(segs, i) + segments::cur_len(segs.subrange(i, j)),
        segments::orig_len(segs.take(j)) == segments::orig_len(segs.take(i)) + segments::orig_len(
            segs.subrange(i, j),
        ),
        0 <= segments::orig_len(segs.take(i)) <= segments::orig_len(segs.take(j)),
        0 <= segments::orig_len(segs.subrange(i, j)),
{
    assert(segs.take(j) =~= segs.take(i) + segs.subrange(i, j));
    lemma_concat(segs.take(i), segs.subrange(i, j), 0);
    lemma_nonneg(segs.take(i));
    lemma_nonneg(segs.subrange(i, j));
}

pub proof fn lemma_cum_step(segs: Seq<Seg>, k: int)
    requires
        0 <= k < segs.len(),
    ensures
        cum(segs, k + 1) == cum(segs, k) + segs[k].size,
        segments::orig_len(segs.take(k + 1)) == segments::orig_len(segs.take(k)) + segs[k].orig(),
        cum(segs, segs.len() as int) == segments::cur_len(segs),
{
    assert(segs.take(k + 1).drop_last() =~= segs.take(k));
    assert(segs.take(segs.len() as int) =~= segs);
}

pub proof fn lemma_orig_prefix(segs: Seq<Seg>, k: int)
    requires
        0 <= k <= segs.len(),
        forall|i: int| 0 <= i < segs.len() ==> (#[trigger] segs[i]).orig() >= 0,
    ensures
        0 <= segments::orig_len(segs.take(k)) <= segments::orig_len(segs),
    decreases segs.len(),
{
    if segs.len() == 0 {
        assert(segs.take(k) =~= segs);
    } else {
        let before = segs.drop_last();
        assert forall|i: int| 0 <= i < before.len() implies (#[trigger] before[i]).orig() >= 0 by {
            assert(before[i] == segs[i]);
        }
        if k == segs.len() {
            lemma_orig_prefix(before, k - 1);
            assert(before.take(k - 1) =~= before);
            assert(segs.take(k) =~= segs);
        } else {
            lemma_orig_prefix(before, k);
            assert(before.take(k) =~= segs.take(k));
        }
    }
}

pub proof fn lemma_growth_concat(p: Seq<Patch>, q: Seq<Patch>)
    ensures
        patches::growth(p + q) == patches::growth(p) + patches::growth(q),
    decreases q.len(),
{
    if q.len() == 0 {
        assert(p + q =~= p);
    } else {
        lemma_growth_concat(p, q.drop_last());
        assert((p + q).drop_last() =~= p + q.drop_last());
    }
}

pub proof fn lemma_cur_concat(p: Seq<Patch>, q: Seq<Patch>)
    ensures
        forall|k: int|
            0 <= k < p.len() ==> #[trigger] patches::cur_start(p + q, k) == patches::cur_start(p, k)
                && patches::cur_end(p + q, k) == patches::cur_end(p, k),
        forall|k: int|
            0 <= k < q.len() ==> #[trigger] patches::cur_start(p + q, p.len() + k)
                == patches::cur_start(q, k) + patches::growth(p) && patches::cur_end(
                p + q,
                p.len() + k,
            ) == patches::cur_end(q, k) + patches::growth(p),
{
    assert forall|k: int| 0 <= k < p.len() implies #[trigger] patches::cur_start(p + q, k)
        == patches::cur_start(p, k) && patches::cur_end(p + q, k) == patches::cur_end(p, k) by {
        assert((p + q).take(k) =~= p.take(k));
    }
    assert forall|k: int| 0 <= k < q.len() implies #[trigger] patches::cur_start(p + q, p.len() + k)
        == patches::cur_start(q, k) + patches::growth(p) && patches::cur_end(p + q, p.len() + k)
        == patches::cur_end(q, k) + patches::growth(p) by {
        assert((p + q).take(p.len() + k) =~= p + q.take(k));
        lemma_growth_concat(p, q.take(k));
    }
}

/// The patches that segments state grow the text by as much as the segments
/// do, and their contents lie where the segments lie.
pub proof fn lemma_patches_in(segs: Seq<Seg>, offset: int)
    requires
        segments::each_settled(segs),
    ensures
        patches::growth(segments::patches_in(segs, offset)) == segments::cur_len(segs)
            - segments::orig_len(segs),
        forall|k: int|
            #![trigger patches::cur_start(segments::patches_in(segs, offset), k)]
            0 <= k < segments::patches_in(segs, offset).len() ==> {
                let p = segments::patches_in(segs, offset);
                &&& offset <= patches::cur_start(p, k) <= patches::cur_end(p, k)
                &&& patches::cur_end(p, k) <= offset + segments::cur_len(segs)
            },
    decreases segs.len(),
{
    let p = segments::patches_in(segs, offset);
    if segs.len() > 0 {
        let before = segs.drop_last();
        let q = segments::patches_in(before, offset);
        assert(segments::each_settled(before)) by {
            assert forall|k: int| 0 <= k < before.len() implies (#[trigger] before[k]).settled() by {
                assert(segs[k].settled());
            }
        }
        assert(segs.last().settled());
        lemma_patches_in(before, offset);
        lemma_nonneg(before);
        if segs.last().content is Some {
            let x = p.last();
            assert(p =~= q + seq![x]);
            lemma_cur_concat(q, seq![x]);
            assert(p.drop_last() =~= q);
            assert(p.take(q.len() as int) =~= q);
            assert forall|k: int|
                #![trigger patches::cur_start(p, k)]
                0 <= k < p.len() implies offset <= patches::cur_start(p, k) <= patches::cur_end(p, k)
                && patches::cur_end(p, k) <= offset + segments::cur_len(segs) by {
                if k < q.len() {
                    assert(patches::cur_start(q + seq![x], k) == patches::cur_start(q, k));
                }
            }
        }
    }
}

proof fn lemma_ended_before(p: Seq<Patch>, q: Seq<Patch>, s: int)
    requires
        p.len() == 0 || patches::cur_end(p, p.len() - 1) < s,
        forall|k: int|
            #![trigger patches::cur_end(p + q, k)]
            p.len() <= k < p.len() + q.len() ==> patches::cur_end(p + q, k) >= s,
    ensures
        patches::ended_before(p + q, s) == p.len(),
    decreases q.len(),
{
    if q.len() == 0 {
        assert(p + q =~= p);
    } else {
        let q1 = q.drop_last();
        assert((p + q).drop_last() =~= p + q1);
        assert(patches::cur_end(p + q, p.len() + q.len() - 1) >= s);
        assert forall|k: int|
            #![trigger patches::cur_end(p + q1, k)]
            p.len() <= k < p.len() + q1.len() implies patches::cur_end(p + q1, k) >= s by {
            assert((p + q).take(k) =~= (p + q1).take(k));
            assert(patches::cur_end(p + q, k) >= s);
        }
        lemma_ended_before(p, q1, s);
    }
}

proof fn lemma_started_by(p: Seq<Patch>, q: Seq<Patch>, e: int)
    requires
        p.len() == 0 || patches::cur_start(p, p.len() - 1) <= e,
        forall|k: int|
            #![trigger patches::cur_start(p + q, k)]
            p.len() <= k < p.len() + q.len() ==> patches::cur_start(p + q, k) > e,
    ensures
        patches::started_by(p + q, e) == p.len(),
    decreases q.len(),
{
    if q.len() == 0 {
        assert(p + q =~= p);
    } else {
        let q1 = q.drop_last();
        assert((p + q).drop_last() =~= p + q1);
        assert(patches::cur_start(p + q, p.len() + q.len() - 1) > e);
        assert forall|k: int|
            #![trigger patches::cur_start(p + q1, k)]
            p.len() <= k < p.len() + q1.len() implies patches::cur_start(p + q1, k) > e by {
            assert((p + q).take(k) =~= (p + q1).take(k));
            assert(patches::cur_start(p + q, k) > e);
        }
        lemma_started_by(p, q1, e);
    }
}

/// Whether an edit of `s..e` belongs to the segments `a..=b`.
pub open spec fn spans(segs: Seq<Seg>, a: int, b: int, s: int, e: int) -> bool {
    &&& segments::lands(segs, s, a)
    &&& 0 <= a <= b < segs.len()
    &&& s <= e
    &&& cum(segs, b) <= e < cum(segs, b) + segs[b].size
}

/// The last patch before the edited segments ends before the edit.
proof fn lemma_before(segs: Seq<Seg>, a: int, s: int)
    requires
        segments::settled(segs),
        segments::lands(segs, s, a),
    ensures
        ({
            let p = segments::patches_in(segs.take(a), 0);
            p.len() == 0 || patches::cur_end(p, p.len() - 1) < s
        }),
{
    reveal(segments::alternates);
    let pre = segs.take(a);
    let p = segments::patches_in(pre, 0);
    if p.len() > 0 {
        assert(a > 0);
        lemma_patches_in(pre, 0);
        let _ = patches::cur_start(p, p.len() - 1);
        if segs[a - 1].kept() {
            let before = segs.take(a - 1);
            assert(pre.drop_last() =~= before);
            assert(pre.last() == segs[a - 1]);
            assert(p == segments::patches_in(before, 0));
            lemma_patches_in(before, 0);
            lemma_cum_step(segs, a - 1);
            assert(segs[a - 1].settled());
        } else {
            assert(segs[a].kept());
        }
    }
}

/// Every patch within the edited segments touches the edit.
#[verifier::rlimit(50)]
proof fn lemma_within(segs: Seq<Seg>, a: int, b: int, s: int, e: int, k: int)
    requires
        segments::settled(segs),
        spans(segs, a, b, s, e),
        0 <= k < segments::patches_in(
            segs.subrange(a, b + 1),
            segments::orig_len(segs.take(a)),
        ).len(),
    ensures
        ({
            let o = segments::orig_len(segs.take(a));
            let m = segments::patches_in(segs.subrange(a, b + 1), o);
            let shift = cum(segs, a) - o;
            &&& patches::cur_start(m, k) + shift <= e
            &&& patches::cur_end(m, k) + shift >= s
        }),
{
    let mid = segs.subrange(a, b + 1);
    let o = segments::orig_len(segs.take(a));
    let m = segments::patches_in(mid, o);
    let first = segs.subrange(a, a + 1);
    let inner = segs.subrange(a + 1, b + 1);
    lemma_cum_mono(segs, a, b);
    lemma_cum_step(segs, a);
    lemma_cum_step(segs, b);
    assert(segs[a].settled() && segs[b].settled());
    assert(first =~= seq![segs[a]]);
    assert(mid =~= first + inner);
    lemma_concat(first, inner, o);
    lemma_single(segs[a], o);
    let m1 = segments::patches_in(first, o);
    let m2 = segments::patches_in(inner, o + segs[a].orig());
    lemma_cur_concat(m1, m2);
    lemma_patches_in(first, o);
    lemma_patches_in(inner, o + segs[a].orig());
    if k < m1.len() {
        assert(k == 0);
        assert(patches::cur_start(m1 + m2, 0) == patches::cur_start(m1, 0));
        assert(m1.take(0) =~= Seq::<Patch>::empty());
    } else {
        let k2 = k - m1.len();
        assert(patches::cur_start(m1 + m2, m1.len() + k2) == patches::cur_start(m2, k2)
            + patches::growth(m1));
        // The content starts after segment `a`, so at or after `s`.
        assert(patches::cur_start(m2, k2) >= o + segs[a].orig());
        assert(patches::growth(m1) == segs[a].size - segs[a].orig());
        if a < b {
            // It lies in segment `b` or before it.
            let upto = segs.subrange(a + 1, b);
            let last = segs.subrange(b, b + 1);
            assert(last =~= seq![segs[b]]);
            assert(inner =~= upto + last);
            let o2 = o + segs[a].orig();
            lemma_concat(upto, last, o2);
            lemma_single(segs[b], o2 + segments::orig_len(upto));
            let n1 = segments::patches_in(upto, o2);
            let n2 = segments::patches_in(last, o2 + segments::orig_len(upto));
            lemma_cur_concat(n1, n2);
            lemma_patches_in(upto, o2);
            lemma_cum_mono(segs, a + 1, b);
            if k2 < n1.len() {
                assert(patches::cur_start(n1 + n2, k2) == patches::cur_start(n1, k2));
            } else {
                assert(k2 == n1.len());
                assert(patches::cur_start(n1 + n2, n1.len() + 0int) == patches::cur_start(n2, 0)
                    + patches::growth(n1));
                assert(n2.take(0) =~= Seq::<Patch>::empty());
            }
        } else {
            assert(inner =~= Seq::<Seg>::empty());
        }
    }
}

/// How the patches before, within and after the edited segments lie.
#[verifier::rlimit(50)]
proof fn lemma_touched(segs: Seq<Seg>, a: int, b: int, s: int, e: int)
    requires
        segments::settled(segs),
        spans(segs, a, b, s, e),
    ensures
        ({
            let p = segments::patches_in(segs.take(a), 0);
            let m = segments::patches_in(segs.subrange(a, b + 1), segments::orig_len(segs.take(a)));
            let q = segments::patches_in(segs.skip(b + 1), segments::orig_len(segs.take(b + 1)));
            let all = segments::patches_in(segs, 0);
            &&& all == p + m + q
            &&& patches::ended_before(all, s) == p.len()
            &&& patches::started_by(all, e) == p.len() + m.len()
            &&& all.take(p.len() as int) == p
            &&& all.skip((p.len() + m.len()) as int) == q
            &&& patches::growth(p) == cum(segs, a) - segments::orig_len(segs.take(a))
            &&& patches::growth(p + m) == cum(segs, b + 1) - segments::orig_len(segs.take(b + 1))
            &&& all.take((p.len() + m.len()) as int) == p + m
        }),
{
    let pre = segs.take(a);
    let mid = segs.subrange(a, b + 1);
    let post = segs.skip(b + 1);
    let o = segments::orig_len(pre);
    let o2 = segments::orig_len(segs.take(b + 1));
    let p = segments::patches_in(pre, 0);
    let m = segments::patches_in(mid, o);
    let q = segments::patches_in(post, o2);
    let all = segments::patches_in(segs, 0);
    assert(segs =~= pre + mid + post);
    assert(pre + mid =~= segs.take(b + 1));
    lemma_concat(pre, mid, 0);
    lemma_concat(pre + mid, post, 0);
    lemma_patches_in(pre, 0);
    lemma_patches_in(mid, o);
    lemma_patches_in(post, o2);
    lemma_growth_concat(p, m);
    assert(p + m + q =~= p + (m + q));
    lemma_cum_mono(segs, a, b + 1);
    lemma_cum_mono(segs, a + 1, b + 1);
    lemma_cum_step(segs, a);
    lemma_cum_step(segs, b);
    assert(segs[a].settled());
    lemma_before(segs, a, s);

    assert forall|k: int|
        #![trigger patches::cur_end(p + (m + q), k)]
        p.len() <= k < p.len() + (m + q).len() implies patches::cur_end(p + (m + q), k) >= s by {
        let k1 = k - p.len();
        lemma_cur_concat(p, m + q);
        lemma_cur_concat(m, q);
        assert(patches::cur_start(p + (m + q), p.len() + k1) == patches::cur_start(m + q, k1)
            + patches::growth(p));
        if k1 < m.len() {
            lemma_within(segs, a, b, s, e, k1);
            assert(patches::cur_start(m + q, k1) == patches::cur_start(m, k1));
        } else {
            let k2 = k1 - m.len();
            assert(patches::cur_start(m + q, m.len() + k2) == patches::cur_start(q, k2)
                + patches::growth(m));
            assert(patches::cur_start(q, k2) >= o2);
        }
    }
    lemma_ended_before(p, m + q, s);

    assert((p + m).len() == 0 || patches::cur_start(p + m, (p + m).len() - 1) <= e) by {
        if m.len() > 0 {
            let k = m.len() - 1;
            lemma_within(segs, a, b, s, e, k);
            lemma_cur_concat(p, m);
            assert(patches::cur_start(p + m, p.len() + k) == patches::cur_start(m, k)
                + patches::growth(p));
        } else if p.len() > 0 {
            assert(p + m =~= p);
            assert(patches::cur_start(p, p.len() - 1) <= patches::cur_end(p, p.len() - 1));
        }
    }
    assert forall|k: int|
        #![trigger patches::cur_start((p + m) + q, k)]
        (p + m).len() <= k < (p + m).len() + q.len() implies patches::cur_start((p + m) + q, k)
        > e by {
        let k2 = k - (p + m).len();
        lemma_cur_concat(p + m, q);
        assert(patches::cur_start((p + m) + q, (p + m).len() + k2) == patches::cur_start(q, k2)
            + patches::growth(p + m));
        assert(patches::cur_start(q, k2) >= o2);
    }
    lemma_started_by(p + m, q, e);
    assert(all.take(p.len() as int) =~= p);
    assert(all.skip((p.len() + m.len()) as int) =~= q);
    assert(all.take((p.len() + m.len()) as int) =~= p + m);
}

/// The sizes of the pieces that an edit leaves.
proof fn lemma_pieces(segs: Seq<Seg>, a: int, b: int, s: int, e: int, c: Seq<char>)
    requires
        segments::settled(segs),
        spans(segs, a, b, s, e),
    ensures
        ({
            let left = left_part(segs, a, s);
            let right = right_part(segs, b, e);
            let l = if segs[a].kept() { s - cum(segs, a) } else { 0 };
            let r = if segs[b].kept() { cum(segs, b + 1) - e } else { 0 };
            &&& segments::cur_len(left) == l && segments::orig_len(left) == l
            &&& segments::cur_len(right) == r && segments::orig_len(right) == r
            &&& segments::orig_len(segs.subrange(a, b + 1)) >= l + r
            &&& l + joined(segs, a, b, s, e, c).len() + r == s - cum(segs, a) + c.len() + cum(
                segs,
                b + 1,
            ) - e
            &&& forall|o: int| #[trigger] segments::patches_in(left, o) == Seq::<Patch>::empty()
            &&& forall|o: int| #[trigger] segments::patches_in(right, o) == Seq::<Patch>::empty()
        }),
{
    lemma_cum_mono(segs, a, b);
    lemma_cum_mono(segs, a, b + 1);
    lemma_cum_step(segs, a);
    lemma_cum_step(segs, b);
    lemma_empty();
    assert(segs[a].settled() && segs[b].settled());
    assert forall|o: int|
        segments::patches_in(left_part(segs, a, s), o) == Seq::<Patch>::empty() by {
        lemma_single(segments::kept_seg(s - cum(segs, a)), o);
    }
    assert forall|o: int|
        segments::patches_in(right_part(segs, b, e), o) == Seq::<Patch>::empty() by {
        lemma_single(segments::kept_seg(cum(segs, b) + segs[b].size - e), o);
    }
    lemma_single(segments::kept_seg(s - cum(segs, a)), 0);
    lemma_single(segments::kept_seg(cum(segs, b) + segs[b].size - e), 0);
    if a < b {
        lemma_cum_mono(segs, a + 1, b);
        lemma_cum_mono(segs, b, b + 1);
        lemma_cum_mono(segs, a, a + 1);
    }
}

proof fn lemma_join(x: Seq<Seg>, y: Seq<Seg>)
    requires
        segments::each_settled(x) && segments::alternates(x),
        segments::each_settled(y) && segments::alternates(y),
        x.len() > 0 && y.len() > 0 ==> x.last().kept() != y[0].kept(),
    ensures
        segments::each_settled(x + y) && segments::alternates(x + y),
{
    reveal(segments::alternates);
    let out = x + y;
    assert forall|k: int| 0 <= k < out.len() implies (#[trigger] out[k]).settled() by {
        if k < x.len() {
            assert(out[k] == x[k]);
        } else {
            assert(out[k] == y[k - x.len()]);
        }
    }
    assert forall|k: int, l: int|
        #![trigger out[k], out[l]]
        0 <= k && l == k + 1 && l < out.len() implies out[k].kept() != out[l].kept() by {
        if l < x.len() {
            assert(out[k] == x[k] && out[l] == x[l]);
        } else if k < x.len() {
            assert(out[k] == x.last() && out[l] == y[0]);
        } else {
            assert(out[k] == y[k - x.len()] && out[l] == y[l - x.len()]);
        }
    }
}

proof fn lemma_shape(segs: Seq<Seg>, a: int, b: int, s: int, e: int, c: Seq<char>)
    requires
        segments::settled(segs),
        spans(segs, a, b, s, e),
    ensures
        segments::settled(spliced(segs, a, b, s, e, c)),
{
    reveal(segments::alternates);
    let pre = segs.take(a);
    let post = segs.skip(b + 1);
    let left = left_part(segs, a, s);
    let right = right_part(segs, b, e);
    let content = joined(segs, a, b, s, e, c);
    let del = segments::orig_len(segs.subrange(a, b + 1)) - segments::orig_len(left)
        - segments::orig_len(right);
    let new = segments::repl_seg(content.len() as int, del, content);
    lemma_pieces(segs, a, b, s, e, c);
    lemma_cum_step(segs, b);
    assert(segs[a].settled() && segs[b].settled());
    assert(a > 0 ==> segs[a - 1].kept() != segs[a].kept());
    assert(b + 1 < segs.len() ==> segs[b].kept() != segs[b + 1].kept());
    assert(segments::each_settled(post)) by {
        assert forall|k: int| 0 <= k < post.len() implies (#[trigger] post[k]).settled() by {
            assert(post[k] == segs[b + 1 + k]);
        }
    }
    assert(segments::alternates(post)) by {
        assert forall|k: int, l: int|
            #![trigger post[k], post[l]]
            0 <= k && l == k + 1 && l < post.len() implies post[k].kept() != post[l].kept() by {
            assert(post[k] == segs[b + 1 + k] && post[l] == segs[b + 1 + l]);
        }
    }
    lemma_join(pre, left);
    lemma_join(pre + left, seq![new]);
    lemma_join(pre + left + seq![new], right);
    lemma_join(pre + left + seq![new] + right, post);
}

#[verifier::rlimit(50)]
proof fn lemma_emitted(segs: Seq<Seg>, a: int, b: int, s: int, e: int, c: Seq<char>)
    requires
        segments::settled(segs),
        spans(segs, a, b, s, e),
    ensures
        ({
            let left = left_part(segs, a, s);
            let right = right_part(segs, b, e);
            let o = segments::orig_len(segs.take(a)) + segments::orig_len(left);
            let del = segments::orig_len(segs.subrange(a, b + 1)) - segments::orig_len(left)
                - segments::orig_len(right);
            let p = segments::patches_in(segs.take(a), 0);
            let m = segments::patches_in(segs.subrange(a, b + 1), segments::orig_len(segs.take(a)));
            patches::merged(
                segments::patches_in(segs, 0),
                p.len() as int,
                (p.len() + m.len()) as int,
                s,
                e,
                c,
            ) == (Patch { start: o, end: o + del, content: joined(segs, a, b, s, e, c) })
        }),
{
    let pre = segs.take(a);
    let mid = segs.subrange(a, b + 1);
    let o = segments::orig_len(pre);
    let p = segments::patches_in(pre, 0);
    let m = segments::patches_in(mid, o);
    let q = segments::patches_in(segs.skip(b + 1), segments::orig_len(segs.take(b + 1)));
    let all = segments::patches_in(segs, 0);
    let i = p.len() as int;
    let j = (p.len() + m.len()) as int;
    lemma_touched(segs, a, b, s, e);
    lemma_pieces(segs, a, b, s, e, c);
    lemma_cum_mono(segs, a, b);
    lemma_cum_mono(segs, a, b + 1);
    lemma_cum_step(segs, a);
    lemma_cum_step(segs, b);
    assert(segs[a].settled() && segs[b].settled());
    lemma_cur_concat(p, m + q);
    lemma_cur_concat(m, q);
    assert(p + m + q =~= p + (m + q));

    // The first of the touched patches.
    let first = segs.subrange(a, a + 1);
    let inner = segs.subrange(a + 1, b + 1);
    assert(first =~= seq![segs[a]]);
    assert(mid =~= first + inner);
    lemma_concat(first, inner, o);
    lemma_single(segs[a], o);
    let m1 = segments::patches_in(first, o);
    let m2 = segments::patches_in(inner, o + segs[a].orig());
    if i < j {
        assert(all[i] == m[0]);
        assert(patches::cur_start(p + (m + q), p.len() + 0int) == patches::cur_start(m + q, 0)
            + patches::growth(p));
        assert(patches::cur_start(m + q, 0) == patches::cur_start(m, 0));
        assert(m.take(0) =~= Seq::<Patch>::empty());
        if segs[a].kept() {
            assert(m =~= m2);
            lemma_patches_in(inner, o + segs[a].orig());
            assert(patches::cur_start(m2, 0) >= o + segs[a].orig());
            assert(patches::cur_start(all, i) > s);
        } else {
            assert(m[0] == m1[0]);
            assert(patches::cur_start(all, i) == cum(segs, a));
        }
    }

    // The last of the touched patches.
    let upto = segs.subrange(a, b);
    let last = segs.subrange(b, b + 1);
    assert(last =~= seq![segs[b]]);
    assert(mid =~= upto + last);
    lemma_concat(upto, last, o);
    let o3 = o + segments::orig_len(upto);
    lemma_single(segs[b], o3);
    let n1 = segments::patches_in(upto, o);
    let n2 = segments::patches_in(last, o3);
    if i < j {
        let k = m.len() - 1;
        assert(all[j - 1] == m[k]);
        assert(patches::cur_start(p + (m + q), p.len() + k) == patches::cur_start(m + q, k)
            + patches::growth(p));
        assert(patches::cur_start(m + q, k) == patches::cur_start(m, k));
        assert(all.take(j).drop_last() =~= all.take(j - 1));
        assert(all.take(j).last() == all[j - 1]);
        lemma_patches_in(upto, o);
        if segs[b].kept() {
            assert(m =~= n1);
            assert(patches::cur_start(n1, k) <= patches::cur_end(n1, k));
            assert(patches::cur_end(n1, k) <= o + segments::cur_len(upto));
            assert(patches::cur_end(all, j - 1) <= cum(segs, b));
            if e <= patches::cur_end(all, j - 1) {
                assert(all[j - 1].content.skip(e - patches::cur_start(all, j - 1))
                    =~= Seq::<char>::empty());
            }
        } else {
            lemma_cur_concat(n1, n2);
            assert(k == n1.len());
            assert(m[k] == n2[0]);
            assert(patches::cur_start(n1 + n2, n1.len() + 0int) == patches::cur_start(n2, 0)
                + patches::growth(n1));
            assert(n2.take(0) =~= Seq::<Patch>::empty());
            assert(patches::cur_start(all, j - 1) == cum(segs, b));
            assert(patches::cur_end(all, j - 1) == cum(segs, b + 1));
        }
    }
    assert(patches::merged(all, i, j, s, e, c).content =~= joined(segs, a, b, s, e, c));
}

/// What an edit does to the segments is what composing does to the patches.
pub proof fn lemma_spliced(segs: Seq<Seg>, a: int, b: int, s: int, e: int, c: Seq<char>)
    requires
        segments::settled(segs),
        spans(segs, a, b, s, e),
    ensures
        segments::settled(spliced(segs, a, b, s, e, c)),
        segments::patches_in(spliced(segs, a, b, s, e, c), 0) == patches::compose(
            segments::patches_in(segs, 0),
            s,
            e,
            c,
        ),
        segments::cur_len(spliced(segs, a, b, s, e, c)) == segments::cur_len(segs) - (e - s)
            + c.len(),
        segments::orig_len(spliced(segs, a, b, s, e, c)) == segments::orig_len(segs),
{
    let pre = segs.take(a);
    let mid = segs.subrange(a, b + 1);
    let post = segs.skip(b + 1);
    let left = left_part(segs, a, s);
    let right = right_part(segs, b, e);
    let content = joined(segs, a, b, s, e, c);
    let o = segments::orig_len(pre);
    let del = segments::orig_len(mid) - segments::orig_len(left) - segments::orig_len(right);
    let new = segments::repl_seg(content.len() as int, del, content);
    let out = spliced(segs, a, b, s, e, c);
    lemma_shape(segs, a, b, s, e, c);
    lemma_touched(segs, a, b, s, e);
    lemma_pieces(segs, a, b, s, e, c);
    lemma_emitted(segs, a, b, s, e, c);
    lemma_cum_mono(segs, a, b + 1);
    assert(segs =~= pre + mid + post);
    lemma_concat(pre, mid, 0);
    lemma_concat(pre + mid, post, 0);
    assert(pre + mid =~= segs.take(b + 1));
    lemma_single(new, o + segments::orig_len(left));
    lemma_concat(pre, left, 0);
    lemma_concat(pre + left, seq![new], 0);
    lemma_concat(pre + left + seq![new], right, 0);
    lemma_concat(pre + left + seq![new] + right, post, 0);
    assert(segments::patches_in(out, 0) =~= patches::compose(
        segments::patches_in(segs, 0),
        s,
        e,
        c,
    ));
}

// ---- what the store's operations do to the sums ----

pub proof fn lemma_update(segs: Seq<Seg>, k: int, x: Seg)
    requires
        0 <= k < segs.len(),
    ensures
        segments::cur_len(segs.update(k, x)) == segments::cur_len(segs) - segs[k].size + x.size,
{
    let head = segs.take(k);
    let tail = segs.skip(k + 1);
    assert(segs =~= head + seq![segs[k]] + tail);
    assert(segs.update(k, x) =~= head + seq![x] + tail);
    lemma_concat(head, seq![segs[k]], 0);
    lemma_concat(head + seq![segs[k]], tail, 0);
    lemma_concat(head, seq![x], 0);
    lemma_concat(head + seq![x], tail, 0);
    lemma_single(segs[k], 0);
    lemma_single(x, 0);
}

pub proof fn lemma_insert(segs: Seq<Seg>, k: int, x: Seg)
    requires
        0 <= k <= segs.len(),
    ensures
        segments::cur_len(segs.insert(k, x)) == segments::cur_len(segs) + x.size,
{
    let head = segs.take(k);
    let tail = segs.skip(k);
    assert(segs =~= head + tail);
    assert(segs.insert(k, x) =~= head + seq![x] + tail);
    lemma_concat(head, tail, 0);
    lemma_concat(head, seq![x], 0);
    lemma_concat(head + seq![x], tail, 0);
    lemma_single(x, 0);
}

pub proof fn lemma_remove(segs: Seq<Seg>, k: int)
    requires
        0 <= k < segs.len(),
    ensures
        segments::cur_len(segs.remove(k)) == segments::cur_len(segs) - segs[k].size,
{
    let head = segs.take(k);
    let tail = segs.skip(k + 1);
    assert(segs =~= head + seq![segs[k]] + tail);
    assert(segs.remove(k) =~= head + tail);
    lemma_concat(head, seq![segs[k]], 0);
    lemma_concat(head + seq![segs[k]], tail, 0);
    lemma_concat(head, tail, 0);
    lemma_single(segs[k], 0);
}

pub proof fn lemma_index_of(ids: Seq<usize>, k: int)
    requires
        ids.no_duplicates(),
        0 <= k < ids.len(),
    ensures
        ids.contains(ids[k]),
        ids.index_of(ids[k]) == k,
{
    assert(ids.contains(ids[k]));
}

// ---- the edit ----

/// What holds where an edit of `s..e` starts in segment `a`, which is `node`.
spec fn at_node<T: SegStore>(st: T, node: usize, a: int, s: int, room: int) -> bool {
    &&& st.inv()
    &&& segments::settled(st.segs())
    &&& st.ids().len() == st.segs().len()
    &&& st.ids().no_duplicates()
    &&& segments::lands(st.segs(), s, a)
    &&& node == st.ids()[a]
    &&& segments::cur_len(st.segs()) + segments::orig_len(st.segs()) + room <= usize::MAX
}

proof fn lemma_at(segs: Seq<Seg>, a: int)
    requires
        segments::settled(segs),
        0 <= a < segs.len(),
    ensures
        segs[a].settled(),
        cum(segs, a + 1) == cum(segs, a) + segs[a].size,
        0 <= cum(segs, a),
        cum(segs, a + 1) <= segments::cur_len(segs),
        0 <= segs[a].orig() <= segments::orig_len(segs),
{
    lemma_cum_step(segs, a);
    lemma_cum_mono(segs, 0, a);
    lemma_cum_mono(segs, a + 1, segs.len() as int);
    assert(segs.take(segs.len() as int) =~= segs);
    assert(segs[a].settled());
}

/// An edit inside a kept segment: splits it around a new replacement.
#[verifier::rlimit(60)]
#[verifier::spinoff_prover]
fn split_kept<T: SegStore>(
    st: &mut T,
    node: usize,
    start: usize,
    del: usize,
    content: &str,
    Ghost(a): Ghost<int>,
    Ghost(s): Ghost<int>,
)
    requires
        at_node(*old(st), node, a, s, content@.len() as int),
        start == s - cum(old(st).segs(), a),
        start + del < old(st).segs()[a].size,
        old(st).segs()[a].kept(),
    ensures
        final(st).inv(),
        final(st).segs() == spliced(old(st).segs(), a, a, s, s + del, content@),
{
    let ghost segs = st.segs();
    let ghost ids = st.ids();
    let ghost e = s + del;
    proof {
        lemma_at(segs, a);
        lemma_index_of(ids, a);
        lemma_pieces(segs, a, a, s, e, content@);
        assert(segs.subrange(a, a + 1) =~= seq![segs[a]]);
        lemma_single(segs[a], 0);
    }
    let node_size = st.seg(node).size;
    let ghost mut at = a;
    if start > 0 {
        let left = st.insert_before(node, Segment::kept(0));
        proof {
            st.lemma_ids();
            lemma_insert(segs, a, segments::kept_seg(0));
            lemma_index_of(st.ids(), a);
            lemma_index_of(st.ids(), a + 1);
            lemma_update(st.segs(), a, segments::kept_seg(start as int));
        }
        st.resize(left, start);
        proof {
            at = a + 1;
        }
    }
    let ghost mid_segs = st.segs();
    let ghost left_segs = left_part(segs, a, s);
    proof {
        assert(at == a + left_segs.len());
        assert(mid_segs =~= segs.take(a) + left_segs + segs.skip(a));
        st.lemma_ids();
        assert(st.ids()[at] == node);
        lemma_index_of(st.ids(), at);
        lemma_insert(mid_segs, at, segments::repl_seg(0, del as int, content@));
    }
    let x = st.insert_before(node, Segment::repl(content, del));
    let ghost with_x = st.segs();
    let n: usize = cp_len(content);
    proof {
        st.lemma_ids();
        lemma_index_of(st.ids(), at);
        lemma_index_of(st.ids(), at + 1);
        lemma_update(with_x, at, segments::repl_seg(n as int, del as int, content@));
    }
    st.resize(x, n);
    proof {
        lemma_update(st.segs(), at + 1, segments::kept_seg(node_size - (start + del)));
    }
    st.resize(node, node_size - (start + del));
    proof {
        assert(joined(segs, a, a, s, e, content@) =~= content@);
        let x_seg = segments::repl_seg(n as int, del as int, content@);
        let right = right_part(segs, a, e);
        assert(st.segs()[at] == x_seg);
        assert(st.segs()[at + 1] == right[0]);
        assert(st.segs() =~= segs.take(a) + left_segs + seq![x_seg] + right + segs.skip(a + 1));
        assert(st.segs() =~= spliced(segs, a, a, s, e, content@));
    }
}

/// An edit inside a replacement: splices its content.
fn splice_content<T: SegStore>(
    st: &mut T,
    node: usize,
    start: usize,
    del: usize,
    content: &str,
    Ghost(a): Ghost<int>,
    Ghost(s): Ghost<int>,
)
    requires
        at_node(*old(st), node, a, s, content@.len() as int),
        start == s - cum(old(st).segs(), a),
        start + del < old(st).segs()[a].size,
        !old(st).segs()[a].kept(),
    ensures
        final(st).inv(),
        final(st).segs() == spliced(old(st).segs(), a, a, s, s + del, content@),
{
    let ghost segs = st.segs();
    let ghost ids = st.ids();
    let ghost e = s + del;
    proof {
        lemma_at(segs, a);
        lemma_index_of(ids, a);
        lemma_pieces(segs, a, a, s, e, content@);
        assert(segs.subrange(a, a + 1) =~= seq![segs[a]]);
        lemma_single(segs[a], 0);
    }
    let c = st.seg(node).content.as_ref().unwrap();
    let mut text = String::new();
    text.append(head_of(c.as_str(), start));
    text.append(content);
    text.append(tail_of(c.as_str(), start + del));
    let del_keep = st.seg(node).del;
    let n: usize = cp_len(text.as_str());
    st.set_content(node, Some(SmartString::from_text(text.as_str())), del_keep);
    proof {
        assert(joined(segs, a, a, s, e, content@) =~= text@);
        let seg0 = st.segs()[a];
        lemma_update(segs, a, seg0);
        lemma_update(st.segs(), a, Seg { size: n as int, ..seg0 });
    }
    st.resize(node, n);
    proof {
        assert(st.segs() =~= spliced(segs, a, a, s, e, content@));
    }
}

/// Swallows the whole segments that follow `node` and that the edit covers.
/// Returns the segment that the edit ends in, the position of the end within
/// it, and how many original characters the swallowed segments stood for.
#[verifier::rlimit(50)]
fn swallow<T: SegStore>(
    st: &mut T,
    node: usize,
    past: usize,
    Ghost(a): Ghost<int>,
    Ghost(s): Ghost<int>,
    Ghost(e): Ghost<int>,
) -> (out: (usize, usize, usize, Ghost<int>))
    requires
        at_node(*old(st), node, a, s, 0),
        past == e - cum(old(st).segs(), a + 1),
        s <= e < segments::cur_len(old(st).segs()),
    ensures
        final(st).inv(),
        ({
            let (next, remaining, middle_del, m) = out;
            &&& a < m@
            &&& spans(old(st).segs(), a, m@, s, e)
            &&& remaining == e - cum(old(st).segs(), m@)
            &&& middle_del == segments::orig_len(old(st).segs().subrange(a + 1, m@))
            &&& next == old(st).ids()[m@]
            &&& final(st).ids() == old(st).ids().take(a + 1) + old(st).ids().skip(m@)
            &&& final(st).segs() == old(st).segs().take(a + 1) + old(st).segs().skip(m@)
            &&& segments::cur_len(final(st).segs()) <= segments::cur_len(old(st).segs())
        }),
{
    let ghost segs = st.segs();
    let ghost ids = st.ids();
    let ghost total = segments::cur_len(segs);
    let mut remaining: usize = past;
    let mut middle_del: usize = 0;
    let ghost mut m = a + 1;
    proof {
        lemma_at(segs, a);
        lemma_nonneg(segs);
        lemma_index_of(ids, a);
        assert(segs.subrange(a + 1, a + 1) =~= Seq::<Seg>::empty());
        assert(segs.take(a + 1) + segs.skip(m) =~= segs);
        assert(ids.take(a + 1) + ids.skip(m) =~= ids);
        if m == segs.len() {
            assert(segs.take(m) =~= segs);
        }
        lemma_index_of(ids, a + 1);
    }
    let mut next = st.next_of(node);
    while remaining >= st.seg(next).size
        invariant
            st.inv(),
            segments::settled(segs),
            ids.len() == segs.len(),
            ids.no_duplicates(),
            0 <= a < m < segs.len(),
            node == ids[a],
            next == ids[m],
            st.ids() == ids.take(a + 1) + ids.skip(m),
            st.segs() == segs.take(a + 1) + segs.skip(m),
            segments::cur_len(st.segs()) <= total,
            segments::cur_len(segs) == total,
            total + segments::orig_len(segs) <= usize::MAX,
            e < total,
            remaining == e - cum(segs, m),
            middle_del == segments::orig_len(segs.subrange(a + 1, m)),
            st.ids().contains(next),
            st.ids().index_of(next) == a + 1,
        decreases segs.len() - m,
    {
        proof {
            assert(st.segs()[a + 1] == segs[m]);
            lemma_at(segs, m);
            lemma_cum_mono(segs, a + 1, m + 1);
            lemma_cum_mono(segs, m + 1, segs.len() as int);
            assert(segs.take(segs.len() as int) =~= segs);
            assert(segs.subrange(a + 1, m + 1).drop_last() =~= segs.subrange(a + 1, m));
        }
        remaining -= st.seg(next).size;
        middle_del += st.seg(next).del_or_size();
        let ghost before = st.segs();
        let ghost before_ids = st.ids();
        proof {
            lemma_update(before, a + 1, Seg { size: 0, ..before[a + 1] });
        }
        st.resize(next, 0);
        proof {
            lemma_remove(st.segs(), a + 1);
        }
        st.remove(next);
        proof {
            assert(before_ids.remove(a + 1) =~= ids.take(a + 1) + ids.skip(m + 1));
            assert(st.segs() =~= segs.take(a + 1) + segs.skip(m + 1));
            m = m + 1;
            st.lemma_ids();
            lemma_index_of(st.ids(), a);
            lemma_index_of(st.ids(), a + 1);
            assert(st.ids()[a] == node);
        }
        next = st.next_of(node);
    }
    proof {
        assert(st.segs()[a + 1] == segs[m]);
        lemma_cum_mono(segs, a + 1, m);
    }
    (next, remaining, middle_del, Ghost(m))
}

/// What holds where an edit of `s..e` of the segments `segs` starts in
/// segment `a`, which is `node`, ends in segment `m`, which is `next`, and the
/// segments between the two were swallowed.
spec fn at_pair<T: SegStore>(
    st: T,
    node: usize,
    next: usize,
    segs: Seq<Seg>,
    a: int,
    m: int,
    s: int,
    e: int,
    room: int,
) -> bool {
    &&& st.inv()
    &&& segments::settled(segs)
    &&& 0 <= a < m < segs.len()
    &&& spans(segs, a, m, s, e)
    &&& st.ids().len() == st.segs().len()
    &&& st.ids().no_duplicates()
    &&& node == st.ids()[a]
    &&& next == st.ids()[a + 1]
    &&& st.segs() == segs.take(a + 1) + segs.skip(m)
    &&& segments::cur_len(st.segs()) <= segments::cur_len(segs)
    &&& segments::cur_len(segs) + segments::orig_len(segs) + room <= usize::MAX
}

/// The numbers that go with [`at_pair`].
spec fn pair_numbers(
    segs: Seq<Seg>,
    a: int,
    m: int,
    s: int,
    e: int,
    start: usize,
    remaining: usize,
    middle_del: usize,
) -> bool {
    &&& start == s - cum(segs, a)
    &&& remaining == e - cum(segs, m)
    &&& middle_del == segments::orig_len(segs.subrange(a + 1, m))
}

proof fn lemma_pair<T: SegStore>(
    st: T,
    node: usize,
    next: usize,
    segs: Seq<Seg>,
    a: int,
    m: int,
    s: int,
    e: int,
    c: Seq<char>,
)
    requires
        at_pair(st, node, next, segs, a, m, s, e, c.len() as int),
    ensures
        segments::cur_len(segs) >= 0,
        st.ids().contains(node) && st.ids().index_of(node) == a,
        st.ids().contains(next) && st.ids().index_of(next) == a + 1,
        st.segs()[a] == segs[a],
        st.segs()[a + 1] == segs[m],
        segs[a].settled() && segs[m].settled(),
        st.segs().take(a) == segs.take(a),
        st.segs().skip(a + 2) == segs.skip(m + 1),
        cum(segs, a + 1) == cum(segs, a) + segs[a].size,
        cum(segs, m + 1) == cum(segs, m) + segs[m].size,
        segments::orig_len(segs.subrange(a, m + 1)) == segs[a].orig() + segments::orig_len(
            segs.subrange(a + 1, m),
        ) + segs[m].orig(),
        segments::orig_len(segs.subrange(a, m + 1)) <= segments::orig_len(segs),
        segments::orig_len(segs.subrange(a + 1, m)) >= 0,
        0 <= segs[a].orig() && 0 <= segs[m].orig(),
        segments::orig_len(left_part(segs, a, s)) == if segs[a].kept() {
            s - cum(segs, a)
        } else {
            0
        },
        segments::orig_len(right_part(segs, m, e)) == if segs[m].kept() {
            cum(segs, m + 1) - e
        } else {
            0
        },
        joined(segs, a, m, s, e, c).len() <= s - cum(segs, a) + c.len() + cum(segs, m + 1) - e,
{
    lemma_nonneg(segs);
    lemma_index_of(st.ids(), a);
    lemma_index_of(st.ids(), a + 1);
    lemma_pieces(segs, a, m, s, e, c);
    lemma_between(segs, a, m);
    assert(segs[a].settled() && segs[m].settled());
    assert(st.segs().skip(a + 2) =~= segs.skip(m + 1));
    assert(st.segs().take(a) =~= segs.take(a));
}

/// The sums over the segments `a..=m`.
proof fn lemma_between(segs: Seq<Seg>, a: int, m: int)
    requires
        segments::settled(segs),
        0 <= a < m < segs.len(),
    ensures
        cum(segs, a + 1) == cum(segs, a) + segs[a].size,
        cum(segs, m + 1) == cum(segs, m) + segs[m].size,
        segments::orig_len(segs.subrange(a, m + 1)) == segs[a].orig() + segments::orig_len(
            segs.subrange(a + 1, m),
        ) + segs[m].orig(),
        segments::orig_len(segs.subrange(a, m + 1)) <= segments::orig_len(segs),
        segments::orig_len(segs.subrange(a + 1, m)) >= 0,
        0 <= segs[a].orig() && 0 <= segs[m].orig(),
{
    lemma_at(segs, a);
    lemma_at(segs, m);
    lemma_cum_step(segs, a);
    lemma_cum_step(segs, m);
    lemma_cum_mono(segs, a, m + 1);
    lemma_cum_mono(segs, a + 1, m);
    lemma_cum_mono(segs, 0, a);
    lemma_cum_mono(segs, m + 1, segs.len() as int);
    assert(segs.take(segs.len() as int) =~= segs);
}

/// An edit from kept text into kept text: a new replacement between the two.
#[verifier::rlimit(50)]
fn join_kept_kept<T: SegStore>(
    st: &mut T,
    node: usize,
    next: usize,
    start: usize,
    remaining: usize,
    middle_del: usize,
    content: &str,
    Ghost(segs): Ghost<Seq<Seg>>,
    Ghost(a): Ghost<int>,
    Ghost(m): Ghost<int>,
    Ghost(s): Ghost<int>,
    Ghost(e): Ghost<int>,
)
    requires
        at_pair(*old(st), node, next, segs, a, m, s, e, content@.len() as int),
        pair_numbers(segs, a, m, s, e, start, remaining, middle_del),
        segs[a].kept() && segs[m].kept(),
    ensures
        final(st).inv(),
        final(st).segs() == spliced(segs, a, m, s, e, content@),
{
    let ghost cut = st.segs();
    let ghost pre = segs.take(a);
    let ghost post = segs.skip(m + 1);
    proof {
        lemma_pair(*st, node, next, segs, a, m, s, e, content@);
    }
    let node_size = st.seg(node).size;
    let next_size = st.seg(next).size;
    let n: usize = cp_len(content);
    proof {
        assert(joined(segs, a, m, s, e, content@) =~= content@);
    }
    if start == 0 {
        // The kept segment becomes the replacement outright.
        let new_del: usize = node_size + middle_del + remaining;
        st.set_content(node, Some(SmartString::from_text(content)), new_del);
        proof {
            lemma_update(cut, a, st.segs()[a]);
            lemma_update(st.segs(), a, Seg { size: n as int, ..st.segs()[a] });
        }
        st.resize(node, n);
        proof {
            lemma_update(
                st.segs(),
                a + 1,
                Seg { size: next_size - remaining, ..st.segs()[a + 1] },
            );
        }
        st.resize(next, next_size - remaining);
        proof {
            let x = segments::repl_seg(n as int, new_del as int, content@);
            assert(st.segs() =~= pre + left_part(segs, a, s) + seq![x] + right_part(segs, m, e)
                + post);
        }
    } else {
        proof {
            lemma_update(cut, a, Seg { size: start as int, ..cut[a] });
        }
        st.resize(node, start);
        let new_del: usize = node_size - start + middle_del + remaining;
        let ghost shrunk = st.segs();
        proof {
            lemma_insert(shrunk, a + 1, segments::repl_seg(0, new_del as int, content@));
        }
        let x = st.insert_after(node, Segment::repl(content, new_del));
        proof {
            st.lemma_ids();
            lemma_index_of(st.ids(), a + 1);
            lemma_index_of(st.ids(), a + 2);
            lemma_update(
                st.segs(),
                a + 1,
                segments::repl_seg(n as int, new_del as int, content@),
            );
        }
        st.resize(x, n);
        proof {
            lemma_update(
                st.segs(),
                a + 2,
                Seg { size: next_size - remaining, ..st.segs()[a + 2] },
            );
        }
        st.resize(next, next_size - remaining);
        proof {
            let x = segments::repl_seg(n as int, new_del as int, content@);
            assert(st.segs() =~= pre + left_part(segs, a, s) + seq![x] + right_part(segs, m, e)
                + post);
        }
    }
}

/// An edit from kept text into a replacement: prepends to that.
fn join_kept_repl<T: SegStore>(
    st: &mut T,
    node: usize,
    next: usize,
    start: usize,
    remaining: usize,
    middle_del: usize,
    content: &str,
    Ghost(segs): Ghost<Seq<Seg>>,
    Ghost(a): Ghost<int>,
    Ghost(m): Ghost<int>,
    Ghost(s): Ghost<int>,
    Ghost(e): Ghost<int>,
)
    requires
        at_pair(*old(st), node, next, segs, a, m, s, e, content@.len() as int),
        pair_numbers(segs, a, m, s, e, start, remaining, middle_del),
        segs[a].kept() && !segs[m].kept(),
    ensures
        final(st).inv(),
        final(st).segs() == spliced(segs, a, m, s, e, content@),
{
    let ghost cut = st.segs();
    let ghost pre = segs.take(a);
    let ghost post = segs.skip(m + 1);
    proof {
        lemma_pair(*st, node, next, segs, a, m, s, e, content@);
    }
    let node_size = st.seg(node).size;
    let nc = st.seg(next).content.as_ref().unwrap();
    let mut text = String::new();
    text.append(content);
    text.append(tail_of(nc.as_str(), remaining));
    let new_del: usize = st.seg(next).del + (node_size - start) + middle_del;
    let n: usize = cp_len(text.as_str());
    st.set_content(next, Some(SmartString::from_text(text.as_str())), new_del);
    let ghost set = st.segs();
    proof {
        assert(joined(segs, a, m, s, e, content@) =~= text@);
        lemma_update(cut, a + 1, set[a + 1]);
        lemma_update(set, a, Seg { size: start as int, ..set[a] });
    }
    st.resize(node, start);
    let ghost mut at = a + 1;
    if st.seg(node).size == 0 {
        proof {
            lemma_remove(st.segs(), a);
        }
        st.remove(node);
        proof {
            at = a;
        }
    }
    proof {
        st.lemma_ids();
        assert(st.ids()[at] == next);
        lemma_index_of(st.ids(), at);
        assert(st.segs()[at] == set[a + 1]);
        lemma_update(st.segs(), at, Seg { size: n as int, ..st.segs()[at] });
    }
    st.resize(next, n);
    proof {
        let x = segments::repl_seg(n as int, new_del as int, text@);
        assert(st.segs() =~= pre + left_part(segs, a, s) + seq![x] + right_part(segs, m, e)
            + post);
    }
}

/// An edit from a replacement into kept text: appends to that replacement.
fn join_repl_kept<T: SegStore>(
    st: &mut T,
    node: usize,
    next: usize,
    start: usize,
    remaining: usize,
    middle_del: usize,
    content: &str,
    Ghost(segs): Ghost<Seq<Seg>>,
    Ghost(a): Ghost<int>,
    Ghost(m): Ghost<int>,
    Ghost(s): Ghost<int>,
    Ghost(e): Ghost<int>,
)
    requires
        at_pair(*old(st), node, next, segs, a, m, s, e, content@.len() as int),
        pair_numbers(segs, a, m, s, e, start, remaining, middle_del),
        !segs[a].kept() && segs[m].kept(),
    ensures
        final(st).inv(),
        final(st).segs() == spliced(segs, a, m, s, e, content@),
{
    let ghost cut = st.segs();
    let ghost pre = segs.take(a);
    let ghost post = segs.skip(m + 1);
    proof {
        lemma_pair(*st, node, next, segs, a, m, s, e, content@);
    }
    let next_size = st.seg(next).size;
    let c = st.seg(node).content.as_ref().unwrap();
    let mut text = String::new();
    text.append(head_of(c.as_str(), start));
    text.append(content);
    let new_del: usize = st.seg(node).del + middle_del + remaining;
    let n: usize = cp_len(text.as_str());
    st.set_content(node, Some(SmartString::from_text(text.as_str())), new_del);
    let ghost set = st.segs();
    proof {
        assert(joined(segs, a, m, s, e, content@) =~= text@);
        lemma_update(cut, a, set[a]);
        lemma_update(set, a, Seg { size: n as int, ..set[a] });
    }
    st.resize(node, n);
    proof {
        lemma_update(st.segs(), a + 1, Seg { size: next_size - remaining, ..st.segs()[a + 1] });
    }
    st.resize(next, next_size - remaining);
    proof {
        let x = segments::repl_seg(n as int, new_del as int, text@);
        assert(st.segs() =~= pre + left_part(segs, a, s) + seq![x] + right_part(segs, m, e)
            + post);
    }
}

/// An edit from a replacement into another: bridges the two into one.
fn join_repl_repl<T: SegStore>(
    st: &mut T,
    node: usize,
    next: usize,
    start: usize,
    remaining: usize,
    middle_del: usize,
    content: &str,
    Ghost(segs): Ghost<Seq<Seg>>,
    Ghost(a): Ghost<int>,
    Ghost(m): Ghost<int>,
    Ghost(s): Ghost<int>,
    Ghost(e): Ghost<int>,
)
    requires
        at_pair(*old(st), node, next, segs, a, m, s, e, content@.len() as int),
        pair_numbers(segs, a, m, s, e, start, remaining, middle_del),
        !segs[a].kept() && !segs[m].kept(),
    ensures
        final(st).inv(),
        final(st).segs() == spliced(segs, a, m, s, e, content@),
{
    let ghost cut = st.segs();
    let ghost pre = segs.take(a);
    let ghost post = segs.skip(m + 1);
    proof {
        lemma_pair(*st, node, next, segs, a, m, s, e, content@);
    }
    let c = st.seg(node).content.as_ref().unwrap();
    let nc = st.seg(next).content.as_ref().unwrap();
    let mut text = String::new();
    text.append(head_of(c.as_str(), start));
    text.append(content);
    text.append(tail_of(nc.as_str(), remaining));
    let new_del: usize = st.seg(node).del + middle_del + st.seg(next).del;
    let n: usize = cp_len(text.as_str());
    st.set_content(node, Some(SmartString::from_text(text.as_str())), new_del);
    let ghost set = st.segs();
    proof {
        assert(joined(segs, a, m, s, e, content@) =~= text@);
        lemma_update(cut, a, set[a]);
        lemma_update(set, a + 1, Seg { size: 0, ..set[a + 1] });
    }
    st.resize(next, 0);
    proof {
        lemma_remove(st.segs(), a + 1);
    }
    st.remove(next);
    proof {
        st.lemma_ids();
        assert(st.ids()[a] == node);
        lemma_index_of(st.ids(), a);
        assert(st.segs()[a] == set[a]);
        lemma_update(st.segs(), a, Seg { size: n as int, ..set[a] });
    }
    st.resize(node, n);
    proof {
        let x = segments::repl_seg(n as int, new_del as int, text@);
        assert(st.segs() =~= pre + left_part(segs, a, s) + seq![x] + right_part(segs, m, e)
            + post);
    }
}

/// Splices one relative replacement into the segments.
#[verifier::rlimit(80)]
pub fn apply_one<T: SegStore>(st: &mut T, start_abs: usize, del: usize, content: &str)
    requires
        old(st).inv(),
        segments::settled(old(st).segs()),
        start_abs + del < segments::cur_len(old(st).segs()),
        segments::cur_len(old(st).segs()) + segments::orig_len(old(st).segs()) + content@.len()
            <= usize::MAX,
    ensures
        final(st).inv(),
        segments::settled(final(st).segs()),
        segments::patches_in(final(st).segs(), 0) == patches::compose(
            segments::patches_in(old(st).segs(), 0),
            start_abs as int,
            start_abs + del,
            content@,
        ),
        segments::cur_len(final(st).segs()) == segments::cur_len(old(st).segs()) - del
            + content@.len(),
        segments::orig_len(final(st).segs()) == segments::orig_len(old(st).segs()),
{
    let ghost segs = st.segs();
    let ghost ids = st.ids();
    proof {
        st.lemma_ids();
        lemma_nonneg(segs);
    }
    let (node, start) = st.locate(start_abs);
    let ghost s = start_abs as int;
    let ghost e = s + del;
    let ghost a = choose|k: int|
        #![trigger ids[k]]
        segments::lands(segs, s, k) && node == ids[k] && start == s - segments::cur_len(
            segs.take(k),
        );
    proof {
        lemma_index_of(ids, a);
        lemma_at(segs, a);
    }
    let node_size = st.seg(node).size;
    if start + del < node_size {
        // The edit lies inside this segment.
        proof {
            lemma_spliced(segs, a, a, s, e, content@);
        }
        if st.seg(node).is_kept() {
            split_kept(st, node, start, del, content, Ghost(a), Ghost(s));
        } else {
            splice_content(st, node, start, del, content, Ghost(a), Ghost(s));
        }
    } else {
        // The edit runs past this segment: swallow the whole segments that
        // follow, then merge with the one that it ends in.
        let past: usize = start + del - node_size;
        let (next, remaining, middle_del, Ghost(m)) = swallow(
            st,
            node,
            past,
            Ghost(a),
            Ghost(s),
            Ghost(e),
        );
        proof {
            lemma_spliced(segs, a, m, s, e, content@);
        }
        proof {
            st.lemma_ids();
            lemma_index_of(st.ids(), a);
            lemma_index_of(st.ids(), a + 1);
            assert(st.ids()[a] == node && st.ids()[a + 1] == next);
        }
        let node_kept = st.seg(node).is_kept();
        let next_kept = st.seg(next).is_kept();
        if node_kept && next_kept {
            join_kept_kept(
                st,
                node,
                next,
                start,
                remaining,
                middle_del,
                content,
                Ghost(segs),
                Ghost(a),
                Ghost(m),
                Ghost(s),
                Ghost(e),
            );
        } else if node_kept {
            join_kept_repl(
                st,
                node,
                next,
                start,
                remaining,
                middle_del,
                content,
                Ghost(segs),
                Ghost(a),
                Ghost(m),
                Ghost(s),
                Ghost(e),
            );
        } else if next_kept {
            join_repl_kept(
                st,
                node,
                next,
                start,
                remaining,
                middle_del,
                content,
                Ghost(segs),
                Ghost(a),
                Ghost(m),
                Ghost(s),
                Ghost(e),
            );
        } else {
            join_repl_repl(
                st,
                node,
                next,
                start,
                remaining,
                middle_del,
                content,
                Ghost(segs),
                Ghost(a),
                Ghost(m),
                Ghost(s),
                Ghost(e),
            );
        }
    }
}

} // verus!
