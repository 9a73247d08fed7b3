//! What holds of converted patches: they give the text that the patches made one
//! after the other give, and stand in order.

use crate::patches;
use crate::patches::Patch;
use crate::segments;
use crate::segments::Seg;
use crate::splice;
use vstd::prelude::*;

verus! {

/// The text of `base` from `from` to `to`, with the patches made that lie there.
spec fn laid(base: Seq<char>, from: int, list: Seq<Patch>, to: int) -> Seq<char>
    decreases list.len(),
{
    if list.len() == 0 {
        base.subrange(from, to)
    } else {
        let p = list.last();
        laid(base, from, list.drop_last(), p.start) + p.content + base.subrange(p.end, to)
    }
}

/// Whether the patches stand in order between `from` and `to`.
#[verifier::opaque]
spec fn between(from: int, list: Seq<Patch>, to: int) -> bool {
    &&& patches::separated(list)
    &&& from <= to
    &&& list.len() > 0 ==> from <= list[0].start && list.last().end <= to
}

proof fn lemma_between_parts(from: int, x: Seq<Patch>, y: Seq<Patch>, to: int, mid: int)
    requires
        between(from, x + y, to),
        from <= mid <= to,
        x.len() > 0 ==> x.last().end <= mid,
        y.len() > 0 ==> mid <= y[0].start,
    ensures
        between(from, x, mid),
        between(mid, y, to),
{
    reveal(between);
    let all = x + y;
    assert forall|k: int| 0 <= k < x.len() implies 0 <= (#[trigger] x[k]).start <= x[k].end by {
        assert(x[k] == all[k]);
    }
    assert forall|k: int, l: int| 0 <= k < l < x.len() implies (#[trigger] x[k]).end < (
    #[trigger] x[l]).start by {
        assert(x[k] == all[k] && x[l] == all[l]);
    }
    assert forall|k: int| 0 <= k < y.len() implies 0 <= (#[trigger] y[k]).start <= y[k].end by {
        assert(y[k] == all[x.len() + k]);
    }
    assert forall|k: int, l: int| 0 <= k < l < y.len() implies (#[trigger] y[k]).end < (
    #[trigger] y[l]).start by {
        assert(y[k] == all[x.len() + k] && y[l] == all[x.len() + l]);
    }
    if x.len() > 0 {
        assert(all[0] == x[0]);
    }
    if y.len() > 0 {
        assert(all.last() == y.last());
    }
}

proof fn lemma_between_last(from: int, list: Seq<Patch>, to: int)
    requires
        between(from, list, to),
        list.len() > 0,
    ensures
        between(from, list.drop_last(), list.last().start),
        from <= list.last().start <= list.last().end <= to,
{
    reveal(between);
    let x = list.drop_last();
    let p = list.last();
    assert(p == list[list.len() - 1]);
    assert(list[0].start <= p.start) by {
        if list.len() > 1 {
            assert(list[0].end < p.start);
        }
    }
    assert(x + seq![p] =~= list);
    if x.len() > 0 {
        assert(x.last() == list[list.len() - 2]);
    }
    lemma_between_parts(from, x, seq![p], to, p.start);
}

proof fn lemma_laid_len(base: Seq<char>, from: int, list: Seq<Patch>, to: int)
    requires
        between(from, list, to),
        0 <= from,
        to <= base.len(),
    ensures
        laid(base, from, list, to).len() == to - from + patches::growth(list),
    decreases list.len(),
{
    reveal(between);
    if list.len() > 0 {
        lemma_between_last(from, list, to);
        lemma_laid_len(base, from, list.drop_last(), list.last().start);
    }
}

#[verifier::rlimit(50)]
proof fn lemma_laid_split(
    base: Seq<char>,
    from: int,
    x: Seq<Patch>,
    mid: int,
    y: Seq<Patch>,
    to: int,
)
    requires
        between(from, x + y, to),
        0 <= from,
        to <= base.len(),
        from <= mid <= to,
        x.len() > 0 ==> x.last().end <= mid,
        y.len() > 0 ==> mid <= y[0].start,
    ensures
        laid(base, from, x + y, to) == laid(base, from, x, mid) + laid(base, mid, y, to),
    decreases y.len(),
{
    lemma_between_parts(from, x, y, to, mid);
    if y.len() == 0 {
        assert(x + y =~= x);
        if x.len() == 0 {
            assert(base.subrange(from, to) =~= base.subrange(from, mid) + base.subrange(mid, to));
        } else {
            let p = x.last();
            lemma_between_last(from, x, mid);
            assert(base.subrange(p.end, to) =~= base.subrange(p.end, mid) + base.subrange(mid, to));
            assert(laid(base, from, x, to) =~= laid(base, from, x, mid) + base.subrange(mid, to));
        }
    } else {
        let p = y.last();
        let y1 = y.drop_last();
        assert((x + y).drop_last() =~= x + y1);
        assert((x + y).last() == p);
        lemma_between_last(from, x + y, to);
        lemma_between_last(mid, y, to);
        if y1.len() > 0 {
            assert(y1[0] == y[0]);
        }
        lemma_laid_split(base, from, x, mid, y1, p.start);
        assert(laid(base, from, x + y, to) =~= laid(base, from, x, mid) + laid(base, mid, y, to));
    }
}

/// Making the patches of a text puts their contents in place of what they cover.
proof fn lemma_laid(base: Seq<char>, list: Seq<Patch>)
    requires
        between(0, list, base.len() as int),
    ensures
        patches::apply_absolute(base, list) == laid(base, 0, list, base.len() as int),
    decreases list.len(),
{
    reveal(between);
    let n = base.len() as int;
    if list.len() == 0 {
        assert(base.subrange(0, n) =~= base);
    } else {
        let x = list.drop_last();
        let p = list.last();
        lemma_between_last(0, list, n);
        assert(between(0, x, n));
        lemma_laid(base, x);
        assert(x + Seq::<Patch>::empty() =~= x);
        lemma_laid_split(base, 0, x, p.start, Seq::empty(), n);
        lemma_laid_len(base, 0, x, p.start);
        assert(list.take(list.len() - 1) =~= x);
        let at = patches::cur_start(list, list.len() - 1);
        let before = laid(base, 0, x, p.start);
        let all = laid(base, 0, x, n);
        assert(before.len() == at);
        assert(all =~= before + base.subrange(p.start, n));
        assert(all.subrange(0, at) =~= before);
        assert(all.subrange(at + (p.end - p.start), all.len() as int) =~= base.subrange(p.end, n));
    }
}

proof fn lemma_cur_prefix(list: Seq<Patch>, k: int)
    requires
        0 <= k < list.len() - 1,
    ensures
        patches::cur_start(list.drop_last(), k) == patches::cur_start(list, k),
        patches::cur_end(list.drop_last(), k) == patches::cur_end(list, k),
{
    assert(list.drop_last().take(k) =~= list.take(k));
}

proof fn lemma_ended_before(list: Seq<Patch>, s: int)
    ensures
        ({
            let i = patches::ended_before(list, s) as int;
            &&& 0 <= i <= list.len()
            &&& i > 0 ==> patches::cur_end(list, i - 1) < s
            &&& forall|k: int| i <= k < list.len() ==> #[trigger] patches::cur_end(list, k) >= s
        }),
    decreases list.len(),
{
    if list.len() > 0 && !(patches::cur_end(list, list.len() - 1) < s) {
        let x = list.drop_last();
        let i = patches::ended_before(list, s) as int;
        lemma_ended_before(x, s);
        if i > 0 {
            lemma_cur_prefix(list, i - 1);
        }
        assert forall|k: int| i <= k < list.len() implies #[trigger] patches::cur_end(list, k)
            >= s by {
            if k < list.len() - 1 {
                lemma_cur_prefix(list, k);
                assert(patches::cur_end(x, k) >= s);
            }
        }
    }
}

proof fn lemma_started_by(list: Seq<Patch>, e: int)
    ensures
        ({
            let j = patches::started_by(list, e) as int;
            &&& 0 <= j <= list.len()
            &&& j > 0 ==> patches::cur_start(list, j - 1) <= e
            &&& forall|k: int| j <= k < list.len() ==> #[trigger] patches::cur_start(list, k) > e
        }),
    decreases list.len(),
{
    if list.len() > 0 && !(patches::cur_start(list, list.len() - 1) <= e) {
        let x = list.drop_last();
        let j = patches::started_by(list, e) as int;
        lemma_started_by(x, e);
        if j > 0 {
            lemma_cur_prefix(list, j - 1);
        }
        assert forall|k: int| j <= k < list.len() implies #[trigger] patches::cur_start(list, k)
            > e by {
            if k < list.len() - 1 {
                lemma_cur_prefix(list, k);
                assert(patches::cur_start(x, k) > e);
            }
        }
    }
}

proof fn lemma_cur_end(list: Seq<Patch>, k: int)
    requires
        0 <= k < list.len(),
    ensures
        patches::cur_end(list, k) == list[k].end + patches::growth(list.take(k + 1)),
{
    assert(list.take(k + 1).drop_last() =~= list.take(k));
}

proof fn lemma_order(list: Seq<Patch>, n: int, k: int, l: int)
    requires
        between(0, list, n),
        0 <= k <= l,
        k < list.len(),
    ensures
        0 <= list[k].start <= list[k].end <= n,
        k < l < list.len() ==> list[k].end < list[l].start <= list[l].end <= n,
{
    reveal(between);
    assert(list[list.len() - 1].start <= list[list.len() - 1].end);
    if k < list.len() - 1 {
        assert(list[k].end < list[list.len() - 1].start);
    }
    if l < list.len() - 1 {
        assert(list[l].end < list[list.len() - 1].start);
    }
}

/// Where the merged patch of a composition stands among the others.
#[verifier::rlimit(50)]
proof fn lemma_merged(list: Seq<Patch>, n: int, s: int, e: int, content: Seq<char>)
    requires
        between(0, list, n),
        0 <= s <= e <= n + patches::growth(list),
    ensures
        ({
            let i = patches::ended_before(list, s) as int;
            let j = patches::started_by(list, e) as int;
            let m = patches::merged(list, i, j, s, e, content);
            &&& 0 <= i <= j <= list.len()
            &&& 0 <= m.start <= m.end <= n
            &&& i > 0 ==> list[i - 1].end < m.start
            &&& i < j ==> m.start <= list[i].start && list[j - 1].end <= m.end
            &&& j < list.len() ==> m.end < list[j].start
        }),
{
    let i = patches::ended_before(list, s) as int;
    let j = patches::started_by(list, e) as int;
    let m = patches::merged(list, i, j, s, e, content);
    lemma_ended_before(list, s);
    lemma_started_by(list, e);
    assert(i <= j) by {
        if j < i {
            assert(patches::cur_start(list, i - 1) > e);
        }
    }
    assert(list.take(list.len() as int) =~= list);
    assert(list.take(0) =~= Seq::<Patch>::empty());
    if i > 0 {
        lemma_cur_end(list, i - 1);
        lemma_order(list, n, i - 1, i);
    }
    if j > 0 {
        lemma_cur_end(list, j - 1);
        lemma_order(list, n, j - 1, j);
    }
    if j < list.len() {
        assert(patches::cur_start(list, j) > e);
        lemma_order(list, n, j, j);
    }
    if i < j {
        lemma_order(list, n, i, j - 1);
        assert(patches::cur_end(list, i) >= s);
    }
}

/// The composed patches stand in order.
#[verifier::rlimit(50)]
proof fn lemma_compose_between(list: Seq<Patch>, n: int, s: int, e: int, content: Seq<char>)
    requires
        between(0, list, n),
        0 <= s <= e <= n + patches::growth(list),
    ensures
        between(0, patches::compose(list, s, e, content), n),
{
    reveal(between);
    let i = patches::ended_before(list, s) as int;
    let j = patches::started_by(list, e) as int;
    let m = patches::merged(list, i, j, s, e, content);
    let out = patches::compose(list, s, e, content);
    lemma_merged(list, n, s, e, content);
    let d = j - i - 1;
    assert forall|k: int| 0 <= k < out.len() implies out[k] == (if k < i {
        list[k]
    } else if k == i {
        m
    } else {
        list[k + d]
    }) by {}
    assert forall|k: int| 0 <= k < out.len() implies 0 <= (#[trigger] out[k]).start
        <= out[k].end by {
        if k < i {
            assert(out[k] == list[k]);
        } else if k > i {
            assert(out[k] == list[k + d]);
        }
    }
    assert forall|k: int, l: int| 0 <= k < l < out.len() implies (#[trigger] out[k]).end < (
    #[trigger] out[l]).start by {
        if l < i {
            assert(list[k].end < list[l].start);
        } else if l == i {
            if k < i - 1 {
                assert(list[k].end < list[i - 1].start);
            }
        } else if k < i {
            assert(list[k].end < list[l + d].start);
        } else if k == i {
            if l + d > j {
                assert(list[j].end < list[l + d].start);
            }
        } else {
            assert(list[k + d].end < list[l + d].start);
        }
    }
    if j < list.len() {
        assert(out.last() == list.last());
    } else {
        assert(out.last() == m);
    }
}

proof fn lemma_laid_one(base: Seq<char>, from: int, p: Patch, to: int)
    ensures
        laid(base, from, seq![p], to) == base.subrange(from, p.start) + p.content + base.subrange(
            p.end,
            to,
        ),
{
    let one = seq![p];
    assert(one.drop_last() =~= Seq::<Patch>::empty());
    assert(one.last() == p);
    assert(laid(base, from, Seq::empty(), p.start) == base.subrange(from, p.start));
}

/// The text in three parts, of which the middle one holds the patches `i..j`.
#[verifier::rlimit(50)]
proof fn lemma_three(base: Seq<char>, list: Seq<Patch>, i: int, j: int, lo: int, hi: int)
    requires
        between(0, list, base.len() as int),
        0 <= i <= j <= list.len(),
        0 <= lo <= hi <= base.len(),
        i > 0 ==> list[i - 1].end <= lo,
        i < j ==> lo <= list[i].start && list[j - 1].end <= hi,
        j < list.len() ==> hi <= list[j].start,
    ensures
        laid(base, 0, list, base.len() as int) == laid(base, 0, list.take(i), lo) + laid(
            base,
            lo,
            list.subrange(i, j),
            hi,
        ) + laid(base, hi, list.skip(j), base.len() as int),
        laid(base, 0, list.take(i), lo).len() == lo + patches::growth(list.take(i)),
        between(lo, list.subrange(i, j), hi),
        laid(base, lo, list.subrange(i, j), hi).len() == hi - lo + patches::growth(
            list.subrange(i, j),
        ),
        patches::growth(list.take(j)) == patches::growth(list.take(i)) + patches::growth(
            list.subrange(i, j),
        ),
{
    let n = base.len() as int;
    let p = list.take(i);
    let mid = list.subrange(i, j);
    let q = list.skip(j);
    assert(p + (mid + q) =~= list);
    assert(p + mid =~= list.take(j));
    if i > 0 {
        assert(p.last() == list[i - 1]);
    }
    if i < j {
        assert((mid + q)[0] == list[i]);
        assert(mid[0] == list[i]);
        assert(mid.last() == list[j - 1]);
    } else if j < list.len() {
        assert((mid + q)[0] == list[j]);
    }
    if j < list.len() {
        assert(q[0] == list[j]);
    }
    lemma_laid_split(base, 0, p, lo, mid + q, n);
    lemma_between_parts(0, p, mid + q, n, lo);
    lemma_laid_split(base, lo, mid, hi, q, n);
    lemma_between_parts(lo, mid, q, n, hi);
    lemma_laid_len(base, 0, p, lo);
    lemma_laid_len(base, lo, mid, hi);
    splice::lemma_growth_concat(p, mid);
    let x = laid(base, 0, p, lo);
    let y = laid(base, lo, mid, hi);
    let z = laid(base, hi, q, n);
    assert(x + (y + z) =~= x + y + z);
}

/// A text that starts where its first patch does starts with its content.
#[verifier::rlimit(50)]
proof fn lemma_head(base: Seq<char>, lo: int, mid: Seq<Patch>, hi: int, t: int)
    requires
        between(lo, mid, hi),
        mid.len() > 0,
        lo == mid[0].start,
        0 <= lo,
        hi <= base.len(),
        0 <= t <= mid[0].content.len(),
    ensures
        laid(base, lo, mid, hi).len() >= t,
        laid(base, lo, mid, hi).take(t) == mid[0].content.take(t),
{
    reveal(between);
    let first = mid[0];
    let one = seq![first];
    let more = mid.drop_first();
    let b = laid(base, lo, mid, hi);
    assert(one + more =~= mid);
    if mid.len() > 1 {
        assert(mid[0].end < mid[mid.len() - 1].start);
        assert(more[0] == mid[1]);
        assert(mid[mid.len() - 1].start <= mid[mid.len() - 1].end);
    }
    lemma_laid_split(base, lo, one, first.end, more, hi);
    lemma_laid_one(base, lo, first, first.end);
    let rest = laid(base, first.end, more, hi);
    assert(b =~= first.content + rest);
    assert(b.take(t) =~= first.content.take(t));
}

/// A text that ends where its last patch does ends with its content.
#[verifier::rlimit(50)]
proof fn lemma_tail(base: Seq<char>, lo: int, mid: Seq<Patch>, hi: int, t: int)
    requires
        between(lo, mid, hi),
        mid.len() > 0,
        hi == mid.last().end,
        0 <= lo,
        hi <= base.len(),
        0 <= t <= mid.last().content.len(),
    ensures
        ({
            let b = laid(base, lo, mid, hi);
            let at = mid.last().start - lo + patches::growth(mid.drop_last()) + t;
            0 <= at <= b.len() && b.skip(at) == mid.last().content.skip(t)
        }),
{
    let last = mid.last();
    let b = laid(base, lo, mid, hi);
    lemma_between_last(lo, mid, hi);
    lemma_laid_len(base, lo, mid.drop_last(), last.start);
    let before = laid(base, lo, mid.drop_last(), last.start);
    assert(b =~= before + last.content);
    assert(b.skip(before.len() + t) =~= last.content.skip(t));
}

/// What the merged patch keeps of the patches that it was made of.
#[verifier::rlimit(50)]
proof fn lemma_middle(
    base: Seq<char>,
    list: Seq<Patch>,
    i: int,
    j: int,
    s: int,
    e: int,
    content: Seq<char>,
)
    requires
        between(0, list, base.len() as int),
        0 <= s <= e <= base.len() + patches::growth(list),
        i == patches::ended_before(list, s),
        j == patches::started_by(list, e),
    ensures
        ({
            let m = patches::merged(list, i, j, s, e, content);
            let l = m.start + patches::growth(list.take(i));
            let b = laid(base, m.start, list.subrange(i, j), m.end);
            &&& 0 <= s - l <= e - l <= b.len()
            &&& m.content == b.take(s - l) + content + b.skip(e - l)
        }),
{
    let n = base.len() as int;
    let m = patches::merged(list, i, j, s, e, content);
    let l = m.start + patches::growth(list.take(i));
    let mid = list.subrange(i, j);
    let b = laid(base, m.start, mid, m.end);
    lemma_merged(list, n, s, e, content);
    lemma_ended_before(list, s);
    lemma_started_by(list, e);
    lemma_three(base, list, i, j, m.start, m.end);
    if i < j {
        lemma_cur_end(list, i);
        lemma_cur_end(list, j - 1);
        assert(patches::cur_end(list, i) >= s);
        assert(mid[0] == list[i]);
        assert(mid.last() == list[j - 1]);
        assert(list.take(i) + mid.drop_last() =~= list.take(j - 1));
        splice::lemma_growth_concat(list.take(i), mid.drop_last());
        if s >= patches::cur_start(list, i) {
            lemma_head(base, m.start, mid, m.end, s - l);
        }
        if e <= patches::cur_end(list, j - 1) {
            lemma_tail(base, m.start, mid, m.end, e - patches::cur_start(list, j - 1));
        }
    }
    if !(i < j && s >= patches::cur_start(list, i)) {
        assert(b.take(s - l) =~= Seq::<char>::empty());
    }
    if !(i < j && e <= patches::cur_end(list, j - 1)) {
        assert(b.skip(e - l) =~= Seq::<char>::empty());
    }
}

#[verifier::rlimit(50)]
proof fn lemma_compose_applies(base: Seq<char>, list: Seq<Patch>, s: int, e: int, content: Seq<char>)
    requires
        between(0, list, base.len() as int),
        0 <= s <= e <= base.len() + patches::growth(list),
    ensures
        laid(base, 0, patches::compose(list, s, e, content), base.len() as int) == patches::splice(
            laid(base, 0, list, base.len() as int),
            s,
            e,
            content,
        ),
{
    let n = base.len() as int;
    let i = patches::ended_before(list, s) as int;
    let j = patches::started_by(list, e) as int;
    let m = patches::merged(list, i, j, s, e, content);
    let out = patches::compose(list, s, e, content);
    lemma_merged(list, n, s, e, content);
    lemma_compose_between(list, n, s, e, content);
    lemma_three(base, list, i, j, m.start, m.end);
    lemma_middle(base, list, i, j, s, e, content);
    assert(out.take(i) =~= list.take(i));
    assert(out.subrange(i, i + 1) =~= seq![m]);
    assert(out.skip(i + 1) =~= list.skip(j));
    if i > 0 {
        assert(out[i - 1] == list[i - 1]);
    }
    if i + 1 < out.len() {
        assert(out[i + 1] == list[j]);
    }
    lemma_three(base, out, i, i + 1, m.start, m.end);
    lemma_laid_one(base, m.start, m, m.end);
    let a = laid(base, 0, list.take(i), m.start);
    let b = laid(base, m.start, list.subrange(i, j), m.end);
    let c = laid(base, m.end, list.skip(j), n);
    let head = b.take(s - a.len());
    let tail = b.skip(e - a.len());
    assert(laid(base, m.start, seq![m], m.end) =~= m.content);
    lemma_replace(a, b, c, s, e, content);
}

proof fn lemma_replace(
    a: Seq<char>,
    b: Seq<char>,
    c: Seq<char>,
    s: int,
    e: int,
    content: Seq<char>,
)
    requires
        0 <= s - a.len() <= e - a.len() <= b.len(),
    ensures
        patches::splice(a + b + c, s, e, content) == a + (b.take(s - a.len()) + content + b.skip(
            e - a.len(),
        )) + c,
{
    let all = a + b + c;
    assert(all.subrange(0, s) =~= a + b.take(s - a.len()));
    assert(all.subrange(e, all.len() as int) =~= b.skip(e - a.len()) + c);
    assert(patches::splice(all, s, e, content) =~= a + (b.take(s - a.len()) + content + b.skip(
        e - a.len(),
    )) + c);
}

proof fn lemma_absolute(base: Seq<char>, relative: Seq<Patch>)
    requires
        patches::relative_fits(base.len() as int, relative),
    ensures
        between(0, patches::absolute(relative), base.len() as int),
        laid(base, 0, patches::absolute(relative), base.len() as int) == patches::apply_relative(
            base,
            relative,
        ),
        patches::relative_len(base.len() as int, relative) == base.len() + patches::growth(
            patches::absolute(relative),
        ),
    decreases relative.len(),
{
    reveal(between);
    let n = base.len() as int;
    if relative.len() == 0 {
        assert(base.subrange(0, n) =~= base);
    } else {
        let x = relative.drop_last();
        let p = relative.last();
        assert forall|k: int| 0 <= k < x.len() implies 0 <= (#[trigger] x[k]).start <= x[k].end
            <= patches::relative_len(n, x.take(k)) by {
            assert(x[k] == relative[k]);
            assert(x.take(k) =~= relative.take(k));
        }
        lemma_absolute(base, x);
        assert(relative.take(relative.len() - 1) =~= x);
        assert(p == relative[relative.len() - 1]);
        lemma_compose_between(patches::absolute(x), n, p.start, p.end, p.content);
        lemma_compose_applies(base, patches::absolute(x), p.start, p.end, p.content);
        lemma_laid_len(base, 0, patches::absolute(relative), n);
        lemma_laid_len(base, 0, patches::absolute(x), n);
    }
}

/// Composing patches of a text with a replacement in the patched text gives patches that
/// make both. These stand in order, too, and lie within the original text.
pub proof fn law_composed(base: Seq<char>, list: Seq<Patch>, s: int, e: int, content: Seq<char>)
    requires
        patches::separated(list),
        patches::within(list, base.len() as int),
        0 <= s <= e <= patches::apply_absolute(base, list).len(),
    ensures
        ({
            let out = patches::compose(list, s, e, content);
            &&& patches::apply_absolute(base, out) == patches::splice(
                patches::apply_absolute(base, list),
                s,
                e,
                content,
            )
            &&& patches::separated(out)
            &&& patches::within(out, base.len() as int)
        }),
{
    let n = base.len() as int;
    let out = patches::compose(list, s, e, content);
    assert(between(0, list, n)) by {
        reveal(between);
        if list.len() > 0 {
            assert(list[0].start >= 0);
            assert(list[list.len() - 1].end <= n);
        }
    }
    lemma_laid(base, list);
    lemma_laid_len(base, 0, list, n);
    lemma_compose_between(list, n, s, e, content);
    lemma_compose_applies(base, list, s, e, content);
    lemma_laid(base, out);
    assert(patches::separated(out)) by {
        reveal(between);
    }
    assert forall|k: int| 0 <= k < out.len() implies (#[trigger] out[k]).end <= n by {
        lemma_order(out, n, k, k);
    }
}

/// What stands before a place depends on the text before it alone.
proof fn lemma_laid_take(base: Seq<char>, from: int, list: Seq<Patch>, to: int, n: int)
    requires
        between(from, list, to),
        0 <= from,
        to <= n <= base.len(),
    ensures
        laid(base.take(n), from, list, to) == laid(base, from, list, to),
    decreases list.len(),
{
    if list.len() == 0 {
        reveal(between);
        assert(base.take(n).subrange(from, to) =~= base.subrange(from, to));
    } else {
        let p = list.last();
        lemma_between_last(from, list, to);
        lemma_laid_take(base, from, list.drop_last(), p.start, n);
        assert(base.take(n).subrange(p.end, to) =~= base.subrange(p.end, to));
    }
}

/// What it is to make patches of one text, all of which refer to it as it is: the last one
/// puts its content between what the others make of the text before its range, and the text
/// behind its range.
pub proof fn law_apply_absolute(base: Seq<char>, list: Seq<Patch>, p: Patch)
    requires
        patches::separated(list.push(p)),
        p.end <= base.len(),
    ensures
        patches::apply_absolute(base, Seq::empty()) == base,
        patches::apply_absolute(base, list.push(p)) == patches::apply_absolute(
            base.take(p.start),
            list,
        ) + p.content + base.skip(p.end),
{
    let all = list.push(p);
    let n = base.len() as int;
    assert(all[list.len() as int] == p);
    assert(all.drop_last() =~= list);
    assert(between(0, all, n)) by {
        reveal(between);
        assert(all[0].start >= 0);
    }
    lemma_between_last(0, all, n);
    lemma_laid(base, all);
    let front = base.take(p.start);
    lemma_laid(front, list);
    lemma_laid_take(base, 0, list, p.start, p.start);
    assert(base.subrange(p.end, n) =~= base.skip(p.end));
}

/// Segments that are what they should be between two edits state patches in order, which lie
/// within the text that the segments account for.
pub proof fn law_segments(segs: Seq<Seg>)
    requires
        segments::each_settled(segs),
        segments::alternates(segs),
    ensures
        patches::separated(segments::patches_in(segs, 0)),
        patches::within(segments::patches_in(segs, 0), segments::orig_len(segs)),
        segments::orig_len(segs) >= 0,
    decreases segs.len(),
{
    if segs.len() > 0 {
        let n = segs.len() - 1;
        let before = segs.drop_last();
        let was = segments::patches_in(before, 0);
        let out = segments::patches_in(segs, 0);
        assert(segments::each_settled(before)) by {
            assert forall|k: int| 0 <= k < before.len() implies (#[trigger] before[k]).settled() by {
                assert(before[k] == segs[k]);
            }
        }
        assert(segments::alternates(before)) by {
            reveal(segments::alternates);
            assert forall|k: int, l: int|
                #![trigger before[k], before[l]]
                0 <= k && l == k + 1 && l < before.len() implies before[k].kept()
                != before[l].kept() by {
                assert(before[k] == segs[k] && before[l] == segs[l]);
            }
        }
        law_segments(before);
        assert(segs[n].settled());
        if segs[n].content is Some {
            assert(out == was.push(out.last()));
            assert forall|k: int| 0 <= k < was.len() implies (#[trigger] was[k]).end
                < segments::orig_len(before) by {
                assert(segs[n - 1].kept() != segs[n].kept()) by {
                    reveal(segments::alternates);
                }
                let less = before.drop_last();
                assert(before.last() == segs[n - 1]);
                assert(segs[n - 1].settled());
                assert(was == segments::patches_in(less, 0));
                assert(segments::each_settled(less)) by {
                    assert forall|j: int| 0 <= j < less.len() implies (
                    #[trigger] less[j]).settled() by {
                        assert(less[j] == segs[j]);
                    }
                }
                assert(segments::alternates(less)) by {
                    reveal(segments::alternates);
                    assert forall|j: int, l: int|
                        #![trigger less[j], less[l]]
                        0 <= j && l == j + 1 && l < less.len() implies less[j].kept()
                        != less[l].kept() by {
                        assert(less[j] == segs[j] && less[l] == segs[l]);
                    }
                }
                law_segments(less);
            }
            assert forall|k: int| 0 <= k < out.len() implies (#[trigger] out[k]).end
                <= segments::orig_len(segs) && 0 <= out[k].start <= out[k].end by {
                if k < was.len() {
                    assert(out[k] == was[k]);
                }
            }
            assert forall|k: int, l: int| 0 <= k < l < out.len() implies (#[trigger] out[k]).end < (
            #[trigger] out[l]).start by {
                assert(out[k] == was[k]);
                if l < was.len() {
                    assert(out[l] == was[l]);
                }
            }
        }
    }
}

/// Replacing a range by way of the segments is replacing it in the text: the patches that an
/// edit leaves (see `splice::apply_one`) make of a text what the edit makes of the text that
/// the earlier patches gave. The text may be shorter than what the segments account for.
pub proof fn law_spliced(base: Seq<char>, segs: Seq<Seg>, s: int, e: int, content: Seq<char>)
    requires
        segments::settled(segs),
        patches::within(segments::patches_in(segs, 0), base.len() as int),
        0 <= s <= e <= patches::apply_absolute(base, segments::patches_in(segs, 0)).len(),
    ensures
        patches::apply_absolute(
            base,
            patches::compose(segments::patches_in(segs, 0), s, e, content),
        ) == patches::splice(
            patches::apply_absolute(base, segments::patches_in(segs, 0)),
            s,
            e,
            content,
        ),
        patches::within(
            patches::compose(segments::patches_in(segs, 0), s, e, content),
            base.len() as int,
        ),
{
    law_segments(segs);
    law_composed(base, segments::patches_in(segs, 0), s, e, content);
}

/// Making the converted patches of a text gives the text that making the
/// given patches one after the other gives.
pub proof fn law_absolute_applies(base: Seq<char>, relative: Seq<Patch>)
    requires
        patches::relative_fits(base.len() as int, relative),
    ensures
        patches::apply_absolute(base, patches::absolute(relative)) == patches::apply_relative(
            base,
            relative,
        ),
{
    lemma_absolute(base, relative);
    lemma_laid(base, patches::absolute(relative));
}

/// The converted patches stand in ascending order, lie within the original
/// text, and have at least one of its characters between any two of them.
pub proof fn law_absolute_separated(base_len: nat, relative: Seq<Patch>)
    requires
        patches::relative_fits(base_len as int, relative),
    ensures
        patches::separated(patches::absolute(relative)),
        patches::within(patches::absolute(relative), base_len as int),
{
    reveal(between);
    let base = Seq::new(base_len, |k: int| 'a');
    let out = patches::absolute(relative);
    lemma_absolute(base, relative);
    assert forall|k: int| 0 <= k < out.len() implies (#[trigger] out[k]).end <= base_len by {
        if k < out.len() - 1 {
            assert(out[k].end < out[out.len() - 1].start);
        }
    }
}

/// In a list in order, no patch starts before the first one when those before it are made.
proof fn lemma_starts_behind(list: Seq<Patch>, k: int)
    requires
        patches::separated(list),
        0 <= k < list.len(),
    ensures
        patches::cur_start(list, k) >= list[0].start,
    decreases k,
{
    if k == 0 {
        assert(list.take(0) =~= Seq::<Patch>::empty());
    } else {
        lemma_starts_behind(list, k - 1);
        lemma_cur_end(list, k - 1);
        assert(list[k - 1].end < list[k].start);
    }
}

/// Composing patches in order with one that stands before them puts it first.
proof fn lemma_compose_first(p: Patch, rest: Seq<Patch>)
    requires
        patches::separated(rest),
        p.start <= p.end,
        rest.len() > 0 ==> p.end < rest[0].start,
    ensures
        patches::compose(rest, p.start, p.end, p.content) == seq![p] + rest,
{
    lemma_ended_before(rest, p.start);
    lemma_started_by(rest, p.end);
    let i = patches::ended_before(rest, p.start) as int;
    let j = patches::started_by(rest, p.end) as int;
    if i > 0 {
        lemma_starts_behind(rest, i - 1);
    }
    if j > 0 {
        lemma_starts_behind(rest, j - 1);
    }
    assert(rest.take(0) =~= Seq::<Patch>::empty());
    assert(rest.skip(0) =~= rest);
    assert(Seq::<char>::empty() + p.content + Seq::<char>::empty() =~= p.content);
    assert(patches::compose(rest, p.start, p.end, p.content) =~= seq![p] + rest);
}

proof fn lemma_separated_rest(list: Seq<Patch>)
    requires
        patches::separated(list),
        list.len() > 0,
    ensures
        patches::separated(list.skip(1)),
        list.skip(1).reverse() == list.reverse().drop_last(),
        list.reverse().last() == list[0],
        list == seq![list[0]] + list.skip(1),
{
    let rest = list.skip(1);
    assert forall|k: int| 0 <= k < rest.len() implies 0 <= (#[trigger] rest[k]).start
        <= rest[k].end by {
        assert(rest[k] == list[k + 1]);
    }
    assert forall|k: int, l: int| 0 <= k < l < rest.len() implies (#[trigger] rest[k]).end < (
    #[trigger] rest[l]).start by {
        assert(rest[k] == list[k + 1]);
        assert(rest[l] == list[l + 1]);
    }
    assert(rest.reverse() =~= list.reverse().drop_last());
    assert(list =~= seq![list[0]] + rest);
}

/// Patches in order, made from the last one to the first, are converted to themselves.
pub proof fn law_converted_in_order(list: Seq<Patch>)
    requires
        patches::separated(list),
    ensures
        patches::absolute(list.reverse()) == list,
    decreases list.len(),
{
    if list.len() == 0 {
        assert(list.reverse() =~= list);
    } else {
        let rest = list.skip(1);
        lemma_separated_rest(list);
        law_converted_in_order(rest);
        if rest.len() > 0 {
            assert(rest[0] == list[1]);
            assert(list[0].end < list[1].start);
        }
        lemma_compose_first(list[0], rest);
    }
}

/// Converting the converted patches again, the rightmost first, gives the same ones.
pub proof fn law_converted_again(base_len: nat, relative: Seq<Patch>)
    requires
        patches::relative_fits(base_len as int, relative),
    ensures
        patches::absolute(patches::absolute(relative).reverse()) == patches::absolute(relative),
        patches::relative_fits(base_len as int, patches::absolute(relative).reverse()),
{
    let out = patches::absolute(relative);
    law_absolute_separated(base_len, relative);
    law_converted_in_order(out);
    lemma_back_fits(base_len as int, out);
}

/// Patches in order can be made from the last one to the first.
proof fn lemma_back_fits(n: int, list: Seq<Patch>)
    requires
        patches::separated(list),
        patches::within(list, n),
    ensures
        patches::relative_fits(n, list.reverse()),
        list.len() > 0 ==> patches::relative_len(n, list.reverse()) >= list[0].start,
    decreases list.len(),
{
    let back = list.reverse();
    if list.len() > 0 {
        let rest = list.skip(1);
        lemma_separated_rest(list);
        assert forall|k: int| 0 <= k < rest.len() implies (#[trigger] rest[k]).end <= n by {
            assert(rest[k] == list[k + 1]);
        }
        lemma_back_fits(n, rest);
        if rest.len() > 0 {
            assert(rest[0] == list[1]);
            assert(list[0].end < list[1].start);
        }
        let front = back.drop_last();
        assert(0 <= list[0].start <= list[0].end <= n);
        assert forall|k: int| 0 <= k < back.len() implies 0 <= (#[trigger] back[k]).start
            <= back[k].end <= patches::relative_len(n, back.take(k)) by {
            if k < front.len() {
                assert(back[k] == front[k]);
                assert(back.take(k) =~= front.take(k));
            } else {
                assert(back.take(k) =~= front);
            }
        }
    }
}

// ---- how much is inserted ----

proof fn lemma_inserted_behind(a: Seq<Patch>, b: Seq<Patch>)
    ensures
        patches::inserted_len(a + b) == patches::inserted_len(a) + patches::inserted_len(b),
    decreases b.len(),
{
    if b.len() == 0 {
        assert(a + b =~= a);
    } else {
        lemma_inserted_behind(a, b.drop_last());
        assert((a + b).drop_last() =~= a + b.drop_last());
    }
}

proof fn lemma_inserted_one(p: Patch)
    ensures
        patches::inserted_len(seq![p]) == p.content.len(),
{
    assert(seq![p].drop_last() =~= Seq::<Patch>::empty());
    assert(patches::inserted_len(seq![p].drop_last()) == 0);
}

/// Composing inserts no more than both did.
proof fn lemma_inserted_composed(list: Seq<Patch>, s: int, e: int, content: Seq<char>)
    requires
        s <= e,
    ensures
        patches::inserted_len(patches::compose(list, s, e, content)) <= patches::inserted_len(list)
            + content.len(),
{
    let i = patches::ended_before(list, s) as int;
    let j = patches::started_by(list, e) as int;
    let m = patches::merged(list, i, j, s, e, content);
    lemma_ended_before(list, s);
    lemma_started_by(list, e);
    if i > j {
        assert(patches::cur_start(list, i - 1) > e);
    }
    let mid = list.subrange(i, j);
    assert(list =~= list.take(i) + mid + list.skip(j));
    lemma_inserted_behind(list.take(i) + mid, list.skip(j));
    lemma_inserted_behind(list.take(i), mid);
    lemma_inserted_behind(list.take(i) + seq![m], list.skip(j));
    lemma_inserted_behind(list.take(i), seq![m]);
    lemma_inserted_one(m);
    if i < j {
        assert(patches::cur_end(list, i) >= s);
        assert(patches::cur_start(list, j - 1) <= e);
        let less = mid.drop_last();
        assert(mid =~= less + seq![list[j - 1]]);
        lemma_inserted_behind(less, seq![list[j - 1]]);
        lemma_inserted_one(list[j - 1]);
        if i < j - 1 {
            let inner = less.skip(1);
            assert(less =~= seq![list[i]] + inner);
            lemma_inserted_behind(seq![list[i]], inner);
            lemma_inserted_one(list[i]);
        }
    }
}

/// Converted patches insert no more than those that they stand for.
pub proof fn lemma_inserted_absolute(base_len: nat, relative: Seq<Patch>)
    requires
        patches::relative_fits(base_len as int, relative),
    ensures
        patches::inserted_len(patches::absolute(relative)) <= patches::inserted_len(relative),
    decreases relative.len(),
{
    if relative.len() > 0 {
        let x = relative.drop_last();
        let p = relative.last();
        assert forall|k: int| 0 <= k < x.len() implies 0 <= (#[trigger] x[k]).start <= x[k].end
            <= patches::relative_len(base_len as int, x.take(k)) by {
            assert(x[k] == relative[k]);
            assert(x.take(k) =~= relative.take(k));
        }
        assert(relative[relative.len() - 1] == p);
        lemma_inserted_absolute(base_len, x);
        lemma_inserted_composed(patches::absolute(x), p.start, p.end, p.content);
    }
}

/// The order of patches does not matter for how much they insert.
pub proof fn lemma_inserted_reversed(list: Seq<Patch>)
    ensures
        patches::inserted_len(list.reverse()) == patches::inserted_len(list),
    decreases list.len(),
{
    if list.len() == 0 {
        assert(list.reverse() =~= list);
    } else {
        let rest = list.skip(1);
        lemma_inserted_reversed(rest);
        assert(list =~= seq![list[0]] + rest);
        lemma_inserted_behind(seq![list[0]], rest);
        lemma_inserted_one(list[0]);
        assert(list.reverse().drop_last() =~= rest.reverse());
    }
}

} // verus!
