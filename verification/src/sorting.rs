//! Lists in order.

use crate::smart_string;
use crate::text::chars_of;
use vstd::prelude::*;

verus! {

/// Whether numbers stand in ascending order.
pub open spec fn in_order(list: Seq<usize>) -> bool {
    forall|i: int, j: int| 0 <= i < j < list.len() ==> list[i] <= list[j]
}

/// Whether texts stand in dictionary order.
pub open spec fn texts_in_order(list: Seq<Seq<char>>) -> bool {
    forall|i: int, j: int|
        0 <= i < j < list.len() ==> !smart_string::text_less(#[trigger] list[j], #[trigger] list[i])
}

/// What texts say.
pub open spec fn texts_of(list: Seq<String>) -> Seq<Seq<char>> {
    list.map_values(|s: String| s@)
}

proof fn lemma_inserted<A>(list: Seq<A>, i: int, x: A)
    requires
        0 <= i <= list.len(),
    ensures
        list.insert(i, x).to_multiset() == list.to_multiset().insert(x),
{
    broadcast use vstd::seq_lib::group_to_multiset_ensures;

    let more = list.insert(i, x);
    assert(more.remove(i) =~= list);
    assert(more[i] == x);
    assert(more.contains(x));
    assert(more.to_multiset() =~= list.to_multiset().insert(x));
}

/// The numbers in ascending order.
pub open spec fn sorted(list: Seq<usize>) -> Seq<usize> {
    list.sort_by(|a: usize, b: usize| a <= b)
}

/// The numbers are the same in ascending order.
pub proof fn lemma_sorted(list: Seq<usize>)
    ensures
        in_order(sorted(list)),
        sorted(list).to_multiset() == list.to_multiset(),
        sorted(list).len() == list.len(),
        forall|x: usize| #[trigger] sorted(list).contains(x) == list.contains(x),
{
    broadcast use vstd::seq_lib::group_to_multiset_ensures;

    let leq = |a: usize, b: usize| a <= b;
    list.lemma_sort_by_ensures(leq);
    let out = sorted(list);
    assert(out.to_multiset() =~= list.to_multiset());
    assert(out.to_multiset().len() == list.to_multiset().len());
    assert forall|i: int, j: int| 0 <= i < j < out.len() implies out[i] <= out[j] by {
        assert(leq(out[i], out[j]));
    }
    assert forall|x: usize| #[trigger] out.contains(x) == list.contains(x) by {
        assert(out.contains(x) <==> out.to_multiset().count(x) > 0);
        assert(list.contains(x) <==> list.to_multiset().count(x) > 0);
    }
}

/// There is one such list.
pub proof fn lemma_sorted_unique(list: Seq<usize>, out: Seq<usize>)
    requires
        in_order(out),
        out.to_multiset() == list.to_multiset(),
    ensures
        out == sorted(list),
{
    let leq = |a: usize, b: usize| a <= b;
    lemma_sorted(list);
    assert(vstd::relations::sorted_by(out, leq));
    assert(vstd::relations::sorted_by(sorted(list), leq));
    vstd::seq_lib::lemma_sorted_unique(out, sorted(list), leq);
}

/// Sorted numbers are those that are to be sorted, each as often as it is there, and none of
/// them comes before a smaller one.
pub proof fn law_sorted(list: Seq<usize>, i: int, j: int)
    requires
        0 <= i < j < list.len(),
    ensures
        sorted(list).len() == list.len(),
        sorted(list).to_multiset() == list.to_multiset(),
        sorted(list)[i] <= sorted(list)[j],
{
    lemma_sorted(list);
}

/// Of sorted texts one is the same as a later one or a beginning of it, or has a smaller
/// character where they first differ.
pub proof fn law_texts_in_order(list: Seq<Seq<char>>, i: int, j: int)
    requires
        texts_in_order(list),
        0 <= i < j < list.len(),
    ensures
        ({
            let (a, b) = (list[i], list[j]);
            ||| a.len() <= b.len() && a == b.take(a.len() as int)
            ||| exists|k: int|
                #![trigger a[k]]
                {
                    &&& 0 <= k < a.len()
                    &&& k < b.len()
                    &&& a.take(k) == b.take(k)
                    &&& (a[k] as int) < b[k] as int
                }
        }),
{
    let (a, b) = (list[i], list[j]);
    assert(!smart_string::text_less(list[j], list[i]));
    smart_string::lemma_text_less(a, b);
    if a == b {
        assert(a == b.take(a.len() as int));
    } else {
        smart_string::law_text_less(a, b);
        let k = choose|k: int|
            #![trigger a.take(k)]
            {
                &&& 0 <= k <= a.len()
                &&& k < b.len()
                &&& a.take(k) == b.take(k)
                &&& k == a.len() || (a[k] as int) < b[k] as int
            };
        if k == a.len() {
            assert(a.take(k) =~= a);
        } else {
            assert(a[k] as int <= b[k] as int);
        }
    }
}

/// The numbers in ascending order.
pub fn sorted_numbers(list: &Vec<usize>) -> (out: Vec<usize>)
    ensures
        out@ == sorted(list@),
        in_order(out@),
        out@.to_multiset() == list@.to_multiset(),
{
    let mut out: Vec<usize> = Vec::new();
    let mut k: usize = 0;
    assert(list@.take(0) =~= out@);
    while k < list.len()
        invariant
            k <= list@.len(),
            in_order(out@),
            out@.to_multiset() == list@.take(k as int).to_multiset(),
        decreases list@.len() - k,
    {
        let x = list[k];
        let mut i: usize = out.len();
        while i > 0 && out[i - 1] > x
            invariant
                i <= out@.len(),
                in_order(out@),
                forall|j: int| i <= j < out@.len() ==> x < #[trigger] out@[j],
            decreases i,
        {
            i -= 1;
        }
        let ghost before = out@;
        out.insert(i, x);
        proof {
            broadcast use vstd::seq_lib::group_to_multiset_ensures;

            lemma_inserted(before, i as int, x);
            assert(list@.take(k + 1) =~= list@.take(k as int).push(x));
            assert forall|a: int, b: int| 0 <= a < b < out@.len() implies out@[a] <= out@[b] by {
                if i > 0 {
                    assert(before[i - 1] <= x);
                }
            }
        }
        k += 1;
    }
    proof {
        assert(list@.take(k as int) =~= list@);
        lemma_sorted_unique(list@, out@);
    }
    out
}

/// Whether one text comes before another in dictionary order.
pub fn comes_before(a: &str, b: &str) -> (out: bool)
    ensures
        out == smart_string::text_less(a@, b@),
{
    let x = chars_of(a);
    let y = chars_of(b);
    let mut i: usize = 0;
    assert(a@.skip(0) =~= a@);
    assert(b@.skip(0) =~= b@);
    while i < x.len() && i < y.len() && x[i] == y[i]
        invariant
            x@ == a@,
            y@ == b@,
            i <= x@.len(),
            i <= y@.len(),
            smart_string::text_less(a@, b@) == smart_string::text_less(
                a@.skip(i as int),
                b@.skip(i as int),
            ),
        decreases x@.len() - i,
    {
        proof {
            assert(a@.skip(i as int).drop_first() =~= a@.skip(i + 1));
            assert(b@.skip(i as int).drop_first() =~= b@.skip(i + 1));
            assert(a@.skip(i as int)[0] == x@[i as int]);
            assert(b@.skip(i as int)[0] == y@[i as int]);
        }
        i += 1;
    }
    if i == y.len() {
        false
    } else if i == x.len() {
        true
    } else {
        proof {
            assert(a@.skip(i as int)[0] == x@[i as int]);
            assert(b@.skip(i as int)[0] == y@[i as int]);
        }
        x[i] < y[i]
    }
}

/// The texts in dictionary order.
#[verifier::rlimit(50)]
pub fn sorted_texts(list: Vec<String>) -> (out: Vec<String>)
    ensures
        texts_in_order(texts_of(out@)),
        texts_of(out@).to_multiset() == texts_of(list@).to_multiset(),
{
    let ghost all = texts_of(list@);
    let mut out: Vec<String> = Vec::new();
    let mut k: usize = 0;
    assert(texts_of(out@) =~= all.take(0));
    while k < list.len()
        invariant
            all == texts_of(list@),
            k <= list@.len(),
            texts_in_order(texts_of(out@)),
            texts_of(out@).to_multiset() == all.take(k as int).to_multiset(),
        decreases list@.len() - k,
    {
        let x = list[k].clone();
        let mut i: usize = out.len();
        while i > 0 && comes_before(x.as_str(), out[i - 1].as_str())
            invariant
                i <= out@.len(),
                forall|j: int|
                    i <= j < out@.len() ==> smart_string::text_less(
                        x@,
                        #[trigger] texts_of(out@)[j],
                    ),
            decreases i,
        {
            assert(texts_of(out@)[i - 1] == out@[i - 1]@);
            i -= 1;
        }
        let ghost before = texts_of(out@);
        let ghost text = x@;
        proof {
            if i > 0 {
                assert(before[i - 1] == out@[i - 1]@);
                assert(!smart_string::text_less(text, before[i - 1]));
            }
        }
        out.insert(i, x);
        proof {
            broadcast use vstd::seq_lib::group_to_multiset_ensures;

            let now = texts_of(out@);
            assert(now =~= before.insert(i as int, text));
            lemma_inserted(before, i as int, text);
            assert(all[k as int] == list@[k as int]@);
            assert(all.take(k + 1) =~= all.take(k as int).push(text));
            assert forall|a: int, b: int| 0 <= a < b < now.len() implies !smart_string::text_less(
                #[trigger] now[b],
                #[trigger] now[a],
            ) by {
                lemma_order_kept(before, i as int, text, a, b);
            }
        }
        k += 1;
    }
    assert(all.take(k as int) =~= all);
    out
}

proof fn lemma_order_kept(list: Seq<Seq<char>>, i: int, x: Seq<char>, a: int, b: int)
    requires
        texts_in_order(list),
        0 <= i <= list.len(),
        forall|j: int| i <= j < list.len() ==> smart_string::text_less(x, #[trigger] list[j]),
        i > 0 ==> !smart_string::text_less(x, list[i - 1]),
        0 <= a < b < list.len() + 1,
    ensures
        !smart_string::text_less(list.insert(i, x)[b], list.insert(i, x)[a]),
{
    let now = list.insert(i, x);
    if a == i {
        // What comes behind is greater.
        assert(now[b] == list[b - 1]);
        smart_string::lemma_text_less(x, list[b - 1]);
    } else if b == i {
        assert(now[a] == list[a]);
        if smart_string::text_less(x, list[a]) {
            if a < i - 1 {
                assert(!smart_string::text_less(list[i - 1], list[a]));
                smart_string::lemma_text_less(list[i - 1], list[a]);
                if list[i - 1] != list[a] {
                    smart_string::lemma_text_less_trans(x, list[a], list[i - 1]);
                }
            }
        }
    } else {
        let c = if a < i {
            a
        } else {
            a - 1
        };
        let d = if b < i {
            b
        } else {
            b - 1
        };
        assert(now[a] == list[c] && now[b] == list[d]);
        assert(!smart_string::text_less(list[d], list[c]));
    }
}

} // verus!
