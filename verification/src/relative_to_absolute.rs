//! Edits that are each positioned against the text as it stood at that moment,
//! expressed as an ordered set of range replacements of the original text.
//!
//! The conversion composes: edits that touch earlier edits merge or cancel, so
//! the resulting patches do not correspond one to one with the given ones.

use crate::patch_laws;
use crate::patches;
use crate::patches::{Patch, Replacement};
use crate::segments;
use crate::segments::{SegStore, HUGE};
use crate::splice;
use crate::splice::apply_one;
use crate::text::cp_len;
use crate::treap_store::TreapStore;
use crate::xf_absolute;
use vstd::prelude::*;

verus! {

/// Whether patches to be made one after the other can be converted: each one
/// lies before the end of the text that it finds, of which the first is
/// [`HUGE`] long, and what they insert fits in memory.
pub open spec fn convertible(relative: Seq<Patch>) -> bool {
    &&& forall|k: int|
        0 <= k < relative.len() ==> 0 <= (#[trigger] relative[k]).start <= relative[k].end
            < patches::relative_len(HUGE as int, relative.take(k))
    &&& patches::inserted_len(relative) <= usize::MAX / 2
}

proof fn lemma_inserted(relative: Seq<Patch>, k: int)
    requires
        0 <= k <= relative.len(),
    ensures
        patches::inserted_len(relative.take(k)) <= patches::inserted_len(relative),
    decreases relative.len() - k,
{
    if k == relative.len() {
        assert(relative.take(k) =~= relative);
    } else {
        assert(relative.take(k + 1).drop_last() =~= relative.take(k));
        lemma_inserted(relative, k + 1);
    }
}

/// Whether patches to be made one after the other can be converted.
pub fn can_convert(list: &[Replacement]) -> (out: bool)
    ensures
        out == convertible(patches::patches_of(list@)),
{
    let ghost all = patches::patches_of(list@);
    let mut k: usize = 0;
    let mut len: usize = HUGE;
    let mut inserted: usize = 0;
    assert(all.take(0) =~= Seq::<Patch>::empty());
    while k < list.len()
        invariant
            k <= list@.len(),
            all == patches::patches_of(list@),
            len == patches::relative_len(HUGE as int, all.take(k as int)),
            len <= HUGE + inserted,
            inserted == patches::inserted_len(all.take(k as int)),
            inserted <= usize::MAX / 2,
            forall|j: int|
                0 <= j < k ==> 0 <= (#[trigger] all[j]).start <= all[j].end
                    < patches::relative_len(HUGE as int, all.take(j)),
        decreases list@.len() - k,
    {
        let p = &list[k];
        proof {
            assert(all[k as int] == p@);
            assert(all.take(k + 1).drop_last() =~= all.take(k as int));
            assert(all.take(k + 1).last() == p@);
            lemma_inserted(all, k + 1);
        }
        if p.range.start > p.range.end || p.range.end >= len {
            return false;
        }
        let more = cp_len(p.content.as_str());
        if more > usize::MAX / 2 - inserted {
            return false;
        }
        len = len - (p.range.end - p.range.start) + more;
        inserted += more;
        k += 1;
    }
    assert(all.take(k as int) =~= all);
    true
}

/// Makes the patches one after the other in the store, and says what they come
/// to against the original text. The answer is the same for every store.
pub fn run<T: SegStore>(st: &mut T, list: &[Replacement]) -> (out: Vec<Replacement>)
    requires
        old(st).inv(),
        old(st).segs() == seq![segments::kept_seg(HUGE as int)],
        convertible(patches::patches_of(list@)),
    ensures
        final(st).inv(),
        segments::cur_len(final(st).segs()) <= usize::MAX,
        patches::patches_of(out@) == patches::absolute(patches::patches_of(list@)),
{
    let ghost all = patches::patches_of(list@);
    let mut k: usize = 0;
    proof {
        let first = segments::kept_seg(HUGE as int);
        assert(all.take(0) =~= Seq::<Patch>::empty());
        splice::lemma_single(first, 0);
        reveal(segments::alternates);
        assert(segments::settled(seq![first]));
    }
    while k < list.len()
        invariant
            k <= list@.len(),
            all == patches::patches_of(list@),
            convertible(all),
            st.inv(),
            segments::settled(st.segs()),
            segments::cur_len(st.segs()) == patches::relative_len(HUGE as int, all.take(k as int)),
            segments::cur_len(st.segs()) <= HUGE + patches::inserted_len(all.take(k as int)),
            segments::orig_len(st.segs()) == HUGE,
            segments::patches_in(st.segs(), 0) == patches::absolute(all.take(k as int)),
        decreases list@.len() - k,
    {
        let p = &list[k];
        proof {
            assert(all[k as int] == p@);
            assert(all.take(k + 1).drop_last() =~= all.take(k as int));
            assert(all.take(k + 1).last() == p@);
            lemma_inserted(all, k + 1);
        }
        apply_one(st, p.range.start, p.range.end - p.range.start, p.content.as_str());
        k += 1;
    }
    proof {
        assert(all.take(k as int) =~= all);
    }
    st.emit()
}

/// What the patches, made one after the other, come to against the original
/// text: patches in ascending order with at least one original character
/// between any two of them (see `patch_laws::law_absolute_separated`), which
/// all refer to the original text (see `patch_laws::law_absolute_applies`).
pub fn relative_to_absolute_patches(list: &[Replacement]) -> (out: Vec<Replacement>)
    requires
        convertible(patches::patches_of(list@)),
    ensures
        patches::patches_of(out@) == patches::absolute(patches::patches_of(list@)),
{
    run(&mut TreapStore::new(), list)
}

/// What patches are converted to can be converted again, the rightmost first, and is then
/// converted to itself.
pub proof fn law_convert_again(relative: Seq<Patch>)
    requires
        convertible(relative),
    ensures
        convertible(patches::absolute(relative).reverse()),
        patches::absolute(patches::absolute(relative).reverse()) == patches::absolute(relative),
{
    let n = (HUGE - 1) as nat;
    let out = patches::absolute(relative);
    let back = out.reverse();
    assert forall|k: int| 0 <= k < relative.len() implies 0 <= (#[trigger] relative[k]).start
        <= relative[k].end <= patches::relative_len(n as int, relative.take(k)) by {
        xf_absolute::lemma_relative_len(HUGE as int, n as int, relative.take(k));
    }
    patch_laws::law_converted_again(n, relative);
    patch_laws::lemma_inserted_absolute(n, relative);
    patch_laws::lemma_inserted_reversed(out);
    assert forall|k: int| 0 <= k < back.len() implies 0 <= (#[trigger] back[k]).start
        <= back[k].end < patches::relative_len(HUGE as int, back.take(k)) by {
        xf_absolute::lemma_relative_len(n as int, HUGE as int, back.take(k));
    }
}

} // verus!
