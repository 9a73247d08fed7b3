//! Replacements of ranges of a text, and what composing them means.

use crate::range::DTRange;
use crate::smart_string::SmartString;
use vstd::prelude::*;

verus! {

/// The replacement of a range of a text by other text.
#[derive(Debug, Clone, PartialEq, Eq)]
pub struct Replacement {
    /// In current coordinates where the replacements of a list are to be made
    /// one after the other; in coordinates of the original text where they
    /// all refer to that.
    pub range: DTRange,
    pub content: SmartString,
}

/// What a [`Replacement`] says: `start..end` becomes `content`.
#[verifier::ext_equal]
pub struct Patch {
    pub start: int,
    pub end: int,
    pub content: Seq<char>,
}

impl View for Replacement {
    type V = Patch;

    open spec fn view(&self) -> Patch {
        Patch {
            start: self.range.start as int,
            end: self.range.end as int,
            content: self.content@,
        }
    }
}

impl Replacement {
    pub fn new(start: usize, end: usize, content: &str) -> (out: Replacement)
        ensures
            out@ == (Patch { start: start as int, end: end as int, content: content@ }),
    {
        Replacement {
            range: DTRange { start, end },
            content: SmartString::from_text(content),
        }
    }
}

/// The patches that a list of replacements states.
pub open spec fn patches_of(list: Seq<Replacement>) -> Seq<Patch> {
    list.map_values(|r: Replacement| r@)
}

// ---- making replacements one after the other ----

/// `text` with `start..end` replaced by `content`.
pub open spec fn splice(text: Seq<char>, start: int, end: int, content: Seq<char>) -> Seq<char> {
    text.subrange(0, start) + content + text.subrange(end, text.len() as int)
}

/// The text after the patches were made one after the other, each one
/// positioned against what the ones before it left.
pub open spec fn apply_relative(base: Seq<char>, patches: Seq<Patch>) -> Seq<char>
    decreases patches.len(),
{
    if patches.len() == 0 {
        base
    } else {
        let p = patches.last();
        splice(apply_relative(base, patches.drop_last()), p.start, p.end, p.content)
    }
}

/// The length of the text after the patches were made one after the other.
pub open spec fn relative_len(base_len: int, patches: Seq<Patch>) -> int
    decreases patches.len(),
{
    if patches.len() == 0 {
        base_len
    } else {
        let p = patches.last();
        relative_len(base_len, patches.drop_last()) - (p.end - p.start) + p.content.len()
    }
}

/// Whether each patch in turn lies within the text that it finds, of which the
/// first is `base_len` long.
pub open spec fn relative_fits(base_len: int, patches: Seq<Patch>) -> bool {
    forall|k: int|
        0 <= k < patches.len() ==> 0 <= (#[trigger] patches[k]).start <= patches[k].end
            <= relative_len(base_len, patches.take(k))
}

/// How many characters all the patches insert.
pub open spec fn inserted_len(patches: Seq<Patch>) -> nat
    decreases patches.len(),
{
    if patches.len() == 0 {
        0
    } else {
        inserted_len(patches.drop_last()) + patches.last().content.len()
    }
}

// ---- making replacements of one and the same text ----

/// By how much a list of patches of one text makes it longer.
pub open spec fn growth(patches: Seq<Patch>) -> int
    decreases patches.len(),
{
    if patches.len() == 0 {
        0
    } else {
        let p = patches.last();
        growth(patches.drop_last()) + p.content.len() - (p.end - p.start)
    }
}

/// Where the content of patch `k` starts once all the patches are made.
pub open spec fn cur_start(patches: Seq<Patch>, k: int) -> int {
    patches[k].start + growth(patches.take(k))
}

/// Where the content of patch `k` ends once all the patches are made.
pub open spec fn cur_end(patches: Seq<Patch>, k: int) -> int {
    cur_start(patches, k) + patches[k].content.len()
}

/// The text after all the patches were made, each one positioned against
/// `base`: a patch moves by as much as the ones before it have made the text
/// longer.
pub open spec fn apply_absolute(base: Seq<char>, patches: Seq<Patch>) -> Seq<char>
    decreases patches.len(),
{
    if patches.len() == 0 {
        base
    } else {
        let k = patches.len() - 1;
        let p = patches[k];
        let at = cur_start(patches, k);
        splice(apply_absolute(base, patches.drop_last()), at, at + (p.end - p.start), p.content)
    }
}

/// Whether the patches stand in ascending order with at least one character
/// of the original text between any two of them.
pub open spec fn separated(patches: Seq<Patch>) -> bool {
    &&& forall|k: int|
        0 <= k < patches.len() ==> 0 <= (#[trigger] patches[k]).start <= patches[k].end
    &&& forall|k: int, l: int|
        0 <= k < l < patches.len() ==> (#[trigger] patches[k]).end < (#[trigger] patches[l]).start
}

/// Whether all the patches lie within a text of `base_len` characters.
pub open spec fn within(patches: Seq<Patch>, base_len: int) -> bool {
    forall|k: int| 0 <= k < patches.len() ==> (#[trigger] patches[k]).end <= base_len
}

// ---- composing ----

/// How many of the patches end before position `s` of the patched text.
pub open spec fn ended_before(patches: Seq<Patch>, s: int) -> nat
    decreases patches.len(),
{
    if patches.len() == 0 {
        0
    } else if cur_end(patches, patches.len() - 1) < s {
        patches.len()
    } else {
        ended_before(patches.drop_last(), s)
    }
}

/// How many of the patches start at or before position `e` of the patched text.
pub open spec fn started_by(patches: Seq<Patch>, e: int) -> nat
    decreases patches.len(),
{
    if patches.len() == 0 {
        0
    } else if cur_start(patches, patches.len() - 1) <= e {
        patches.len()
    } else {
        started_by(patches.drop_last(), e)
    }
}

/// The one patch that the replacement of `s..e` of the patched text by
/// `content` makes of the patches `i..j`, which are those that it touches.
///
/// Of the first and of the last of them, what lies outside `s..e` stays; the
/// patch covers all of the original text that these patches cover, and all
/// that `s..e` covers.
pub open spec fn merged(
    patches: Seq<Patch>,
    i: int,
    j: int,
    s: int,
    e: int,
    content: Seq<char>,
) -> Patch {
    let keeps_head = i < j && s >= cur_start(patches, i);
    let keeps_tail = i < j && e <= cur_end(patches, j - 1);
    let head = if keeps_head {
        patches[i].content.take(s - cur_start(patches, i))
    } else {
        Seq::empty()
    };
    let tail = if keeps_tail {
        patches[j - 1].content.skip(e - cur_start(patches, j - 1))
    } else {
        Seq::empty()
    };
    Patch {
        start: if keeps_head {
            patches[i].start
        } else {
            s - growth(patches.take(i))
        },
        end: if keeps_tail {
            patches[j - 1].end
        } else {
            e - growth(patches.take(j))
        },
        content: head + content + tail,
    }
}

/// The patches of the original text that stand for `patches` followed by the
/// replacement of `s..e` of the patched text by `content`: every patch that
/// the replacement touches, if only at an end, becomes one with it.
pub open spec fn compose(
    patches: Seq<Patch>,
    s: int,
    e: int,
    content: Seq<char>,
) -> Seq<Patch> {
    let i = ended_before(patches, s) as int;
    let j = started_by(patches, e) as int;
    patches.take(i) + seq![merged(patches, i, j, s, e, content)] + patches.skip(j)
}

/// The patches of the original text that stand for patches made one after the
/// other.
pub open spec fn absolute(relative: Seq<Patch>) -> Seq<Patch>
    decreases relative.len(),
{
    if relative.len() == 0 {
        Seq::empty()
    } else {
        let p = relative.last();
        compose(absolute(relative.drop_last()), p.start, p.end, p.content)
    }
}

} // verus!
