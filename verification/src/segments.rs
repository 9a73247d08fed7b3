//! The sequence of segments that relative replacements are spliced into.
//!
//! "Kept" segments (original text that still stands) alternate with
//! "replacement" segments (new content that covers `del` original characters).
//! The last segment is a kept one, which stands for the rest of the text.

use crate::patches;
use crate::patches::{Patch, Replacement};
use crate::smart_string::SmartString;
use vstd::prelude::*;
use vstd::string::*;

verus! {

/// One segment. No content: kept original text; content: a replacement of
/// `del` original characters.
#[derive(Debug)]
pub struct Segment {
    pub size: usize,
    pub del: usize,
    pub content: Option<SmartString>,
}

/// What a [`Segment`] says.
#[verifier::ext_equal]
pub struct Seg {
    /// How many characters of the current text it is.
    pub size: int,
    /// How many original characters a replacement covers.
    pub del: int,
    pub content: Option<Seq<char>>,
}

impl View for Segment {
    type V = Seg;

    open spec fn view(&self) -> Seg {
        Seg {
            size: self.size as int,
            del: self.del as int,
            content: match self.content {
                Some(c) => Some(c@),
                None => None,
            },
        }
    }
}

impl Seg {
    pub open spec fn kept(self) -> bool {
        self.content is None
    }

    /// How many original characters the segment stands for.
    pub open spec fn orig(self) -> int {
        if self.kept() {
            self.size
        } else {
            self.del
        }
    }

    /// Whether the segment is what it should be between two edits.
    pub open spec fn settled(self) -> bool {
        match self.content {
            None => self.size > 0 && self.del == 0,
            Some(c) => self.size == c.len() && self.del >= 0,
        }
    }
}

pub open spec fn kept_seg(size: int) -> Seg {
    Seg { size, del: 0, content: None }
}

pub open spec fn repl_seg(size: int, del: int, content: Seq<char>) -> Seg {
    Seg { size, del, content: Some(content) }
}

impl Segment {
    pub(crate) fn kept(size: usize) -> (out: Segment)
        ensures
            out@ == kept_seg(size as int),
    {
        Segment { size, del: 0, content: None }
    }

    pub(crate) fn repl(content: &str, del: usize) -> (out: Segment)
        ensures
            out@ == repl_seg(0, del as int, content@),
    {
        Segment { size: 0, del, content: Some(SmartString::from_text(content)) }
    }

    pub(crate) fn is_kept(&self) -> (out: bool)
        ensures
            out == self@.kept(),
    {
        self.content.is_none()
    }

    /// What a swallowed segment adds to the deletion count.
    pub(crate) fn del_or_size(&self) -> (out: usize)
        ensures
            out == self@.orig(),
    {
        if self.is_kept() {
            self.size
        } else {
            self.del
        }
    }
}

/// The size of the last segment at the start: "all of the original text".
/// No real position comes near it, so it only needs room for sums.
pub const HUGE: usize = usize::MAX / 4;

/// The length of the current text.
pub open spec fn cur_len(segs: Seq<Seg>) -> int
    decreases segs.len(),
{
    if segs.len() == 0 {
        0
    } else {
        cur_len(segs.drop_last()) + segs.last().size
    }
}

/// The length of the original text.
pub open spec fn orig_len(segs: Seq<Seg>) -> int
    decreases segs.len(),
{
    if segs.len() == 0 {
        0
    } else {
        orig_len(segs.drop_last()) + segs.last().orig()
    }
}

/// The patches of the original text that the segments from original position
/// `offset` on state.
pub open spec fn patches_in(segs: Seq<Seg>, offset: int) -> Seq<Patch>
    decreases segs.len(),
{
    if segs.len() == 0 {
        Seq::empty()
    } else {
        let before = segs.drop_last();
        let at = offset + orig_len(before);
        match segs.last().content {
            None => patches_in(before, offset),
            Some(c) => patches_in(before, offset).push(
                Patch { start: at, end: at + segs.last().del, content: c },
            ),
        }
    }
}

/// Whether every segment is what it should be between two edits.
pub open spec fn each_settled(segs: Seq<Seg>) -> bool {
    forall|k: int| 0 <= k < segs.len() ==> (#[trigger] segs[k]).settled()
}

/// Whether kept segments and replacements take turns.
#[verifier::opaque]
pub open spec fn alternates(segs: Seq<Seg>) -> bool {
    forall|k: int, l: int|
        #![trigger segs[k], segs[l]]
        0 <= k && l == k + 1 && l < segs.len() ==> segs[k].kept() != segs[l].kept()
}

/// What holds of the segments between two edits.
pub open spec fn settled(segs: Seq<Seg>) -> bool {
    &&& segs.len() > 0
    &&& segs.last().kept()
    &&& each_settled(segs)
    &&& alternates(segs)
}

/// Whether an edit at `start` belongs to segment `k`: inside it, or at either
/// end of it where it is a replacement.
pub open spec fn lands(segs: Seq<Seg>, start: int, k: int) -> bool {
    let at = cur_len(segs.take(k));
    &&& 0 <= k < segs.len()
    &&& if segs[k].kept() {
        &&& start < at + segs[k].size
        &&& at < start || k == 0 && start == 0
    } else {
        at <= start <= at + segs[k].size
    }
}

/// The store that edits run against: a sequence of segments, each under an id
/// that stays its own for as long as it is there.
pub trait SegStore: Sized {
    /// What every operation keeps.
    spec fn inv(&self) -> bool;

    /// The ids in sequence order.
    spec fn ids(&self) -> Seq<usize>;

    /// The segments in sequence order.
    spec fn segs(&self) -> Seq<Seg>;

    proof fn lemma_ids(&self)
        requires
            self.inv(),
        ensures
            self.ids().len() == self.segs().len(),
            self.ids().no_duplicates(),
            forall|k: int| 0 <= k < self.segs().len() ==> (#[trigger] self.segs()[k]).size >= 0,
    ;

    /// The id of the segment that an edit at `start` belongs to, and the
    /// position within it.
    fn locate(&self, start: usize) -> (out: (usize, usize))
        requires
            self.inv(),
            settled(self.segs()),
            cur_len(self.segs()) <= usize::MAX,
            start < cur_len(self.segs()),
        ensures
            exists|k: int|
                #![trigger self.ids()[k]]
                lands(self.segs(), start as int, k) && out.0 == self.ids()[k] && out.1 == start
                    - cur_len(self.segs().take(k)),
    ;

    /// The id of the segment that follows.
    fn next_of(&self, id: usize) -> (out: usize)
        requires
            self.inv(),
            self.ids().contains(id),
            self.ids().index_of(id) + 1 < self.ids().len(),
        ensures
            out == self.ids()[self.ids().index_of(id) + 1],
    ;

    fn seg(&self, id: usize) -> (out: &Segment)
        requires
            self.inv(),
            self.ids().contains(id),
        ensures
            out@ == self.segs()[self.ids().index_of(id)],
    ;

    fn set_content(&mut self, id: usize, content: Option<SmartString>, del: usize)
        requires
            old(self).inv(),
            old(self).ids().contains(id),
        ensures
            final(self).inv(),
            final(self).ids() == old(self).ids(),
            final(self).segs() == old(self).segs().update(
                old(self).ids().index_of(id),
                (Seg {
                    size: old(self).segs()[old(self).ids().index_of(id)].size,
                    del: del as int,
                    content: match content {
                        Some(c) => Some(c@),
                        None => None,
                    },
                }),
            ),
    ;

    fn resize(&mut self, id: usize, new_size: usize)
        requires
            old(self).inv(),
            old(self).ids().contains(id),
            cur_len(old(self).segs()) <= usize::MAX,
            cur_len(old(self).segs()) - old(self).segs()[old(self).ids().index_of(id)].size
                + new_size <= usize::MAX,
        ensures
            final(self).inv(),
            final(self).ids() == old(self).ids(),
            final(self).segs() == old(self).segs().update(
                old(self).ids().index_of(id),
                (Seg {
                    size: new_size as int,
                    ..old(self).segs()[old(self).ids().index_of(id)]
                }),
            ),
    ;

    fn insert_before(&mut self, id: usize, seg: Segment) -> (out: usize)
        requires
            old(self).inv(),
            old(self).ids().contains(id),
            cur_len(old(self).segs()) + seg@.size <= usize::MAX,
        ensures
            final(self).inv(),
            !old(self).ids().contains(out),
            final(self).ids() == old(self).ids().insert(old(self).ids().index_of(id), out),
            final(self).segs() == old(self).segs().insert(old(self).ids().index_of(id), seg@),
    ;

    fn insert_after(&mut self, id: usize, seg: Segment) -> (out: usize)
        requires
            old(self).inv(),
            old(self).ids().contains(id),
            cur_len(old(self).segs()) + seg@.size <= usize::MAX,
        ensures
            final(self).inv(),
            !old(self).ids().contains(out),
            final(self).ids() == old(self).ids().insert(old(self).ids().index_of(id) + 1, out),
            final(self).segs() == old(self).segs().insert(old(self).ids().index_of(id) + 1, seg@),
    ;

    fn remove(&mut self, id: usize)
        requires
            old(self).inv(),
            old(self).ids().contains(id),
            old(self).ids().len() > 1,
            cur_len(old(self).segs()) <= usize::MAX,
        ensures
            final(self).inv(),
            final(self).ids() == old(self).ids().remove(old(self).ids().index_of(id)),
            final(self).segs() == old(self).segs().remove(old(self).ids().index_of(id)),
    ;

    /// The replacements of the original text that the segments state.
    fn emit(&self) -> (out: Vec<Replacement>)
        requires
            self.inv(),
            orig_len(self.segs()) <= usize::MAX,
        ensures
            patches::patches_of(out@) == patches_in(self.segs(), 0),
    ;
}

} // verus!
