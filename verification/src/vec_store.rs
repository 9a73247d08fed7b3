//! The segments in a plain list: simple, and linear in the number of segments.

use crate::patches;
use crate::patches::Replacement;
use crate::range::DTRange;
use crate::segments;
use crate::segments::{Seg, SegStore, Segment, HUGE};
use crate::smart_string::SmartString;
use crate::splice;
use vstd::prelude::*;

verus! {

pub struct VecStore {
    arena: Vec<Segment>,
    /// Segment ids in sequence order.
    order: Vec<usize>,
}

impl VecStore {
    /// A store that holds all of the original text as one kept segment.
    pub fn new() -> (out: VecStore)
        ensures
            out.inv(),
            out.segs() == seq![segments::kept_seg(HUGE as int)],
    {
        let out = VecStore { arena: vec![Segment::kept(HUGE)], order: vec![0] };
        proof {
            assert(out.segs() =~= seq![segments::kept_seg(HUGE as int)]);
        }
        out
    }

    fn pos_of(&self, id: usize) -> (out: usize)
        requires
            self.inv(),
            self.ids().contains(id),
        ensures
            out == self.ids().index_of(id),
            out < self.order.len(),
            self.order[out as int] == id,
    {
        let mut k: usize = 0;
        while self.order[k] != id
            invariant
                self.inv(),
                self.ids().contains(id),
                k <= self.ids().index_of(id),
                k < self.order.len(),
            decreases self.order.len() - k,
        {
            k += 1;
        }
        proof {
            splice::lemma_index_of(self.ids(), k as int);
        }
        k
    }
}

impl SegStore for VecStore {
    closed spec fn inv(&self) -> bool {
        &&& self.order@.no_duplicates()
        &&& forall|k: int| 0 <= k < self.order@.len() ==> (#[trigger] self.order@[k]) < self.arena@.len()
    }

    closed spec fn ids(&self) -> Seq<usize> {
        self.order@
    }

    closed spec fn segs(&self) -> Seq<Seg> {
        Seq::new(self.order@.len(), |k: int| self.arena@[self.order@[k] as int]@)
    }

    proof fn lemma_ids(&self) {
    }

    #[verifier::rlimit(40)]
    fn locate(&self, start: usize) -> (out: (usize, usize)) {
        let mut sum: usize = 0;
        let mut k: usize = 0;
        proof {
            assert(self.segs().take(0) =~= Seq::<Seg>::empty());
            assert(segments::cur_len(Seq::<Seg>::empty()) == 0);
        }
        loop
            invariant
                self.inv(),
                segments::settled(self.segs()),
                segments::cur_len(self.segs()) <= usize::MAX,
                start < segments::cur_len(self.segs()),
                k <= self.order@.len(),
                sum == segments::cur_len(self.segs().take(k as int)),
                sum <= start,
                k > 0 && sum == start ==> self.segs()[k - 1].kept(),
            decreases self.order@.len() - k,
        {
            let ghost segs = self.segs();
            proof {
                if k == segs.len() {
                    assert(segs.take(k as int) =~= segs);
                }
                splice::lemma_cum_step(segs, k as int);
                splice::lemma_cum_mono(segs, k + 1, segs.len() as int);
                assert(segs.take(segs.len() as int) =~= segs);
                assert(segs[k as int].settled());
                reveal(segments::alternates);
                assert(k > 0 ==> segs[k - 1].kept() != segs[k as int].kept());
            }
            let id = self.order[k];
            let seg = &self.arena[id];
            // Inside, or at the very end of a replacement.
            if start < sum + seg.size || (!seg.is_kept() && start == sum + seg.size) {
                proof {
                    assert(segments::lands(segs, start as int, k as int));
                    assert(self.ids()[k as int] == id);
                }
                return (id, start - sum);
            }
            sum += seg.size;
            assert(k < self.order.len());
            k += 1;
        }
    }

    fn next_of(&self, id: usize) -> (out: usize) {
        self.order[self.pos_of(id) + 1]
    }

    fn seg(&self, id: usize) -> (out: &Segment) {
        proof {
            assert(self.order@[self.ids().index_of(id)] == id);
        }
        &self.arena[id]
    }

    fn set_content(&mut self, id: usize, content: Option<SmartString>, del: usize) {
        let ghost k = self.ids().index_of(id);
        proof {
            assert(self.order@[k] == id);
        }
        let ghost told = content;
        self.arena[id].content = content;
        self.arena[id].del = del;
        proof {
            let new = Seg {
                size: old(self).segs()[k].size,
                del: del as int,
                content: match told {
                    Some(c) => Some(c@),
                    None => None,
                },
            };
            assert(self.segs() =~= old(self).segs().update(k, new));
        }
    }

    fn resize(&mut self, id: usize, new_size: usize) {
        let ghost k = self.ids().index_of(id);
        proof {
            assert(self.order@[k] == id);
        }
        self.arena[id].size = new_size;
        proof {
            let new = Seg { size: new_size as int, ..old(self).segs()[k] };
            assert(self.segs() =~= old(self).segs().update(k, new));
        }
    }

    fn insert_before(&mut self, id: usize, seg: Segment) -> (out: usize) {
        let new_id = self.arena.len();
        let pos = self.pos_of(id);
        self.arena.push(seg);
        self.order.insert(pos, new_id);
        proof {
            assert(self.segs() =~= old(self).segs().insert(pos as int, seg@));
        }
        new_id
    }

    fn insert_after(&mut self, id: usize, seg: Segment) -> (out: usize) {
        let new_id = self.arena.len();
        let pos = self.pos_of(id);
        self.arena.push(seg);
        self.order.insert(pos + 1, new_id);
        proof {
            assert(self.segs() =~= old(self).segs().insert(pos + 1, seg@));
        }
        new_id
    }

    fn remove(&mut self, id: usize) {
        let pos = self.pos_of(id);
        self.order.remove(pos);
        proof {
            assert(self.segs() =~= old(self).segs().remove(pos as int));
        }
    }

    #[verifier::rlimit(40)]
    fn emit(&self) -> (out: Vec<Replacement>) {
        let mut out: Vec<Replacement> = Vec::new();
        let mut offset: usize = 0;
        let mut k: usize = 0;
        proof {
            assert(self.segs().take(0) =~= Seq::<Seg>::empty());
            assert(patches::patches_of(out@) =~= segments::patches_in(self.segs().take(0), 0));
        }
        while k < self.order.len()
            invariant
                self.inv(),
                segments::orig_len(self.segs()) <= usize::MAX,
                k <= self.order@.len(),
                offset == segments::orig_len(self.segs().take(k as int)),
                patches::patches_of(out@) == segments::patches_in(self.segs().take(k as int), 0),
            decreases self.order@.len() - k,
        {
            let ghost segs = self.segs();
            let id = self.order[k];
            let seg = &self.arena[id];
            proof {
                assert(segs.take(k + 1).drop_last() =~= segs.take(k as int));
                assert(segs.take(k + 1).last() == seg@);
                splice::lemma_orig_prefix(segs, k + 1);
            }
            let ghost before = out@;
            match &seg.content {
                None => {
                    offset += seg.size;
                },
                Some(c) => {
                    out.push(
                        Replacement {
                            range: DTRange { start: offset, end: offset + seg.del },
                            content: c.clone(),
                        },
                    );
                    offset += seg.del;
                },
            }
            k += 1;
            proof {
                assert(patches::patches_of(out@) =~= segments::patches_in(segs.take(k as int), 0));
            }
        }
        proof {
            assert(self.segs().take(k as int) =~= self.segs());
        }
        out
    }
}

} // verus!
