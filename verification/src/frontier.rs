//! Versions of a document: sets of events by their local versions.

use crate::agent_assignment::LV;
use vstd::prelude::*;

verus! {

/// A version, as the local versions of its newest events.
#[derive(Debug, PartialEq, Eq)]
pub struct Frontier(pub Vec<LV>);

impl View for Frontier {
    type V = Seq<usize>;

    open spec fn view(&self) -> Seq<usize> {
        self.0@
    }
}

/// Whether the numbers stand in strictly ascending order.
pub open spec fn ascending(list: Seq<usize>) -> bool {
    forall|i: int, j: int| 0 <= i < j < list.len() ==> list[i] < list[j]
}

/// A copy of a list of numbers.
pub fn copy_of(list: &[LV]) -> (out: Vec<LV>)
    ensures
        out@ == list@,
{
    let mut out: Vec<LV> = Vec::new();
    let mut i: usize = 0;
    while i < list.len()
        invariant
            i <= list@.len(),
            out@ == list@.take(i as int),
        decreases list@.len() - i,
    {
        out.push(list[i]);
        i += 1;
        assert(out@ =~= list@.take(i as int));
    }
    assert(list@.take(i as int) =~= list@);
    out
}

/// Whether two lists of numbers are the same.
pub fn same_list(a: &[LV], b: &[LV]) -> (out: bool)
    ensures
        out == (a@ == b@),
{
    if a.len() != b.len() {
        return false;
    }
    let mut i: usize = 0;
    while i < a.len()
        invariant
            a@.len() == b@.len(),
            i <= a@.len(),
            forall|j: int| 0 <= j < i ==> a@[j] == b@[j],
        decreases a@.len() - i,
    {
        if a[i] != b[i] {
            return false;
        }
        i += 1;
    }
    assert(a@ =~= b@);
    true
}

/// Whether a list holds a number.
pub fn list_has(list: &[LV], x: LV) -> (out: bool)
    ensures
        out == list@.contains(x),
{
    let mut i: usize = 0;
    while i < list.len()
        invariant
            i <= list@.len(),
            forall|j: int| 0 <= j < i ==> list@[j] != x,
        decreases list@.len() - i,
    {
        if list[i] == x {
            assert(list@[i as int] == x);
            return true;
        }
        i += 1;
    }
    false
}

/// Adds a number to an ascending list, unless it is there.
#[verifier::rlimit(40)]
pub fn insert_ascending(list: &mut Vec<LV>, x: LV)
    requires
        ascending(old(list)@),
    ensures
        ascending(final(list)@),
        forall|y: usize| #[trigger]
            final(list)@.contains(y) == (old(list)@.contains(y) || y == x),
{
    let ghost was = list@;
    let mut i: usize = 0;
    while i < list.len() && list[i] < x
        invariant
            i <= list@.len(),
            list@ == was,
            forall|j: int| 0 <= j < i ==> list@[j] < x,
        decreases list@.len() - i,
    {
        i += 1;
    }
    if i < list.len() && list[i] == x {
        assert(was[i as int] == x);
        return ;
    }
    list.insert(i, x);
    proof {
        assert(list@ =~= was.insert(i as int, x));
        assert forall|a: int, b: int| 0 <= a < b < list@.len() implies list@[a] < list@[b] by {
            if i < was.len() {
                assert(x < was[i as int]);
            }
        }
        assert forall|y: usize| #[trigger] list@.contains(y) == (was.contains(y) || y == x) by {
            if was.contains(y) {
                let k = was.index_of(y);
                assert(list@[if k < i {
                    k
                } else {
                    k + 1
                }] == y);
            }
            if y == x {
                assert(list@[i as int] == x);
            }
            if list@.contains(y) {
                let k = list@.index_of(y);
                if k < i {
                    assert(was[k] == y);
                } else if k > i {
                    assert(was[k - 1] == y);
                }
            }
        }
    }
}

impl Frontier {
    /// The version of an empty document.
    pub fn root() -> (out: Frontier)
        ensures
            out@ == Seq::<usize>::empty(),
    {
        Frontier(Vec::new())
    }

    /// The version that one event arrives at.
    pub fn new_1(lv: LV) -> (out: Frontier)
        ensures
            out@ == seq![lv],
    {
        let out = Frontier(vec![lv]);
        assert(out@ =~= seq![lv]);
        out
    }

    pub fn from_slice(list: &[LV]) -> (out: Frontier)
        ensures
            out@ == list@,
    {
        Frontier(copy_of(list))
    }

    pub fn as_ref(&self) -> (out: &[LV])
        ensures
            out@ == self@,
    {
        self.0.as_slice()
    }

    pub fn is_root(&self) -> (out: bool)
        ensures
            out == (self@.len() == 0),
    {
        self.0.len() == 0
    }

    /// Whether the version is the one that event `lv` arrives at.
    pub fn is_1(&self, lv: LV) -> (out: bool)
        ensures
            out == (self@ == seq![lv]),
    {
        let out = self.0.len() == 1 && self.0[0] == lv;
        proof {
            if out {
                assert(self@ =~= seq![lv]);
            } else if self@ == seq![lv] {
                assert(self@.len() == 1 && self@[0] == lv);
            }
        }
        out
    }
}

impl Clone for Frontier {
    fn clone(&self) -> (out: Frontier)
        ensures
            out@ == self@,
    {
        Frontier(copy_of(self.0.as_slice()))
    }
}

/// Ascending lists of the same numbers are the same.
pub proof fn lemma_ascending_same(a: Seq<usize>, b: Seq<usize>)
    requires
        ascending(a),
        ascending(b),
        forall|x: usize| #[trigger] a.contains(x) == b.contains(x),
    ensures
        a == b,
    decreases a.len(),
{
    if a.len() == 0 {
        if b.len() > 0 {
            assert(b.contains(b[0]));
            assert(a.contains(b[0]));
        }
        assert(a =~= b);
    } else {
        let x = a.last();
        assert(a.contains(x));
        assert(b.contains(x));
        let y = b.last();
        assert(b.contains(y));
        assert(a.contains(y));
        let i = a.index_of(y);
        let j = b.index_of(x);
        assert(x == y);
        let a2 = a.drop_last();
        let b2 = b.drop_last();
        assert forall|z: usize| #[trigger] a2.contains(z) == b2.contains(z) by {
            assert(a.contains(z) == b.contains(z));
            if a2.contains(z) {
                let k = a2.index_of(z);
                assert(a[k] == z);
                let l = b.index_of(z);
                assert(b2[l] == z);
            }
            if b2.contains(z) {
                let k = b2.index_of(z);
                assert(b[k] == z);
                let l = a.index_of(z);
                assert(a2[l] == z);
            }
        }
        lemma_ascending_same(a2, b2);
        assert(a =~= a2.push(x));
        assert(b =~= b2.push(x));
    }
}

} // verus!
