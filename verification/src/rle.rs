//! Run-length encoded lists: values under consecutive keys, held as runs.

use vstd::prelude::*;

verus! {

/// What a run holds under consecutive keys.
pub trait RleVal: Sized {
    /// What the run says, as a mathematical value.
    type Abs;

    /// What stands under one key.
    type Item;

    spec fn abs(&self) -> Self::Abs;

    /// What holds of every run.
    spec fn valid(a: Self::Abs) -> bool;

    /// How many keys the run covers.
    spec fn size(a: Self::Abs) -> int;

    /// What stands under the key at offset `k` of a run that begins at `start`.
    spec fn item(a: Self::Abs, start: int, k: int) -> Self::Item;

    /// Whether run `b`, which begins at `at` right behind run `a`, can be made
    /// one run with it.
    spec fn joins(a: Self::Abs, b: Self::Abs, at: int) -> bool;

    /// The run that `a` and `b` make.
    spec fn join(a: Self::Abs, b: Self::Abs) -> Self::Abs;

    /// The part `from..to` of a run that begins at `start`.
    spec fn part(a: Self::Abs, start: int, from: int, to: int) -> Self::Abs;

    proof fn lemma_size(a: Self::Abs)
        requires
            Self::valid(a),
        ensures
            Self::size(a) > 0,
    ;

    proof fn lemma_join(a: Self::Abs, b: Self::Abs, start: int)
        requires
            Self::valid(a),
            Self::valid(b),
            Self::joins(a, b, start + Self::size(a)),
            0 <= start,
            start + Self::size(a) + Self::size(b) <= usize::MAX,
        ensures
            Self::valid(Self::join(a, b)),
            Self::size(Self::join(a, b)) == Self::size(a) + Self::size(b),
            forall|k: int|
                #![trigger Self::item(Self::join(a, b), start, k)]
                0 <= k < Self::size(a) ==> Self::item(Self::join(a, b), start, k) == Self::item(
                    a,
                    start,
                    k,
                ),
            forall|k: int|
                #![trigger Self::item(Self::join(a, b), start, k)]
                Self::size(a) <= k < Self::size(a) + Self::size(b) ==> Self::item(
                    Self::join(a, b),
                    start,
                    k,
                ) == Self::item(b, start + Self::size(a), k - Self::size(a)),
    ;

    proof fn lemma_part(a: Self::Abs, start: int, from: int, to: int)
        requires
            Self::valid(a),
            0 <= start,
            start + Self::size(a) <= usize::MAX,
            0 <= from < to <= Self::size(a),
        ensures
            Self::valid(Self::part(a, start, from, to)),
            Self::size(Self::part(a, start, from, to)) == to - from,
            forall|k: int|
                #![trigger Self::item(Self::part(a, start, from, to), start + from, k)]
                0 <= k < to - from ==> Self::item(
                    Self::part(a, start, from, to),
                    start + from,
                    k,
                ) == Self::item(a, start, from + k),
    ;

    fn len(&self) -> (out: usize)
        requires
            Self::valid(self.abs()),
            Self::size(self.abs()) <= usize::MAX,
        ensures
            out == Self::size(self.abs()),
    ;

    fn can_append_at(&self, other: &Self, at: usize) -> (out: bool)
        requires
            Self::valid(self.abs()),
            Self::valid(other.abs()),
        ensures
            out == Self::joins(self.abs(), other.abs(), at as int),
    ;

    fn append(&mut self, other: Self, at: usize)
        requires
            Self::valid(old(self).abs()),
            Self::valid(other.abs()),
            Self::joins(old(self).abs(), other.abs(), at as int),
            at >= Self::size(old(self).abs()),
            at + Self::size(other.abs()) <= usize::MAX,
        ensures
            final(self).abs() == Self::join(old(self).abs(), other.abs()),
    ;

    fn slice(&self, start: usize, from: usize, to: usize) -> (out: Self)
        requires
            Self::valid(self.abs()),
            from < to <= Self::size(self.abs()),
            start + Self::size(self.abs()) <= usize::MAX,
        ensures
            out.abs() == Self::part(self.abs(), start as int, from as int, to as int),
    ;

    fn copied(&self) -> (out: Self)
        ensures
            out.abs() == self.abs(),
    ;
}

/// A run and the key that it begins at.
#[derive(Debug, Clone, Copy, PartialEq, Eq)]
pub struct KVPair<V>(pub usize, pub V);

/// A list of runs in ascending order of their keys.
#[derive(Debug)]
pub struct RleVec<V>(pub Vec<KVPair<V>>);

/// What a list of runs says: each run with the key it begins at.
pub type Runs<A> = Seq<(int, A)>;

/// Where run `i` ends.
pub open spec fn end_of<V: RleVal>(runs: Runs<V::Abs>, i: int) -> int {
    runs[i].0 + V::size(runs[i].1)
}

/// Whether the runs stand in order, without overlap.
pub open spec fn sorted<V: RleVal>(runs: Runs<V::Abs>) -> bool {
    &&& forall|i: int|
        0 <= i < runs.len() ==> {
            &&& V::valid((#[trigger] runs[i]).1)
            &&& 0 <= runs[i].0
            &&& V::size(runs[i].1) > 0
            &&& end_of::<V>(runs, i) <= usize::MAX
        }
    &&& forall|i: int, j: int|
        #![trigger runs[i], runs[j]]
        0 <= i < j < runs.len() ==> end_of::<V>(runs, i) <= runs[j].0
}

/// Whether the runs stand in order with no gap, from 0 on.
pub open spec fn packed<V: RleVal>(runs: Runs<V::Abs>) -> bool {
    &&& sorted::<V>(runs)
    &&& runs.len() > 0 ==> runs[0].0 == 0
    &&& forall|i: int, j: int|
        #![trigger runs[i], runs[j]]
        0 <= i && j == i + 1 && j < runs.len() ==> end_of::<V>(runs, i) == runs[j].0
}

/// Whether run `i` covers `key`.
pub open spec fn covers<V: RleVal>(runs: Runs<V::Abs>, i: int, key: int) -> bool {
    0 <= i < runs.len() && runs[i].0 <= key < end_of::<V>(runs, i)
}

/// Whether some run covers `key`.
pub open spec fn has<V: RleVal>(runs: Runs<V::Abs>, key: int) -> bool {
    exists|i: int| covers::<V>(runs, i, key)
}

/// The run that covers `key`.
pub open spec fn run_of<V: RleVal>(runs: Runs<V::Abs>, key: int) -> int {
    choose|i: int| covers::<V>(runs, i, key)
}

/// What stands under `key`.
pub open spec fn at<V: RleVal>(runs: Runs<V::Abs>, key: int) -> V::Item {
    let i = run_of::<V>(runs, key);
    V::item(runs[i].1, runs[i].0, key - runs[i].0)
}

/// Where the runs end.
pub open spec fn end<V: RleVal>(runs: Runs<V::Abs>) -> int {
    if runs.len() == 0 {
        0
    } else {
        end_of::<V>(runs, runs.len() - 1)
    }
}

/// The runs after one was added at the end: one with the last where it can be.
pub open spec fn pushed<V: RleVal>(runs: Runs<V::Abs>, key: int, val: V::Abs) -> Runs<V::Abs> {
    if runs.len() > 0 && end::<V>(runs) == key && V::joins(runs.last().1, val, key) {
        runs.drop_last().push((runs.last().0, V::join(runs.last().1, val)))
    } else {
        runs.push((key, val))
    }
}

/// The runs after one run was added at the end for each key from `key` on.
pub open spec fn pushed_singly<V: RleVal>(
    runs: Runs<V::Abs>,
    key: int,
    vals: Seq<V::Abs>,
) -> Runs<V::Abs>
    decreases vals.len(),
{
    if vals.len() == 0 {
        runs
    } else {
        pushed::<V>(
            pushed_singly::<V>(runs, key, vals.drop_last()),
            key + vals.len() - 1,
            vals.last(),
        )
    }
}

/// At most one run covers a key.
pub proof fn lemma_unique<V: RleVal>(runs: Runs<V::Abs>, i: int, key: int)
    requires
        sorted::<V>(runs),
        covers::<V>(runs, i, key),
    ensures
        has::<V>(runs, key),
        run_of::<V>(runs, key) == i,
        at::<V>(runs, key) == V::item(runs[i].1, runs[i].0, key - runs[i].0),
{
    let j = run_of::<V>(runs, key);
    assert(covers::<V>(runs, j, key));
    if j < i {
        assert(end_of::<V>(runs, j) <= runs[i].0);
    } else if i < j {
        assert(end_of::<V>(runs, i) <= runs[j].0);
    }
}

/// Runs without a gap cover every key before their end, and no other.
#[verifier::rlimit(40)]
pub proof fn lemma_packed<V: RleVal>(runs: Runs<V::Abs>, key: int)
    requires
        packed::<V>(runs),
    ensures
        has::<V>(runs, key) == (0 <= key < end::<V>(runs)),
    decreases runs.len(),
{
    if runs.len() > 0 {
        let n = runs.len() - 1;
        if 0 <= key < end::<V>(runs) {
            if runs[n].0 <= key {
                assert(covers::<V>(runs, n, key));
            } else {
                let before = runs.drop_last();
                assert(packed::<V>(before)) by {
                    assert forall|i: int| 0 <= i < before.len() implies {
                        &&& V::valid((#[trigger] before[i]).1)
                        &&& 0 <= before[i].0
                        &&& V::size(before[i].1) > 0
                        &&& end_of::<V>(before, i) <= usize::MAX
                    } by {
                        assert(runs[i] == before[i]);
                    }
                    assert forall|i: int, j: int|
                        #![trigger before[i], before[j]]
                        0 <= i < j < before.len() implies end_of::<V>(before, i) <= before[j].0 by {
                        assert(runs[i] == before[i] && runs[j] == before[j]);
                    }
                    assert forall|i: int, j: int|
                        #![trigger before[i], before[j]]
                        0 <= i && j == i + 1 && j < before.len() implies end_of::<V>(before, i)
                        == before[j].0 by {
                        assert(runs[i] == before[i] && runs[j] == before[j]);
                    }
                }
                assert(n > 0);
                assert(end_of::<V>(runs, n - 1) == runs[n].0) by {
                    let a = runs[n - 1];
                    let b = runs[n];
                }
                assert(before.last() == runs[n - 1]);
                lemma_packed::<V>(before, key);
                let i = run_of::<V>(before, key);
                assert(covers::<V>(before, i, key));
                assert(covers::<V>(runs, i, key));
            }
        }
        if has::<V>(runs, key) {
            let i = run_of::<V>(runs, key);
            assert(covers::<V>(runs, i, key));
            assert(runs[i].0 >= 0);
            if i < n {
                assert(end_of::<V>(runs, i) <= runs[n].0);
                assert(V::size(runs[n].1) > 0);
            }
        }
    }
}

/// Adding a run at the end adds what it holds, and changes nothing else.
#[verifier::rlimit(50)]
pub proof fn lemma_pushed<V: RleVal>(runs: Runs<V::Abs>, key: int, val: V::Abs)
    requires
        sorted::<V>(runs),
        V::valid(val),
        0 <= key,
        end::<V>(runs) <= key,
        key + V::size(val) <= usize::MAX,
    ensures
        sorted::<V>(pushed::<V>(runs, key, val)),
        packed::<V>(runs) && key == end::<V>(runs) ==> packed::<V>(pushed::<V>(runs, key, val)),
        end::<V>(pushed::<V>(runs, key, val)) == key + V::size(val),
        forall|k: int|
            #![trigger has::<V>(pushed::<V>(runs, key, val), k)]
            has::<V>(pushed::<V>(runs, key, val), k) == (has::<V>(runs, k) || key <= k < key
                + V::size(val)),
        forall|k: int|
            #![trigger at::<V>(pushed::<V>(runs, key, val), k)]
            has::<V>(runs, k) ==> k < key && at::<V>(pushed::<V>(runs, key, val), k) == at::<V>(
                runs,
                k,
            ),
        forall|k: int|
            #![trigger at::<V>(pushed::<V>(runs, key, val), k)]
            key <= k < key + V::size(val) ==> at::<V>(pushed::<V>(runs, key, val), k) == V::item(
                val,
                key,
                k - key,
            ),
{
    let out = pushed::<V>(runs, key, val);
    let n = runs.len() as int;
    V::lemma_size(val);
    let joined = n > 0 && end::<V>(runs) == key && V::joins(runs.last().1, val, key);
    if joined {
        V::lemma_join(runs.last().1, val, runs.last().0);
        assert(runs.last() == runs[n - 1]);
        assert(forall|i: int| 0 <= i < n - 1 ==> out[i] == runs[i]);
    } else {
        assert(forall|i: int| 0 <= i < n ==> out[i] == runs[i]);
        assert(out[n] == (key, val));
    }
    assert(sorted::<V>(out)) by {
        assert forall|i: int| 0 <= i < out.len() implies {
            &&& V::valid((#[trigger] out[i]).1)
            &&& 0 <= out[i].0
            &&& V::size(out[i].1) > 0
            &&& end_of::<V>(out, i) <= usize::MAX
        } by {
            if i < n {
                assert(V::valid(runs[i].1));
            }
        }
        assert forall|i: int, j: int|
            #![trigger out[i], out[j]]
            0 <= i < j < out.len() implies end_of::<V>(out, i) <= out[j].0 by {
            if j < n {
                assert(end_of::<V>(runs, i) <= runs[j].0);
            } else {
                if i < n - 1 {
                    assert(end_of::<V>(runs, i) <= runs[n - 1].0);
                    assert(V::size(runs[n - 1].1) > 0);
                }
            }
        }
    }
    if packed::<V>(runs) && key == end::<V>(runs) {
        assert forall|i: int, j: int|
            #![trigger out[i], out[j]]
            0 <= i && j == i + 1 && j < out.len() implies end_of::<V>(out, i) == out[j].0 by {
            if j < n {
                assert(end_of::<V>(runs, i) == runs[j].0);
            }
        }
    }
    assert forall|k: int| has::<V>(runs, k) implies k < key && has::<V>(out, k)
        && #[trigger] at::<V>(out, k) == at::<V>(runs, k) by {
        let i = run_of::<V>(runs, k);
        assert(covers::<V>(runs, i, k));
        lemma_unique::<V>(runs, i, k);
        if i < n - 1 {
            assert(end_of::<V>(runs, i) <= runs[n - 1].0);
            assert(V::size(runs[n - 1].1) > 0);
        }
        assert(covers::<V>(out, i, k));
        lemma_unique::<V>(out, i, k);
    }
    assert forall|k: int| key <= k < key + V::size(val) implies has::<V>(out, k)
        && #[trigger] at::<V>(out, k) == V::item(val, key, k - key) by {
        let i = out.len() - 1;
        assert(covers::<V>(out, i, k));
        lemma_unique::<V>(out, i, k);
        if joined {
            assert(V::item(out[i].1, out[i].0, k - out[i].0) == V::item(val, key, k - key));
        }
    }
    assert forall|k: int| #[trigger]
        has::<V>(out, k) == (has::<V>(runs, k) || key <= k < key + V::size(val)) by {
        if has::<V>(out, k) {
            let i = run_of::<V>(out, k);
            assert(covers::<V>(out, i, k));
            if i < n && k < end_of::<V>(runs, i) {
                assert(covers::<V>(runs, i, k));
            }
        }
        if has::<V>(runs, k) {
            assert(at::<V>(out, k) == at::<V>(runs, k));
        }
        if key <= k < key + V::size(val) {
            assert(at::<V>(out, k) == V::item(val, key, k - key));
        }
    }
}

/// Whether no run covers any of the keys `from..to`.
pub open spec fn clear<V: RleVal>(runs: Runs<V::Abs>, from: int, to: int) -> bool {
    forall|k: int| from <= k < to ==> !#[trigger] has::<V>(runs, k)
}

/// Adding a run between others adds what it holds, and changes nothing else.
#[verifier::rlimit(50)]
pub proof fn lemma_inserted<V: RleVal>(runs: Runs<V::Abs>, at_index: int, key: int, val: V::Abs)
    requires
        sorted::<V>(runs),
        V::valid(val),
        0 <= key,
        key + V::size(val) <= usize::MAX,
        clear::<V>(runs, key, key + V::size(val)),
        0 <= at_index <= runs.len(),
        forall|i: int| 0 <= i < at_index ==> (#[trigger] runs[i]).0 <= key,
        forall|i: int| at_index <= i < runs.len() ==> (#[trigger] runs[i]).0 > key,
    ensures
        sorted::<V>(runs.insert(at_index, (key, val))),
        forall|k: int|
            #![trigger has::<V>(runs.insert(at_index, (key, val)), k)]
            has::<V>(runs.insert(at_index, (key, val)), k) == (has::<V>(runs, k) || key <= k < key
                + V::size(val)),
        forall|k: int|
            #![trigger at::<V>(runs.insert(at_index, (key, val)), k)]
            has::<V>(runs, k) ==> at::<V>(runs.insert(at_index, (key, val)), k) == at::<V>(runs, k),
        forall|k: int|
            #![trigger at::<V>(runs.insert(at_index, (key, val)), k)]
            key <= k < key + V::size(val) ==> at::<V>(runs.insert(at_index, (key, val)), k)
                == V::item(val, key, k - key),
{
    let out = runs.insert(at_index, (key, val));
    V::lemma_size(val);
    assert(forall|i: int| 0 <= i < at_index ==> out[i] == runs[i]);
    assert(forall|i: int| at_index < i < out.len() ==> out[i] == runs[i - 1]);
    assert(out[at_index] == (key, val));
    assert forall|i: int| 0 <= i < at_index implies end_of::<V>(runs, i) <= key by {
        assert(runs[i].0 <= key);
        if end_of::<V>(runs, i) > key {
            assert(covers::<V>(runs, i, key));
            assert(has::<V>(runs, key));
        }
    }
    assert forall|i: int| at_index <= i < runs.len() implies key + V::size(val) <= runs[i].0 by {
        assert(runs[i].0 > key);
        assert(V::size(runs[i].1) > 0);
        if key + V::size(val) > runs[i].0 {
            assert(covers::<V>(runs, i, runs[i].0));
            assert(has::<V>(runs, runs[i].0));
        }
    }
    assert(sorted::<V>(out)) by {
        assert forall|i: int| 0 <= i < out.len() implies {
            &&& V::valid((#[trigger] out[i]).1)
            &&& 0 <= out[i].0
            &&& V::size(out[i].1) > 0
            &&& end_of::<V>(out, i) <= usize::MAX
        } by {
            if i < at_index {
                assert(V::valid(runs[i].1));
            } else if i > at_index {
                assert(V::valid(runs[i - 1].1));
            }
        }
        assert forall|i: int, j: int|
            #![trigger out[i], out[j]]
            0 <= i < j < out.len() implies end_of::<V>(out, i) <= out[j].0 by {
            let a = if i < at_index {
                i
            } else {
                i - 1
            };
            let b = if j < at_index {
                j
            } else {
                j - 1
            };
            if i != at_index && j != at_index {
                assert(end_of::<V>(runs, a) <= runs[b].0);
            }
        }
    }
    assert forall|k: int| has::<V>(runs, k) implies has::<V>(out, k) && #[trigger] at::<V>(out, k)
        == at::<V>(runs, k) by {
        let i = run_of::<V>(runs, k);
        assert(covers::<V>(runs, i, k));
        let j = if i < at_index {
            i
        } else {
            i + 1
        };
        assert(covers::<V>(out, j, k));
        lemma_unique::<V>(out, j, k);
    }
    assert forall|k: int| key <= k < key + V::size(val) implies has::<V>(out, k)
        && #[trigger] at::<V>(out, k) == V::item(val, key, k - key) by {
        assert(covers::<V>(out, at_index, k));
        lemma_unique::<V>(out, at_index, k);
    }
    assert forall|k: int| #[trigger]
        has::<V>(out, k) == (has::<V>(runs, k) || key <= k < key + V::size(val)) by {
        if has::<V>(out, k) {
            let i = run_of::<V>(out, k);
            assert(covers::<V>(out, i, k));
            if i < at_index {
                assert(covers::<V>(runs, i, k));
            } else if i > at_index {
                assert(covers::<V>(runs, i - 1, k));
            }
        }
        if has::<V>(runs, k) {
            assert(at::<V>(out, k) == at::<V>(runs, k));
        }
        if key <= k < key + V::size(val) {
            assert(at::<V>(out, k) == V::item(val, key, k - key));
        }
    }
}

/// What a list holds after a run was added to it.
pub open spec fn added<V: RleVal>(
    before: Runs<V::Abs>,
    after: Runs<V::Abs>,
    key: int,
    val: V::Abs,
) -> bool {
    &&& sorted::<V>(after)
    &&& forall|k: int|
        #![trigger has::<V>(after, k)]
        has::<V>(after, k) == (has::<V>(before, k) || key <= k < key + V::size(val))
    &&& forall|k: int|
        #![trigger at::<V>(after, k)]
        has::<V>(before, k) ==> at::<V>(after, k) == at::<V>(before, k)
    &&& forall|k: int|
        #![trigger at::<V>(after, k)]
        key <= k < key + V::size(val) ==> at::<V>(after, k) == V::item(val, key, k - key)
}

/// No run covers a key at or behind the end.
pub proof fn lemma_past_end<V: RleVal>(runs: Runs<V::Abs>, key: int)
    requires
        sorted::<V>(runs),
        has::<V>(runs, key),
    ensures
        0 <= key < end::<V>(runs),
{
    let i = run_of::<V>(runs, key);
    let n = runs.len() - 1;
    assert(covers::<V>(runs, i, key));
    assert(runs[i].0 >= 0);
    if i < n {
        assert(end_of::<V>(runs, i) <= runs[n].0);
        assert(V::size(runs[n].1) > 0);
    }
}

impl<V: RleVal> RleVec<V> {
    /// The runs.
    pub open spec fn runs(&self) -> Runs<V::Abs> {
        Seq::new(self.0@.len(), |i: int| (self.0@[i].0 as int, self.0@[i].1.abs()))
    }

    /// Where the runs end, as a number of keys.
    pub open spec fn ends(&self) -> int {
        end::<V>(self.runs())
    }

    pub fn new() -> (out: RleVec<V>)
        ensures
            out.runs() == Runs::<V::Abs>::empty(),
    {
        let out = RleVec(Vec::new());
        assert(out.runs() =~= Runs::<V::Abs>::empty());
        out
    }

    /// Where the runs end.
    pub fn end(&self) -> (out: usize)
        requires
            sorted::<V>(self.runs()),
        ensures
            out == self.ends(),
    {
        let n = self.0.len();
        if n == 0 {
            0
        } else {
            assert(self.runs()[n - 1] == (self.0@[n - 1].0 as int, self.0@[n - 1].1.abs()));
            self.0[n - 1].0 + self.0[n - 1].1.len()
        }
    }

    pub fn is_empty(&self) -> (out: bool)
        ensures
            out == (self.runs().len() == 0),
    {
        self.0.len() == 0
    }

    /// Adds a run at the end: one with the last where it can be.
    pub fn push(&mut self, key: usize, val: V)
        requires
            sorted::<V>(old(self).runs()),
            V::valid(val.abs()),
            old(self).ends() <= key,
            key + V::size(val.abs()) <= usize::MAX,
        ensures
            final(self).runs() == pushed::<V>(old(self).runs(), key as int, val.abs()),
    {
        let ghost runs = self.runs();
        let n = self.0.len();
        if n > 0 && self.end() == key {
            proof {
                assert(runs[n - 1] == (self.0@[n - 1].0 as int, self.0@[n - 1].1.abs()));
            }
            if self.0[n - 1].1.can_append_at(&val, key) {
                self.0[n - 1].1.append(val, key);
                assert(self.runs() =~= pushed::<V>(runs, key as int, val.abs()));
                return ;
            }
        }
        let ghost told = val.abs();
        self.0.push(KVPair(key, val));
        assert(self.runs() =~= pushed::<V>(runs, key as int, told));
    }

    /// Adds a run under keys that no other run covers.
    pub fn insert(&mut self, key: usize, val: V)
        requires
            sorted::<V>(old(self).runs()),
            V::valid(val.abs()),
            key + V::size(val.abs()) <= usize::MAX,
            clear::<V>(old(self).runs(), key as int, key + V::size(val.abs())),
        ensures
            added::<V>(old(self).runs(), final(self).runs(), key as int, val.abs()),
            final(self).ends() == if old(self).ends() <= key {
                key + V::size(val.abs())
            } else {
                old(self).ends()
            },
    {
        let ghost runs = self.runs();
        let ghost told = val.abs();
        if self.end() <= key {
            proof {
                lemma_pushed::<V>(runs, key as int, told);
            }
            self.push(key, val);
        } else {
            let i = self.count_to(key);
            proof {
                lemma_inserted::<V>(runs, i as int, key as int, told);
            }
            self.0.insert(i, KVPair(key, val));
            proof {
                assert(self.runs() =~= runs.insert(i as int, (key as int, told)));
                let n = runs.len() - 1;
                V::lemma_size(told);
                if i > n {
                    assert(runs[n].0 <= key);
                    assert(covers::<V>(runs, n, key as int));
                    assert(has::<V>(runs, key as int));
                }
                assert(self.runs().last() == runs[n]);
            }
        }
    }

    /// How many runs begin at or before `key`.
    pub fn count_to(&self, key: usize) -> (out: usize)
        requires
            sorted::<V>(self.runs()),
        ensures
            out <= self.runs().len(),
            forall|i: int| 0 <= i < out ==> (#[trigger] self.runs()[i]).0 <= key,
            forall|i: int| out <= i < self.runs().len() ==> (#[trigger] self.runs()[i]).0 > key,
    {
        let ghost runs = self.runs();
        let mut lo: usize = 0;
        let mut hi: usize = self.0.len();
        while lo < hi
            invariant
                runs == self.runs(),
                sorted::<V>(runs),
                lo <= hi <= runs.len(),
                forall|i: int| 0 <= i < lo ==> (#[trigger] runs[i]).0 <= key,
                forall|i: int| hi <= i < runs.len() ==> (#[trigger] runs[i]).0 > key,
            decreases hi - lo,
        {
            let mid = lo + (hi - lo) / 2;
            assert(runs[mid as int] == (self.0@[mid as int].0 as int, self.0@[mid as int].1.abs()));
            if self.0[mid].0 <= key {
                assert forall|i: int| 0 <= i < mid + 1 implies (#[trigger] runs[i]).0 <= key by {
                    if i < mid {
                        assert(end_of::<V>(runs, i) <= runs[mid as int].0);
                    }
                }
                lo = mid + 1;
            } else {
                assert forall|i: int| mid <= i < runs.len() implies (#[trigger] runs[i]).0 > key by {
                    if i > mid {
                        assert(end_of::<V>(runs, mid as int) <= runs[i].0);
                    }
                }
                hi = mid;
            }
        }
        lo
    }

    /// The run that covers `key`.
    pub fn find_index(&self, key: usize) -> (out: Option<usize>)
        requires
            sorted::<V>(self.runs()),
        ensures
            out is Some <==> has::<V>(self.runs(), key as int),
            out matches Some(i) ==> covers::<V>(self.runs(), i as int, key as int) && i == run_of::<
                V,
            >(self.runs(), key as int),
    {
        let ghost runs = self.runs();
        let after = self.count_to(key);
        if after > 0 {
            let i = after - 1;
            proof {
                assert(runs[i as int] == (self.0@[i as int].0 as int, self.0@[i as int].1.abs()));
            }
            if key - self.0[i].0 < self.0[i].1.len() {
                proof {
                    assert(covers::<V>(runs, i as int, key as int));
                    lemma_unique::<V>(runs, i as int, key as int);
                }
                return Some(i);
            }
        }
        proof {
            if has::<V>(runs, key as int) {
                let j = run_of::<V>(runs, key as int);
                assert(covers::<V>(runs, j, key as int));
                assert(j < after);
                if j < after - 1 {
                    assert(end_of::<V>(runs, j) <= runs[after - 1].0);
                }
            }
        }
        None
    }
}

// ---- ranges of keys ----

/// Where the run that covers `key` ends, or `to` if that comes first.
pub open spec fn break_after<V: RleVal>(runs: Runs<V::Abs>, key: int, to: int) -> int {
    let end = end_of::<V>(runs, run_of::<V>(runs, key));
    if end < to {
        end
    } else {
        to
    }
}

/// What stands under the keys `from..to`, all of which one run covers.
pub open spec fn piece<V: RleVal>(runs: Runs<V::Abs>, from: int, to: int) -> V::Abs {
    let i = run_of::<V>(runs, from);
    V::part(runs[i].1, runs[i].0, from - runs[i].0, to - runs[i].0)
}

/// A part of a run holds what the run holds.
pub proof fn lemma_piece<V: RleVal>(runs: Runs<V::Abs>, from: int, to: int)
    requires
        sorted::<V>(runs),
        has::<V>(runs, from),
        from < to <= break_after::<V>(runs, from, to),
    ensures
        V::valid(piece::<V>(runs, from, to)),
        V::size(piece::<V>(runs, from, to)) == to - from,
        forall|k: int|
            #![trigger V::item(piece::<V>(runs, from, to), from, k)]
            0 <= k < to - from ==> V::item(piece::<V>(runs, from, to), from, k) == at::<V>(
                runs,
                from + k,
            ) && has::<V>(runs, from + k),
{
    let i = run_of::<V>(runs, from);
    assert(covers::<V>(runs, i, from));
    let start = runs[i].0;
    V::lemma_part(runs[i].1, start, from - start, to - start);
    assert forall|k: int|
        #![trigger V::item(piece::<V>(runs, from, to), from, k)]
        0 <= k < to - from implies V::item(piece::<V>(runs, from, to), from, k) == at::<V>(
        runs,
        from + k,
    ) && has::<V>(runs, from + k) by {
        assert(covers::<V>(runs, i, from + k));
        lemma_unique::<V>(runs, i, from + k);
        let part = V::part(runs[i].1, start, from - start, to - start);
        assert(V::item(part, start + (from - start), k) == V::item(runs[i].1, start, from - start + k));
    }
}

impl<V: RleVal> RleVec<V> {
    /// Where the run that covers `key` ends, or `to` if that comes first.
    pub fn next_break(&self, key: usize, to: usize) -> (out: usize)
        requires
            sorted::<V>(self.runs()),
            has::<V>(self.runs(), key as int),
            key < to,
        ensures
            out == break_after::<V>(self.runs(), key as int, to as int),
            key < out <= to,
    {
        let i = self.find_index(key).unwrap();
        let entry = &self.0[i];
        assert(self.runs()[i as int] == (entry.0 as int, entry.1.abs()));
        let end = entry.0 + entry.1.len();
        if end < to {
            end
        } else {
            to
        }
    }

    /// What stands under the keys `from..to`, all of which one run covers.
    pub fn piece_at(&self, from: usize, to: usize) -> (out: V)
        requires
            sorted::<V>(self.runs()),
            has::<V>(self.runs(), from as int),
            from < to <= break_after::<V>(self.runs(), from as int, to as int),
        ensures
            out.abs() == piece::<V>(self.runs(), from as int, to as int),
    {
        let i = self.find_index(from).unwrap();
        let entry = &self.0[i];
        assert(self.runs()[i as int] == (entry.0 as int, entry.1.abs()));
        entry.1.slice(entry.0, from - entry.0, to - entry.0)
    }

    pub fn copied(&self) -> (out: RleVec<V>)
        ensures
            out.runs() == self.runs(),
    {
        let mut list: Vec<KVPair<V>> = Vec::new();
        let mut i: usize = 0;
        while i < self.0.len()
            invariant
                i <= self.0@.len(),
                list@.len() == i,
                forall|k: int|
                    0 <= k < i ==> (#[trigger] list@[k]).0 == self.0@[k].0 && list@[k].1.abs()
                        == self.0@[k].1.abs(),
            decreases self.0@.len() - i,
        {
            list.push(KVPair(self.0[i].0, self.0[i].1.copied()));
            i += 1;
        }
        let out = RleVec(list);
        assert(out.runs() =~= self.runs());
        out
    }
}

} // verus!
