//! Lists of names, each of which stands there once.

use vstd::prelude::*;

verus! {

/// Names with one behind them, if it is new.
pub open spec fn with_name(known: Seq<Seq<char>>, name: Seq<char>) -> Seq<Seq<char>> {
    if known.contains(name) {
        known
    } else {
        known.push(name)
    }
}

/// Names with those behind them that are new.
pub open spec fn with_names(known: Seq<Seq<char>>, names: Seq<Seq<char>>) -> Seq<Seq<char>>
    decreases names.len(),
{
    if names.len() == 0 {
        known
    } else {
        with_name(with_names(known, names.drop_last()), names.last())
    }
}

proof fn lemma_with_name(known: Seq<Seq<char>>, name: Seq<char>, x: Seq<char>)
    ensures
        with_name(known, name).contains(x) == (known.contains(x) || x == name),
        known.no_duplicates() ==> with_name(known, name).no_duplicates(),
{
    let out = with_name(known, name);
    if !known.contains(name) {
        assert(out[known.len() as int] == name);
        if known.contains(x) {
            assert(out[known.index_of(x)] == x);
        }
        if out.contains(x) && x != name {
            assert(known[out.index_of(x)] == x);
        }
        if known.no_duplicates() {
            assert forall|i: int, j: int|
                0 <= i < out.len() && 0 <= j < out.len() && i != j implies out[i] != out[j] by {
                if i < known.len() && j < known.len() {
                    assert(known[i] != known[j]);
                } else if i < known.len() {
                    assert(known.contains(known[i]));
                } else {
                    assert(known.contains(known[j]));
                }
            }
        }
    }
}

/// Names that were there stay, and the others come once.
pub proof fn lemma_with_names(known: Seq<Seq<char>>, names: Seq<Seq<char>>, x: Seq<char>)
    ensures
        with_names(known, names).contains(x) == (known.contains(x) || names.contains(x)),
        known.no_duplicates() ==> with_names(known, names).no_duplicates(),
    decreases names.len(),
{
    if names.len() > 0 {
        let less = names.drop_last();
        lemma_with_names(known, less, x);
        lemma_with_name(with_names(known, less), names.last(), x);
        if names.contains(x) && x != names.last() {
            assert(less[names.index_of(x)] == x);
        }
        if less.contains(x) {
            assert(names[less.index_of(x)] == x);
        }
        assert(names[names.len() - 1] == names.last());
    }
}

/// More names make the list no shorter.
pub proof fn lemma_longer(known: Seq<Seq<char>>, names: Seq<Seq<char>>, k: int)
    requires
        0 <= k <= names.len(),
    ensures
        known.len() <= with_names(known, names.take(k)).len() <= with_names(known, names).len(),
    decreases names.len(),
{
    if k < names.len() {
        let less = names.drop_last();
        lemma_longer(known, less, k);
        assert(less.take(k) =~= names.take(k));
    } else {
        assert(names.take(k) =~= names);
        if names.len() > 0 {
            lemma_longer(known, names.drop_last(), k - 1);
        }
    }
}

/// Different names that all stand in another list are no more than those.
pub proof fn lemma_few(a: Seq<Seq<char>>, b: Seq<Seq<char>>)
    requires
        a.no_duplicates(),
        forall|i: int| 0 <= i < a.len() ==> b.contains(#[trigger] a[i]),
    ensures
        a.len() <= b.len(),
{
    a.unique_seq_to_set();
    b.lemma_cardinality_of_set();
    assert(a.to_set().subset_of(b.to_set())) by {
        assert forall|x: Seq<char>| a.to_set().contains(x) implies b.to_set().contains(x) by {
            let i = a.index_of(x);
            assert(b.contains(a[i]));
        }
    }
    broadcast use vstd::seq_lib::seq_to_set_is_finite;

    vstd::set_lib::lemma_len_subset(a.to_set(), b.to_set());
}

} // verus!
