//! The compact string that names, contents and replacements are held in.

use std::cmp::Ordering;
use vstd::prelude::*;

verus! {

/// A string of the `smartstring` crate, which keeps short texts inline.
///
/// The crate's own type has a type parameter bound by a trait that Verus
/// cannot see, so it is held in a private field here, and what it holds has a
/// name, [`text_of`].
#[verifier::external_body]
#[derive(Debug, PartialEq, Eq)]
pub struct SmartString {
    inner: smartstring::alias::String,
}

/// The characters that a compact string holds.
pub uninterp spec fn text_of(s: SmartString) -> Seq<char>;

impl View for SmartString {
    type V = Seq<char>;

    open spec fn view(&self) -> Seq<char> {
        text_of(*self)
    }
}

/// Whether `a` comes strictly before `b` in dictionary order, characters
/// compared by code point.
pub open spec fn text_less(a: Seq<char>, b: Seq<char>) -> bool
    decreases a.len(),
{
    if b.len() == 0 {
        false
    } else if a.len() == 0 {
        true
    } else if a[0] != b[0] {
        a[0] < b[0]
    } else {
        text_less(a.drop_first(), b.drop_first())
    }
}

/// Of two different texts one comes before the other, and only one; none
/// comes before itself.
pub proof fn lemma_text_less(a: Seq<char>, b: Seq<char>)
    ensures
        a == b ==> !text_less(a, b),
        a != b ==> text_less(a, b) != text_less(b, a),
    decreases a.len(),
{
    if a.len() > 0 && b.len() > 0 && a[0] == b[0] {
        let x = a.drop_first();
        let y = b.drop_first();
        lemma_text_less(x, y);
        if x == y {
            assert(a =~= seq![a[0]] + x);
            assert(b =~= seq![b[0]] + y);
        }
    } else if a.len() == 0 && b.len() == 0 {
        assert(a =~= b);
    }
}

pub proof fn lemma_text_less_trans(a: Seq<char>, b: Seq<char>, c: Seq<char>)
    requires
        text_less(a, b),
        text_less(b, c),
    ensures
        text_less(a, c),
    decreases a.len(),
{
    if a.len() > 0 && a[0] == b[0] && b[0] == c[0] {
        lemma_text_less_trans(a.drop_first(), b.drop_first(), c.drop_first());
    }
}

/// Dictionary order: a text comes before another that it begins and that goes on, or where
/// its character has the smaller code point at the first place at which the two differ.
pub proof fn law_text_less(a: Seq<char>, b: Seq<char>)
    ensures
        text_less(a, b) <==> exists|k: int|
            #![trigger a.take(k)]
            {
                &&& 0 <= k <= a.len()
                &&& k < b.len()
                &&& a.take(k) == b.take(k)
                &&& k == a.len() || (a[k] as int) < b[k] as int
            },
    decreases a.len(),
{
    if text_less(a, b) {
        if a.len() == 0 || a[0] != b[0] {
            assert(a.take(0) =~= b.take(0));
        } else {
            let x = a.drop_first();
            let y = b.drop_first();
            law_text_less(x, y);
            let k = choose|k: int|
                #![trigger x.take(k)]
                {
                    &&& 0 <= k <= x.len()
                    &&& k < y.len()
                    &&& x.take(k) == y.take(k)
                    &&& k == x.len() || (x[k] as int) < y[k] as int
                };
            let p = a.take(k + 1);
            let q = b.take(k + 1);
            assert forall|i: int| 0 <= i < k + 1 implies p[i] == q[i] by {
                if i > 0 {
                    assert(x.take(k)[i - 1] == a[i]);
                    assert(y.take(k)[i - 1] == b[i]);
                }
            }
            assert(p =~= q);
            assert(a.take(k + 1) == b.take(k + 1));
        }
    } else {
        assert forall|k: int|
            #![trigger a.take(k)]
            0 <= k <= a.len() && k < b.len() && a.take(k) == b.take(k) && (k == a.len() || (
            a[k] as int) < b[k] as int) implies false by {
            if k > 0 {
                assert(a.take(k)[0] == b.take(k)[0]);
                let x = a.drop_first();
                let y = b.drop_first();
                law_text_less(x, y);
                assert(x.take(k - 1) =~= y.take(k - 1)) by {
                    assert forall|i: int| 0 <= i < k - 1 implies x[i] == y[i] by {
                        assert(a.take(k)[i + 1] == b.take(k)[i + 1]);
                    }
                }
                assert(k - 1 == x.len() || (x[k - 1] as int) < y[k - 1] as int);
            }
        }
    }
}

impl SmartString {
    /// An empty string. Calls `SmartString::new`, and claims that what it
    /// returns holds no character.
    #[verifier::external_body]
    pub(crate) fn new() -> (out: SmartString)
        ensures
            text_of(out) == Seq::<char>::empty(),
    {
        SmartString { inner: smartstring::alias::String::new() }
    }

    /// A copy of `s`. Calls `<SmartString as From<&str>>::from`, and claims that
    /// the string it returns holds exactly the characters of `s`.
    #[verifier::external_body]
    pub(crate) fn from_text(s: &str) -> (out: SmartString)
        ensures
            text_of(out) == s@,
    {
        SmartString { inner: smartstring::alias::String::from(s) }
    }

    /// The whole string as a slice. Calls `SmartString::as_str`, and claims that
    /// the slice holds exactly the characters of the string.
    #[verifier::external_body]
    pub(crate) fn as_str(&self) -> (out: &str)
        ensures
            out@ == text_of(*self),
    {
        self.inner.as_str()
    }

    /// The string as a standard string.
    pub fn to_string(&self) -> (out: String)
        ensures
            out@ == self@,
    {
        String::from_str(self.as_str())
    }

    /// Appends `s`. Calls `SmartString::push_str`, and claims that the string
    /// then holds what it held before, followed by the characters of `s`.
    #[verifier::external_body]
    pub(crate) fn push_str(&mut self, s: &str)
        ensures
            text_of(*final(self)) == text_of(*old(self)) + s@,
    {
        self.inner.push_str(s)
    }

    /// Whether the string holds exactly `s`. Calls the comparison with `str` of
    /// `SmartString` (`PartialEq<str>`), and claims that it compares the characters.
    #[verifier::external_body]
    pub(crate) fn is_text(&self, s: &str) -> (out: bool)
        ensures
            out == (text_of(*self) == s@),
    {
        self.inner == *s
    }

    /// How two strings are ordered. Calls `<SmartString as Ord>::cmp`, which
    /// compares the UTF-8 bytes of the two; byte order and code point order of
    /// UTF-8 texts agree, and the contract claims the latter.
    #[verifier::external_body]
    pub(crate) fn text_order(&self, other: &SmartString) -> (out: Ordering)
        ensures
            out == Ordering::Equal <==> text_of(*self) == text_of(*other),
            out == Ordering::Less <==> text_less(text_of(*self), text_of(*other)),
            out == Ordering::Greater <==> text_less(text_of(*other), text_of(*self)),
    {
        self.inner.cmp(&other.inner)
    }
}

impl Clone for SmartString {
    /// A copy. Calls `<SmartString as Clone>::clone`, and claims that the copy
    /// holds the same characters.
    #[verifier::external_body]
    fn clone(&self) -> (out: SmartString)
        ensures
            text_of(out) == text_of(*self),
    {
        SmartString { inner: self.inner.clone() }
    }
}

} // verus!
