//! The text of a document, edited by character position.

use crate::range::DTRange;
use crate::text::{chars_of, text_of_chars};
use vstd::prelude::*;

verus! {

/// A text. Its positions count characters (Unicode scalar values).
#[derive(Debug)]
pub struct TextBuffer {
    chars: Vec<char>,
}

impl View for TextBuffer {
    type V = Seq<char>;

    closed spec fn view(&self) -> Seq<char> {
        self.chars@
    }
}

/// How many UTF-16 code units a character takes.
pub open spec fn wide(c: char) -> int {
    if c as int >= 0x1_0000 {
        2
    } else {
        1
    }
}

fn is_wide(c: char) -> (out: bool)
    ensures
        out == (c as int >= 0x1_0000),
        out == (wide(c) == 2),
{
    c as u32 >= 0x1_0000
}

/// How many UTF-16 code units a text takes.
pub open spec fn wide_len(text: Seq<char>) -> int
    decreases text.len(),
{
    if text.len() == 0 {
        0
    } else {
        wide_len(text.drop_last()) + wide(text.last())
    }
}

proof fn lemma_wide(text: Seq<char>, k: int)
    requires
        0 <= k <= text.len(),
    ensures
        k <= wide_len(text.take(k)) <= wide_len(text),
        k < text.len() ==> wide_len(text.take(k)) + wide(text[k]) == wide_len(text.take(k + 1)),
    decreases text.len() - k,
{
    lemma_wide_len(text.take(k));
    if k == text.len() {
        assert(text.take(k) =~= text);
    } else {
        assert(text.take(k + 1).drop_last() =~= text.take(k));
        lemma_wide(text, k + 1);
    }
}

proof fn lemma_wide_len(text: Seq<char>)
    ensures
        text.len() <= wide_len(text) <= 2 * text.len(),
    decreases text.len(),
{
    if text.len() > 0 {
        lemma_wide_len(text.drop_last());
    }
}

/// A text takes as many UTF-16 code units as its parts do together: a character of the basic
/// plane, up to `U+FFFF`, is one of them, and any other is a surrogate pair.
pub proof fn law_wide_len(a: Seq<char>, b: Seq<char>, c: char)
    ensures
        wide_len(Seq::empty()) == 0,
        c as int <= 0xFFFF ==> wide_len(seq![c]) == 1,
        c as int >= 0x1_0000 ==> wide_len(seq![c]) == 2,
        wide_len(a + b) == wide_len(a) + wide_len(b),
    decreases b.len(),
{
    assert(seq![c].drop_last() =~= Seq::<char>::empty());
    assert(wide_len(seq![c].drop_last()) == 0);
    assert(seq![c].last() == c);
    if b.len() == 0 {
        assert(a + b =~= a);
    } else {
        law_wide_len(a, b.drop_last(), c);
        assert((a + b).drop_last() =~= a + b.drop_last());
    }
}

/// A place in a text is found again from how many UTF-16 code units stand before it.
pub proof fn law_wide(text: Seq<char>, j: int, k: int)
    requires
        0 <= j <= text.len(),
        0 <= k <= text.len(),
        wide_len(text.take(j)) == wide_len(text.take(k)),
    ensures
        j == k,
{
    if j < k {
        lemma_wide(text, j);
        lemma_wide(text.take(k), j + 1);
        assert(text.take(k).take(j + 1) =~= text.take(j + 1));
    } else if k < j {
        lemma_wide(text, k);
        lemma_wide(text.take(j), k + 1);
        assert(text.take(j).take(k + 1) =~= text.take(k + 1));
    }
}

impl TextBuffer {
    pub fn new() -> (out: TextBuffer)
        ensures
            out@ == Seq::<char>::empty(),
    {
        TextBuffer { chars: Vec::new() }
    }

    pub fn len_chars(&self) -> (out: usize)
        ensures
            out == self@.len(),
    {
        self.chars.len()
    }

    fn insert_chars(&mut self, pos: usize, text: Vec<char>)
        requires
            pos <= old(self)@.len(),
        ensures
            final(self)@ == old(self)@.subrange(0, pos as int) + text@ + old(self)@.subrange(
                pos as int,
                old(self)@.len() as int,
            ),
    {
        let mut text = text;
        let mut rest = self.chars.split_off(pos);
        self.chars.append(&mut text);
        self.chars.append(&mut rest);
    }

    /// Puts a text at `pos`.
    pub fn insert(&mut self, pos: usize, text: &str)
        requires
            pos <= old(self)@.len(),
        ensures
            final(self)@ == old(self)@.subrange(0, pos as int) + text@ + old(self)@.subrange(
                pos as int,
                old(self)@.len() as int,
            ),
    {
        self.insert_chars(pos, chars_of(text));
    }

    /// Puts a text at `pos`, from its last character to its first.
    pub fn insert_reversed(&mut self, pos: usize, text: &str)
        requires
            pos <= old(self)@.len(),
        ensures
            final(self)@ == old(self)@.subrange(0, pos as int) + text@.reverse()
                + old(self)@.subrange(pos as int, old(self)@.len() as int),
    {
        let chars = chars_of(text);
        let mut back: Vec<char> = Vec::new();
        let mut i: usize = chars.len();
        while i > 0
            invariant
                i <= chars@.len(),
                back@.len() == chars@.len() - i,
                forall|k: int|
                    0 <= k < back@.len() ==> #[trigger] back@[k] == chars@[chars@.len() - 1 - k],
            decreases i,
        {
            i -= 1;
            back.push(chars[i]);
        }
        assert(back@ =~= text@.reverse());
        self.insert_chars(pos, back);
    }

    /// Takes a span away.
    pub fn remove(&mut self, span: DTRange)
        requires
            span.start <= span.end <= old(self)@.len(),
        ensures
            final(self)@ == old(self)@.subrange(0, span.start as int) + old(self)@.subrange(
                span.end as int,
                old(self)@.len() as int,
            ),
    {
        let mut rest = self.chars.split_off(span.end);
        self.chars.truncate(span.start);
        self.chars.append(&mut rest);
    }

    /// What a span reads.
    pub fn slice(&self, span: DTRange) -> (out: String)
        requires
            span.start <= span.end <= self@.len(),
        ensures
            out@ == self@.subrange(span.start as int, span.end as int),
    {
        text_of_chars(vstd::slice::slice_subrange(self.chars.as_slice(), span.start, span.end))
    }

    /// How many UTF-16 code units the characters before `pos_chars` take.
    pub fn chars_to_wchars(&self, pos_chars: usize) -> (out: usize)
        requires
            pos_chars <= self@.len(),
            wide_len(self@) <= usize::MAX,
        ensures
            out == wide_len(self@.take(pos_chars as int)),
    {
        let mut i: usize = 0;
        let mut out: usize = 0;
        assert(self@.take(0) =~= Seq::<char>::empty());
        while i < pos_chars
            invariant
                i <= pos_chars <= self@.len(),
                wide_len(self@) <= usize::MAX,
                out == wide_len(self@.take(i as int)),
            decreases pos_chars - i,
        {
            proof {
                lemma_wide(self@, i as int);
                lemma_wide(self@, i + 1);
            }
            if is_wide(self.chars[i]) {
                out += 2;
            } else {
                out += 1;
            }
            i += 1;
        }
        out
    }

    /// How many characters the first `pos_wchars` UTF-16 code units are.
    pub fn wchars_to_chars(&self, pos_wchars: usize) -> (out: usize)
        requires
            wide_len(self@) <= usize::MAX,
            exists|k: int|
                0 <= k <= self@.len() && #[trigger] wide_len(self@.take(k)) == pos_wchars,
        ensures
            out <= self@.len(),
            wide_len(self@.take(out as int)) == pos_wchars,
    {
        let ghost k = choose|k: int|
            0 <= k <= self@.len() && #[trigger] wide_len(self@.take(k)) == pos_wchars;
        let mut i: usize = 0;
        let mut at: usize = 0;
        assert(self@.take(0) =~= Seq::<char>::empty());
        while at < pos_wchars
            invariant
                i <= k <= self@.len(),
                wide_len(self@) <= usize::MAX,
                wide_len(self@.take(k)) == pos_wchars,
                at == wide_len(self@.take(i as int)),
                at <= pos_wchars,
            decreases k - i,
        {
            proof {
                lemma_wide(self@, i as int);
                lemma_wide(self@, i + 1);
                lemma_wide(self@.take(k), i + 1);
                assert(self@.take(k).take(i + 1) =~= self@.take(i + 1));
            }
            if is_wide(self.chars[i]) {
                at += 2;
            } else {
                at += 1;
            }
            i += 1;
        }
        i
    }

    /// Whether some characters are exactly the first `pos_wchars` UTF-16 code units.
    pub fn is_wchar_boundary(&self, pos_wchars: usize) -> (out: bool)
        requires
            wide_len(self@) <= usize::MAX,
        ensures
            out == exists|k: int|
                0 <= k <= self@.len() && #[trigger] wide_len(self@.take(k)) == pos_wchars,
    {
        let mut i: usize = 0;
        let mut at: usize = 0;
        assert(self@.take(0) =~= Seq::<char>::empty());
        while at < pos_wchars && i < self.chars.len()
            invariant
                i <= self@.len(),
                wide_len(self@) <= usize::MAX,
                at == wide_len(self@.take(i as int)),
                forall|k: int|
                    0 <= k < i ==> (#[trigger] wide_len(self@.take(k))) < pos_wchars,
            decreases self@.len() - i,
        {
            proof {
                lemma_wide(self@, i as int);
                lemma_wide(self@, i + 1);
            }
            if is_wide(self.chars[i]) {
                at += 2;
            } else {
                at += 1;
            }
            i += 1;
        }
        proof {
            assert forall|k: int| i < k <= self@.len() implies (#[trigger] wide_len(self@.take(k)))
                > at by {
                lemma_wide(self@.take(k), i as int);
                lemma_wide(self@.take(k), i + 1);
                assert(self@.take(k).take(i as int) =~= self@.take(i as int));
                assert(self@.take(k).take(i + 1) =~= self@.take(i + 1));
            }
            if at == pos_wchars {
                assert(wide_len(self@.take(i as int)) == pos_wchars);
            }
        }
        at == pos_wchars
    }

    pub fn to_string(&self) -> (out: String)
        ensures
            out@ == self@,
    {
        text_of_chars(self.chars.as_slice())
    }
}

impl Clone for TextBuffer {
    fn clone(&self) -> (out: TextBuffer)
        ensures
            out@ == self@,
    {
        TextBuffer { chars: self.chars.clone() }
    }
}

} // verus!
