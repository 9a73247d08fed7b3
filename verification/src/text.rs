//! Characters and bytes of a text.

use vstd::prelude::*;
use vstd::string::*;
use vstd::utf8::*;

verus! {

/// How many of the first `cp` characters of `s` there are.
pub open spec fn cp_clamp(s: Seq<char>, cp: int) -> int {
    if cp <= s.len() {
        cp
    } else {
        s.len() as int
    }
}

/// The offset in bytes of the character with index `cp`, or the length in
/// bytes where there is no such character.
pub fn cp_to_byte(s: &str, cp: usize) -> (out: usize)
    ensures
        out == encode_utf8(s@.take(cp_clamp(s@, cp as int))).len(),
        cp <= s@.len() ==> out == encode_utf8(s@.take(cp as int)).len(),
        cp >= s@.len() ==> out == encode_utf8(s@).len(),
        is_char_boundary(s.spec_bytes(), out as int),
{
    let n: usize = s.unicode_len();
    let k: usize = if cp <= n { cp } else { n };
    let head = s.substring_char(0, k);
    let out = head.as_bytes().len();
    proof {
        assert(s@.subrange(0, k as int) =~= s@.take(k as int));
        if cp >= s@.len() {
            assert(s@.take(k as int) =~= s@);
        }
        lemma_boundary(s@, k as int);
    }
    out
}

/// Where one text follows another, a character of the first has the offset that it has there;
/// the first of the second has as offset how many bytes the first text has. Past the end the
/// offset is how many bytes there are.
pub proof fn law_cp_to_byte(a: Seq<char>, b: Seq<char>, cp: int)
    requires
        0 <= cp,
    ensures
        (a + b).take(cp_clamp(a + b, a.len() as int)) == a,
        cp <= a.len() ==> (a + b).take(cp_clamp(a + b, cp)) == a.take(cp_clamp(a, cp)),
        cp >= (a + b).len() ==> (a + b).take(cp_clamp(a + b, cp)) == a + b,
{
}

/// How many characters `s` holds.
pub fn cp_len(s: &str) -> (out: usize)
    ensures
        out == s@.len(),
{
    s.unicode_len()
}

/// The first `cp` characters of `s`.
pub(crate) fn head_of(s: &str, cp: usize) -> (out: &str)
    requires
        cp <= s@.len(),
    ensures
        out@ == s@.take(cp as int),
{
    let (head, _) = s.split_at(cp_to_byte(s, cp));
    proof {
        lemma_split(s@, cp as int);
        encode_utf8_decode_utf8(head@);
        encode_utf8_decode_utf8(s@.take(cp as int));
    }
    head
}

/// What follows the first `cp` characters of `s`.
pub(crate) fn tail_of(s: &str, cp: usize) -> (out: &str)
    requires
        cp <= s@.len(),
    ensures
        out@ == s@.skip(cp as int),
{
    let (_, tail) = s.split_at(cp_to_byte(s, cp));
    proof {
        lemma_split(s@, cp as int);
        encode_utf8_decode_utf8(tail@);
        encode_utf8_decode_utf8(s@.skip(cp as int));
    }
    tail
}

/// Appends a character. `String::push` of the standard library: the string then
/// holds what it held before, followed by the character.
pub assume_specification[ String::push ](s: &mut String, c: char)
    ensures
        final(s)@ == old(s)@.push(c),
;

/// The characters of a text.
pub fn chars_of(s: &str) -> (out: Vec<char>)
    ensures
        out@ == s@,
{
    broadcast use axiom_spec_iter;

    let mut out: Vec<char> = Vec::new();
    for c in it: s.chars()
        invariant
            it.seq() == s@,
            out@ == s@.take(it.index()),
    {
        out.push(c);
        assert(out@ =~= s@.take(it.index() + 1));
    }
    assert(s@.take(s@.len() as int) =~= s@);
    out
}

/// The text that the characters make.
pub fn text_of_chars(chars: &[char]) -> (out: String)
    ensures
        out@ == chars@,
{
    let mut out = String::new();
    let mut i: usize = 0;
    assert(chars@.take(0) =~= Seq::<char>::empty());
    while i < chars.len()
        invariant
            i <= chars@.len(),
            out@ == chars@.take(i as int),
        decreases chars@.len() - i,
    {
        out.push(chars[i]);
        i += 1;
        assert(out@ =~= chars@.take(i as int));
    }
    assert(chars@.take(i as int) =~= chars@);
    out
}

proof fn lemma_encode_concat(a: Seq<char>, b: Seq<char>)
    ensures
        encode_utf8(a + b) == encode_utf8(a) + encode_utf8(b),
    decreases a.len(),
{
    if a.len() == 0 {
        assert(a + b =~= b);
        assert(encode_utf8(a) =~= Seq::<u8>::empty());
    } else {
        lemma_encode_concat(a.drop_first(), b);
        assert((a + b).drop_first() =~= a.drop_first() + b);
        assert(encode_utf8(a + b) =~= encode_utf8(a) + encode_utf8(b));
    }
}

proof fn lemma_split(s: Seq<char>, k: int)
    requires
        0 <= k <= s.len(),
    ensures
        encode_utf8(s) == encode_utf8(s.take(k)) + encode_utf8(s.skip(k)),
        encode_utf8(s).subrange(0, encode_utf8(s.take(k)).len() as int) == encode_utf8(s.take(k)),
        encode_utf8(s).subrange(
            encode_utf8(s.take(k)).len() as int,
            encode_utf8(s).len() as int,
        ) == encode_utf8(s.skip(k)),
{
    lemma_encode_concat(s.take(k), s.skip(k));
    assert(s.take(k) + s.skip(k) =~= s);
    assert(encode_utf8(s).subrange(0, encode_utf8(s.take(k)).len() as int) =~= encode_utf8(
        s.take(k),
    ));
    assert(encode_utf8(s).subrange(
        encode_utf8(s.take(k)).len() as int,
        encode_utf8(s).len() as int,
    ) =~= encode_utf8(s.skip(k)));
}

proof fn lemma_boundary(s: Seq<char>, k: int)
    requires
        0 <= k <= s.len(),
    ensures
        is_char_boundary(encode_utf8(s), encode_utf8(s.take(k)).len() as int),
    decreases k,
{
    let bytes = encode_utf8(s);
    encode_utf8_valid_utf8(s);
    if k == 0 {
        assert(s.take(k) =~= Seq::<char>::empty());
    } else {
        lemma_boundary(s.drop_first(), k - 1);
        lemma_split(s, k);
        encode_utf8_first_scalar(s);
        assert(s.take(k).drop_first() =~= s.drop_first().take(k - 1));
        assert(s.take(k)[0] == s[0]);
        assert(pop_first_scalar(bytes) =~= encode_utf8(s.drop_first()));
    }
}

} // verus!
