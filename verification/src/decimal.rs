//! Numbers as decimal digits.

use vstd::arithmetic::power::*;
use vstd::prelude::*;

verus! {

/// Whether a character is one of the ten digits.
pub open spec fn is_digit(c: char) -> bool {
    '0' <= c <= '9'
}

pub open spec fn all_digits(s: Seq<char>) -> bool {
    forall|i: int| 0 <= i < s.len() ==> is_digit(#[trigger] s[i])
}

/// The digit for a number below ten.
pub open spec fn digit(n: int) -> char {
    ('0' as int + n) as char
}

/// The number that digits stand for.
pub open spec fn value(s: Seq<char>) -> int
    decreases s.len(),
{
    if s.len() == 0 {
        0
    } else {
        value(s.drop_last()) * 10 + (s.last() as int - '0' as int)
    }
}

/// The digits of a number, without leading zeros.
pub open spec fn decimal(n: int) -> Seq<char>
    decreases n,
{
    if n < 10 {
        Seq::empty().push(digit(n))
    } else {
        decimal(n / 10).push(digit(n % 10))
    }
}

proof fn lemma_digit(n: int)
    requires
        0 <= n < 10,
    ensures
        is_digit(digit(n)),
        digit(n) as int - '0' as int == n,
{
}

/// The digits of a number stand for it, and a zero comes first in the number zero alone.
pub proof fn law_decimal(n: int)
    requires
        0 <= n,
    ensures
        all_digits(decimal(n)),
        forall|i: int| 0 <= i < decimal(n).len() ==> '0' <= #[trigger] decimal(n)[i] <= '9',
        decimal(n).len() > 0,
        value(decimal(n)) == n,
        decimal(n).len() > 1 ==> decimal(n)[0] != '0',
        n > 0 ==> decimal(n)[0] != '0',
    decreases n,
{
    let s = decimal(n);
    if n < 10 {
        lemma_digit(n);
        assert(s.drop_last() =~= Seq::<char>::empty());
        assert(value(s.drop_last()) == 0);
    } else {
        law_decimal(n / 10);
        assert(s[0] == decimal(n / 10)[0]);
        lemma_digit(n % 10);
        let t = decimal(n / 10);
        assert(s.drop_last() =~= t);
        assert forall|i: int| 0 <= i < s.len() implies is_digit(#[trigger] s[i]) by {
            if i < t.len() {
                assert(s[i] == t[i]);
            }
        }
    }
}

/// What digits stand for: none for nothing, one for how far it is from `0`, and digits
/// behind others for what both stand for, the others moved on by a place for each digit.
pub proof fn law_value(a: Seq<char>, b: Seq<char>, c: char)
    ensures
        value(Seq::empty()) == 0,
        value(seq![c]) == c as int - '0' as int,
        value(a + b) == value(a) * pow(10, b.len()) + value(b),
    decreases b.len(),
{
    assert(seq![c].drop_last() =~= Seq::<char>::empty());
    assert(value(seq![c].drop_last()) == 0);
    lemma_pow0(10);
    if b.len() == 0 {
        assert(a + b =~= a);
        assert(value(a) * 1 == value(a)) by (nonlinear_arith);
    } else {
        let t = b.drop_last();
        law_value(a, t, c);
        assert((a + b).drop_last() =~= a + t);
        assert((a + b).last() == b.last());
        lemma_pow_adds(10, t.len(), 1);
        lemma_pow1(10);
        let p = pow(10, t.len());
        assert(pow(10, b.len()) == p * 10);
        let x = value(a);
        assert((x * p) * 10 == x * (p * 10)) by (nonlinear_arith);
    }
}

/// Digits that do not begin with a zero stand for a number above zero.
proof fn lemma_value_above(s: Seq<char>)
    requires
        all_digits(s),
        s.len() > 0,
        s[0] != '0',
    ensures
        value(s) > 0,
{
    assert(is_digit(s[0]));
    lemma_value_prefix(s, 1);
    assert(s.take(1).drop_last() =~= Seq::<char>::empty());
    assert(value(s.take(1).drop_last()) == 0);
    assert(s.take(1).last() == s[0]);
}

/// There is one way to write a number: digits that stand for it and have no zero before them
/// are its digits.
pub proof fn law_one_decimal(s: Seq<char>)
    requires
        s.len() > 0,
        forall|i: int| 0 <= i < s.len() ==> '0' <= #[trigger] s[i] <= '9',
        s.len() > 1 ==> s[0] != '0',
    ensures
        decimal(value(s)) == s,
    decreases s.len(),
{
    let t = s.drop_last();
    assert(is_digit(s[s.len() - 1]));
    let d = s.last() as int - '0' as int;
    assert(digit(d) == s.last());
    if s.len() == 1 {
        assert(t =~= Seq::<char>::empty());
        assert(value(t) == 0);
        assert(decimal(d) =~= s);
    } else {
        assert forall|i: int| 0 <= i < t.len() implies '0' <= #[trigger] t[i] <= '9' && is_digit(
            t[i],
        ) by {
            assert(t[i] == s[i]);
        }
        assert(t[0] == s[0]);
        law_one_decimal(t);
        lemma_value_above(t);
        assert(value(s) / 10 == value(t));
        assert(value(s) % 10 == d);
        assert(decimal(value(s)) =~= t.push(s.last()));
        assert(t.push(s.last()) =~= s);
    }
}

/// A digit more makes a number no smaller.
proof fn lemma_value_prefix(s: Seq<char>, k: int)
    requires
        all_digits(s),
        0 <= k <= s.len(),
    ensures
        0 <= value(s.take(k)) <= value(s),
    decreases s.len(),
{
    if s.len() == 0 {
        assert(s.take(k) =~= s);
    } else {
        let t = s.drop_last();
        assert forall|i: int| 0 <= i < t.len() implies is_digit(#[trigger] t[i]) by {
            assert(t[i] == s[i]);
        }
        assert(is_digit(s[s.len() - 1]));
        if k == s.len() {
            assert(s.take(k) =~= s);
            lemma_value_prefix(t, t.len() as int);
            assert(t.take(t.len() as int) =~= t);
        } else {
            lemma_value_prefix(t, k);
            assert(t.take(k) =~= s.take(k));
        }
    }
}

fn digit_of(n: usize) -> (out: char)
    requires
        n < 10,
    ensures
        out == digit(n as int),
{
    match n {
        0 => '0',
        1 => '1',
        2 => '2',
        3 => '3',
        4 => '4',
        5 => '5',
        6 => '6',
        7 => '7',
        8 => '8',
        _ => '9',
    }
}

/// Writes the digits of a number behind a text.
pub fn push_decimal(out: &mut String, n: usize)
    ensures
        final(out)@ == old(out)@ + decimal(n as int),
    decreases n,
{
    let ghost was = out@;
    if n >= 10 {
        push_decimal(out, n / 10);
    }
    out.push(digit_of(n % 10));
    assert(out@ =~= was + decimal(n as int));
}

/// What a text stands for that is to be a number: digits, which may have a plus sign
/// before them.
pub open spec fn number_in(s: Seq<char>) -> Option<int> {
    let t = if s.len() > 0 && s[0] == '+' {
        s.drop_first()
    } else {
        s
    };
    if t.len() > 0 && all_digits(t) && value(t) <= usize::MAX {
        Some(value(t))
    } else {
        None
    }
}

/// Digits state the number that they stand for, also behind a plus sign, unless it is too
/// large; nothing else states a number.
pub proof fn law_number_in(t: Seq<char>, s: Seq<char>)
    requires
        t.len() > 0,
        forall|i: int| 0 <= i < t.len() ==> '0' <= #[trigger] t[i] <= '9',
    ensures
        number_in(t) == if value(t) <= usize::MAX {
            Some(value(t))
        } else {
            None
        },
        number_in(seq!['+'] + t) == number_in(t),
        number_in(s) is Some ==> {
            let u = if s[0] == '+' {
                s.drop_first()
            } else {
                s
            };
            &&& s.len() > 0
            &&& u.len() > 0
            &&& forall|i: int| 0 <= i < u.len() ==> '0' <= #[trigger] u[i] <= '9'
        },
{
    assert(all_digits(t));
    assert(is_digit(t[0]));
    assert((seq!['+'] + t).drop_first() =~= t);
    if number_in(s) is Some {
        let u = if s[0] == '+' {
            s.drop_first()
        } else {
            s
        };
        assert forall|i: int| 0 <= i < u.len() implies '0' <= #[trigger] u[i] <= '9' by {
            assert(is_digit(u[i]));
        }
    }
}

fn digit_value(c: char) -> (out: Option<usize>)
    ensures
        match out {
            Some(d) => is_digit(c) && d == c as int - '0' as int && d < 10,
            None => !is_digit(c),
        },
{
    let n = c as u32;
    if 48 <= n && n <= 57 {
        Some((n - 48) as usize)
    } else {
        None
    }
}

/// The number that the characters from `from` to `to` stand for; none if there are none,
/// if one of them is no digit, or if the number is too large.
#[verifier::rlimit(40)]
pub fn digits_value(chars: &[char], from: usize, to: usize) -> (out: Option<usize>)
    requires
        from <= to <= chars@.len(),
    ensures
        ({
            let t = chars@.subrange(from as int, to as int);
            match out {
                Some(n) => t.len() > 0 && all_digits(t) && value(t) == n,
                None => !(t.len() > 0 && all_digits(t) && value(t) <= usize::MAX),
            }
        }),
{
    let ghost t = chars@.subrange(from as int, to as int);
    if from == to {
        return None;
    }
    let mut i: usize = from;
    let mut n: usize = 0;
    assert(t.take(0) =~= Seq::<char>::empty());
    while i < to
        invariant
            from <= i <= to <= chars@.len(),
            t == chars@.subrange(from as int, to as int),
            n == value(t.take(i - from)),
            forall|j: int| 0 <= j < i - from ==> is_digit(#[trigger] t[j]),
        decreases to - i,
    {
        let c = chars[i];
        let ghost k = i - from;
        proof {
            assert(t[k] == c);
            assert(t.take(k + 1).drop_last() =~= t.take(k));
            assert(t.take(k + 1).last() == c);
        }
        match digit_value(c) {
            None => {
                assert(!is_digit(t[k]));
                return None;
            },
            Some(d) => {
                assert(value(t.take(k + 1)) == n * 10 + d);
                if n > usize::MAX / 10 || n == usize::MAX / 10 && d > usize::MAX % 10 {
                    proof {
                        if all_digits(t) {
                            lemma_value_prefix(t, k + 1);
                        }
                    }
                    return None;
                }
                n = n * 10 + d;
            },
        }
        i += 1;
    }
    assert(t.take(i - from) =~= t);
    Some(n)
}

/// The number that the characters from `from` on stand for.
pub fn parse_number(chars: &[char], from: usize) -> (out: Option<usize>)
    requires
        from <= chars@.len(),
    ensures
        match out {
            Some(n) => number_in(chars@.skip(from as int)) == Some(n as int),
            None => number_in(chars@.skip(from as int)) is None,
        },
{
    let n = chars.len();
    let ghost s = chars@.skip(from as int);
    if from < n && chars[from] == '+' {
        assert(s[0] == '+');
        assert(s.drop_first() =~= chars@.subrange(from + 1, n as int));
        digits_value(chars, from + 1, n)
    } else {
        assert(s =~= chars@.subrange(from as int, n as int));
        digits_value(chars, from, n)
    }
}

} // verus!
