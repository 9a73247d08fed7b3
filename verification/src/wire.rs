//! Values as bytes: each value has exactly one encoding, and no encoding begins another.

use vstd::prelude::*;

verus! {

/// Whether `s` begins with `p`.
pub open spec fn begins(s: Seq<u8>, p: Seq<u8>) -> bool {
    p.len() <= s.len() && s.take(p.len() as int) == p
}

/// A value that can be written to and read from bytes.
pub trait Wire: Sized {
    /// What the value says.
    type Abs;

    spec fn told(&self) -> Self::Abs;

    /// Whether a value can be written.
    spec fn fine(a: Self::Abs) -> bool;

    /// The bytes of a value.
    spec fn bytes(a: Self::Abs) -> Seq<u8>;

    /// Bytes begin with those of one value at most.
    proof fn lemma_one(a: Self::Abs, b: Self::Abs, s: Seq<u8>)
        requires
            Self::fine(a),
            Self::fine(b),
            begins(s, Self::bytes(a)),
            begins(s, Self::bytes(b)),
        ensures
            a == b,
    ;

    /// Writes the value behind what is there.
    fn put(&self, out: &mut Vec<u8>)
        requires
            Self::fine(self.told()),
        ensures
            final(out)@ == old(out)@ + Self::bytes(self.told()),
    ;

    /// Reads the value that begins at `at`, and says where it ends; none if no value
    /// begins there.
    fn get(data: &[u8], at: usize) -> (out: Option<(Self, usize)>)
        requires
            at <= data@.len(),
        ensures
            match out {
                Some((v, end)) => {
                    &&& at <= end <= data@.len()
                    &&& Self::fine(v.told())
                    &&& data@.subrange(at as int, end as int) == Self::bytes(v.told())
                },
                None => forall|a: Self::Abs|
                    Self::fine(a) ==> !begins(data@.skip(at as int), #[trigger] Self::bytes(a)),
            },
    ;
}

/// Bytes that begin with two parts begin with the first, and go on with the second.
pub proof fn lemma_parts(s: Seq<u8>, p: Seq<u8>, q: Seq<u8>)
    ensures
        begins(s, p + q) == (begins(s, p) && begins(s.skip(p.len() as int), q)),
{
    let n = p.len() as int;
    let m = q.len() as int;
    if begins(s, p + q) {
        assert(s.take(n) =~= p) by {
            assert forall|i: int| 0 <= i < n implies s[i] == #[trigger] p[i] by {
                assert(s.take(n + m)[i] == (p + q)[i]);
            }
        }
        assert(s.skip(n).take(m) =~= q) by {
            assert forall|i: int| 0 <= i < m implies s.skip(n)[i] == #[trigger] q[i] by {
                assert(s.take(n + m)[n + i] == (p + q)[n + i]);
            }
        }
    }
    if begins(s, p) && begins(s.skip(n), q) {
        assert(s.take(n + m) =~= p + q) by {
            assert forall|i: int| 0 <= i < n + m implies s[i] == #[trigger] (p + q)[i] by {
                if i < n {
                    assert(s.take(n)[i] == p[i]);
                } else {
                    assert(s.skip(n).take(m)[i - n] == q[i - n]);
                }
            }
        }
    }
}

/// What stands between two places begins what stands from the first on.
pub proof fn lemma_read(data: Seq<u8>, at: int, end: int)
    requires
        0 <= at <= end <= data.len(),
    ensures
        begins(data.skip(at), data.subrange(at, end)),
        data.skip(at).skip(end - at) == data.skip(end),
{
    assert(data.skip(at).take(end - at) =~= data.subrange(at, end));
    assert(data.skip(at).skip(end - at) =~= data.skip(end));
}

// ---- numbers ----

/// The bytes of a number: groups of seven bits, the lowest first, each but the last
/// one with the high bit set.
pub open spec fn number_bytes(n: int) -> Seq<u8>
    decreases n,
{
    if n < 128 {
        seq![n as u8]
    } else {
        seq![(n % 128 + 128) as u8] + number_bytes(n / 128)
    }
}

proof fn lemma_one_number(a: int, b: int, s: Seq<u8>)
    requires
        0 <= a,
        0 <= b,
        begins(s, number_bytes(a)),
        begins(s, number_bytes(b)),
    ensures
        a == b,
    decreases a,
{
    let p = number_bytes(a);
    let q = number_bytes(b);
    assert(s.take(p.len() as int)[0] == p[0]);
    assert(s.take(q.len() as int)[0] == q[0]);
    if a >= 128 && b >= 128 {
        let x = seq![(a % 128 + 128) as u8];
        let y = seq![(b % 128 + 128) as u8];
        assert(x[0] == p[0] && y[0] == q[0]);
        lemma_parts(s, x, number_bytes(a / 128));
        lemma_parts(s, y, number_bytes(b / 128));
        lemma_one_number(a / 128, b / 128, s.skip(1));
    }
}

/// Reads a number of at most `max`.
#[verifier::rlimit(50)]
fn get_number(data: &[u8], at: usize, max: usize) -> (out: Option<(usize, usize)>)
    requires
        at <= data@.len(),
    ensures
        match out {
            Some((v, end)) => {
                &&& at <= end <= data@.len()
                &&& v <= max
                &&& data@.subrange(at as int, end as int) == number_bytes(v as int)
            },
            None => forall|n: int|
                0 <= n <= max ==> !begins(data@.skip(at as int), #[trigger] number_bytes(n)),
        },
    decreases max,
{
    let ghost rest = data@.skip(at as int);
    if at == data.len() {
        assert forall|n: int| 0 <= n <= max implies !begins(rest, #[trigger] number_bytes(n)) by {
            assert(number_bytes(n).len() > 0);
        }
        return None;
    }
    let b = data[at];
    assert(rest[0] == b);
    if b < 128 {
        let v = b as usize;
        proof {
            assert forall|n: int| 0 <= n && begins(rest, #[trigger] number_bytes(n)) implies n
                == v by {
                let p = number_bytes(n);
                assert(rest.take(p.len() as int)[0] == p[0]);
            }
            assert(data@.subrange(at as int, at + 1) =~= number_bytes(v as int));
        }
        if v <= max {
            return Some((v, at + 1));
        }
        return None;
    }
    let low = (b - 128) as usize;
    proof {
        assert forall|n: int| 0 <= n && begins(rest, #[trigger] number_bytes(n)) implies n >= 128
            && n % 128 == low && begins(data@.skip(at + 1), number_bytes(n / 128)) by {
            let p = number_bytes(n);
            assert(rest.take(p.len() as int)[0] == p[0]);
            let x = seq![(n % 128 + 128) as u8];
            assert(p == x + number_bytes(n / 128));
            assert(x[0] == p[0]);
            lemma_parts(rest, x, number_bytes(n / 128));
            assert(rest.skip(1) =~= data@.skip(at + 1));
        }
    }
    if max < 128 {
        return None;
    }
    match get_number(data, at + 1, max / 128) {
        None => {
            assert forall|n: int| 0 <= n <= max implies !begins(
                rest,
                #[trigger] number_bytes(n),
            ) by {
                if begins(rest, number_bytes(n)) {
                    assert(0 <= n / 128 <= max / 128);
                    assert(!begins(data@.skip(at + 1), number_bytes(n / 128)));
                }
            }
            None
        },
        Some((high, end)) => {
            proof {
                lemma_read(data@, at + 1, end as int);
                assert forall|n: int| 0 <= n && begins(rest, #[trigger] number_bytes(n)) implies n
                    == high * 128 + low && high >= 1 by {
                    lemma_one_number(n / 128, high as int, data@.skip(at + 1));
                }
            }
            if high == 0 || (high == max / 128 && low > max % 128) {
                return None;
            }
            assert(high * 128 + low <= max);
            let v = high * 128 + low;
            proof {
                assert((v as int) / 128 == high && (v as int) % 128 == low);
                let x = seq![b];
                assert(number_bytes(v as int) =~= x + number_bytes(high as int));
                assert(data@.subrange(at as int, end as int) =~= x + data@.subrange(
                    at + 1,
                    end as int,
                ));
            }
            Some((v, end))
        },
    }
}

impl Wire for usize {
    type Abs = int;

    open spec fn told(&self) -> int {
        *self as int
    }

    open spec fn fine(a: int) -> bool {
        0 <= a <= usize::MAX
    }

    open spec fn bytes(a: int) -> Seq<u8> {
        number_bytes(a)
    }

    proof fn lemma_one(a: int, b: int, s: Seq<u8>) {
        lemma_one_number(a, b, s);
    }

    fn put(&self, out: &mut Vec<u8>) {
        let ghost was = out@;
        let mut n: usize = *self;
        while n >= 128
            invariant
                out@ + number_bytes(n as int) == was + number_bytes(*self as int),
            decreases n,
        {
            let ghost before = out@;
            let b: u8 = (n % 128 + 128) as u8;
            out.push(b);
            proof {
                assert(before + number_bytes(n as int) =~= out@ + number_bytes(n as int / 128));
            }
            n = n / 128;
        }
        let ghost before = out@;
        out.push(n as u8);
        assert(out@ =~= before + number_bytes(n as int));
    }

    fn get(data: &[u8], at: usize) -> (out: Option<(usize, usize)>) {
        get_number(data, at, usize::MAX)
    }
}

// ---- characters ----

/// Whether a number is that of a character.
pub open spec fn is_char(n: int) -> bool {
    0 <= n <= 0xD7FF || 0xE000 <= n <= 0x10_FFFF
}

/// `char::from_u32`: the character with this number, and none where there is no such
/// character, which is above `0x10FFFF` and for the surrogates.
pub assume_specification[ char::from_u32 ](i: u32) -> (out: Option<char>)
    ensures
        out == if is_char(i as int) {
            Some(i as char)
        } else {
            None::<char>
        },
;

/// Every character has the number of a character.
pub proof fn lemma_char(c: char)
    ensures
        is_char(c as int),
{
}

fn number_of(c: char) -> (out: usize)
    ensures
        out == c as int,
        is_char(out as int),
{
    c as u32 as usize
}

impl Wire for char {
    type Abs = char;

    open spec fn told(&self) -> char {
        *self
    }

    open spec fn fine(a: char) -> bool {
        true
    }

    open spec fn bytes(a: char) -> Seq<u8> {
        number_bytes(a as int)
    }

    proof fn lemma_one(a: char, b: char, s: Seq<u8>) {
        lemma_char(a);
        lemma_char(b);
        lemma_one_number(a as int, b as int, s);
    }

    fn put(&self, out: &mut Vec<u8>) {
        let n = number_of(*self);
        n.put(out);
    }

    fn get(data: &[u8], at: usize) -> (out: Option<(char, usize)>) {
        match get_number(data, at, 0x10_FFFF) {
            None => {
                assert forall|a: char| !begins(
                    data@.skip(at as int),
                    #[trigger] <char as Wire>::bytes(a),
                ) by {
                    lemma_char(a);
                    assert(!begins(data@.skip(at as int), number_bytes(a as int)));
                }
                None
            },
            Some((n, end)) => {
                proof {
                    lemma_read(data@, at as int, end as int);
                }
                match char::from_u32(n as u32) {
                    Some(c) => Some((c, end)),
                    None => {
                        assert forall|a: char| !begins(
                            data@.skip(at as int),
                            #[trigger] <char as Wire>::bytes(a),
                        ) by {
                            lemma_char(a);
                            if begins(data@.skip(at as int), number_bytes(a as int)) {
                                lemma_one_number(a as int, n as int, data@.skip(at as int));
                            }
                        }
                        None
                    },
                }
            },
        }
    }
}

// ---- pairs ----

impl<A: Wire, B: Wire> Wire for (A, B) {
    type Abs = (A::Abs, B::Abs);

    open spec fn told(&self) -> (A::Abs, B::Abs) {
        (self.0.told(), self.1.told())
    }

    open spec fn fine(a: (A::Abs, B::Abs)) -> bool {
        A::fine(a.0) && B::fine(a.1)
    }

    open spec fn bytes(a: (A::Abs, B::Abs)) -> Seq<u8> {
        A::bytes(a.0) + B::bytes(a.1)
    }

    proof fn lemma_one(a: (A::Abs, B::Abs), b: (A::Abs, B::Abs), s: Seq<u8>) {
        lemma_parts(s, A::bytes(a.0), B::bytes(a.1));
        lemma_parts(s, A::bytes(b.0), B::bytes(b.1));
        A::lemma_one(a.0, b.0, s);
        B::lemma_one(a.1, b.1, s.skip(A::bytes(a.0).len() as int));
    }

    fn put(&self, out: &mut Vec<u8>) {
        let ghost was = out@;
        self.0.put(out);
        self.1.put(out);
        assert(out@ =~= was + (A::bytes(self.0.told()) + B::bytes(self.1.told())));
    }

    fn get(data: &[u8], at: usize) -> (out: Option<((A, B), usize)>) {
        let ghost rest = data@.skip(at as int);
        match A::get(data, at) {
            None => {
                assert forall|a: (A::Abs, B::Abs)| Self::fine(a) implies !begins(
                    rest,
                    #[trigger] Self::bytes(a),
                ) by {
                    lemma_parts(rest, A::bytes(a.0), B::bytes(a.1));
                    assert(!begins(rest, A::bytes(a.0)));
                }
                None
            },
            Some((x, mid)) => {
                proof {
                    lemma_read(data@, at as int, mid as int);
                }
                match B::get(data, mid) {
                    None => {
                        assert forall|a: (A::Abs, B::Abs)| Self::fine(a) implies !begins(
                            rest,
                            #[trigger] Self::bytes(a),
                        ) by {
                            lemma_parts(rest, A::bytes(a.0), B::bytes(a.1));
                            if begins(rest, A::bytes(a.0)) {
                                A::lemma_one(a.0, x.told(), rest);
                                assert(!begins(data@.skip(mid as int), B::bytes(a.1)));
                            }
                        }
                        None
                    },
                    Some((y, end)) => {
                        assert(data@.subrange(at as int, end as int) =~= data@.subrange(
                            at as int,
                            mid as int,
                        ) + data@.subrange(mid as int, end as int));
                        Some(((x, y), end))
                    },
                }
            },
        }
    }
}

// ---- lists ----

/// What the values of a list say.
pub open spec fn told_list<T: Wire>(list: Seq<T>) -> Seq<T::Abs> {
    list.map_values(|v: T| v.told())
}

/// Whether all values of a list can be written.
pub open spec fn fine_list<T: Wire>(list: Seq<T::Abs>) -> bool {
    forall|i: int| 0 <= i < list.len() ==> T::fine(#[trigger] list[i])
}

/// The bytes of the values of a list.
pub open spec fn list_bytes<T: Wire>(list: Seq<T::Abs>) -> Seq<u8>
    decreases list.len(),
{
    if list.len() == 0 {
        Seq::empty()
    } else {
        T::bytes(list[0]) + list_bytes::<T>(list.drop_first())
    }
}

proof fn lemma_list_push<T: Wire>(list: Seq<T::Abs>, x: T::Abs)
    ensures
        list_bytes::<T>(list.push(x)) == list_bytes::<T>(list) + T::bytes(x),
    decreases list.len(),
{
    let all = list.push(x);
    if list.len() == 0 {
        assert(all.drop_first() =~= Seq::<T::Abs>::empty());
        assert(all[0] == x);
        assert(list_bytes::<T>(all.drop_first()) =~= Seq::<u8>::empty());
        assert(list_bytes::<T>(all) =~= list_bytes::<T>(list) + T::bytes(x));
    } else {
        assert(all.drop_first() =~= list.drop_first().push(x));
        lemma_list_push::<T>(list.drop_first(), x);
        assert(list_bytes::<T>(all) =~= list_bytes::<T>(list) + T::bytes(x));
    }
}

proof fn lemma_list_split<T: Wire>(list: Seq<T::Abs>, k: int)
    requires
        0 <= k <= list.len(),
    ensures
        list_bytes::<T>(list) == list_bytes::<T>(list.take(k)) + list_bytes::<T>(list.skip(k)),
    decreases list.len() - k,
{
    if k == list.len() {
        assert(list.take(k) =~= list);
        assert(list_bytes::<T>(list) =~= list_bytes::<T>(list.take(k)) + list_bytes::<T>(
            list.skip(k),
        ));
    } else {
        lemma_list_split::<T>(list, k + 1);
        assert(list.take(k + 1) =~= list.take(k).push(list[k]));
        lemma_list_push::<T>(list.take(k), list[k]);
        assert(list.skip(k).drop_first() =~= list.skip(k + 1));
        assert(list.skip(k)[0] == list[k]);
        assert(list_bytes::<T>(list) =~= list_bytes::<T>(list.take(k)) + list_bytes::<T>(
            list.skip(k),
        ));
    }
}

/// Lists of which the bytes begin the same bytes agree as far as the shorter one goes.
proof fn lemma_list_agree<T: Wire>(a: Seq<T::Abs>, b: Seq<T::Abs>, s: Seq<u8>)
    requires
        fine_list::<T>(a),
        fine_list::<T>(b),
        a.len() <= b.len(),
        begins(s, list_bytes::<T>(a)),
        begins(s, list_bytes::<T>(b)),
    ensures
        b.take(a.len() as int) == a,
    decreases a.len(),
{
    if a.len() == 0 {
        assert(b.take(0) =~= a);
    } else {
        let x = T::bytes(a[0]);
        let y = T::bytes(b[0]);
        let a2 = a.drop_first();
        let b2 = b.drop_first();
        lemma_parts(s, x, list_bytes::<T>(a2));
        lemma_parts(s, y, list_bytes::<T>(b2));
        T::lemma_one(a[0], b[0], s);
        assert forall|i: int| 0 <= i < a2.len() implies T::fine(#[trigger] a2[i]) by {
            assert(a2[i] == a[i + 1]);
        }
        assert forall|i: int| 0 <= i < b2.len() implies T::fine(#[trigger] b2[i]) by {
            assert(b2[i] == b[i + 1]);
        }
        lemma_list_agree::<T>(a2, b2, s.skip(x.len() as int));
        assert forall|i: int| 0 <= i < a.len() implies b.take(a.len() as int)[i] == a[i] by {
            if i > 0 {
                assert(b2.take(a2.len() as int)[i - 1] == a2[i - 1]);
            }
        }
        assert(b.take(a.len() as int) =~= a);
    }
}

impl<T: Wire> Wire for Vec<T> {
    type Abs = Seq<T::Abs>;

    open spec fn told(&self) -> Seq<T::Abs> {
        told_list::<T>(self@)
    }

    open spec fn fine(a: Seq<T::Abs>) -> bool {
        a.len() <= usize::MAX && fine_list::<T>(a)
    }

    open spec fn bytes(a: Seq<T::Abs>) -> Seq<u8> {
        number_bytes(a.len() as int) + list_bytes::<T>(a)
    }

    proof fn lemma_one(a: Seq<T::Abs>, b: Seq<T::Abs>, s: Seq<u8>) {
        let x = number_bytes(a.len() as int);
        let y = number_bytes(b.len() as int);
        lemma_parts(s, x, list_bytes::<T>(a));
        lemma_parts(s, y, list_bytes::<T>(b));
        lemma_one_number(a.len() as int, b.len() as int, s);
        lemma_list_agree::<T>(a, b, s.skip(x.len() as int));
        assert(b.take(a.len() as int) =~= b);
    }

    fn put(&self, out: &mut Vec<u8>) {
        let ghost was = out@;
        let ghost all = told_list::<T>(self@);
        let n = self.len();
        n.put(out);
        let ghost start = out@;
        let mut i: usize = 0;
        assert(all.take(0) =~= Seq::<T::Abs>::empty());
        assert(out@ =~= start + list_bytes::<T>(all.take(0)));
        while i < n
            invariant
                n == self@.len(),
                i <= n,
                all == told_list::<T>(self@),
                fine_list::<T>(all),
                out@ == start + list_bytes::<T>(all.take(i as int)),
            decreases n - i,
        {
            let ghost before = out@;
            proof {
                assert(all[i as int] == self@[i as int].told());
                assert(all.take(i + 1) =~= all.take(i as int).push(all[i as int]));
                lemma_list_push::<T>(all.take(i as int), all[i as int]);
            }
            self[i].put(out);
            assert(out@ =~= start + list_bytes::<T>(all.take(i + 1)));
            i += 1;
        }
        assert(all.take(i as int) =~= all);
        assert(out@ =~= was + Self::bytes(self.told()));
    }

    #[verifier::rlimit(40)]
    fn get(data: &[u8], at: usize) -> (out: Option<(Vec<T>, usize)>) {
        let ghost rest = data@.skip(at as int);
        match get_number(data, at, usize::MAX) {
            None => {
                assert forall|a: Seq<T::Abs>| Self::fine(a) implies !begins(
                    rest,
                    #[trigger] Self::bytes(a),
                ) by {
                    lemma_parts(rest, number_bytes(a.len() as int), list_bytes::<T>(a));
                    assert(!begins(rest, number_bytes(a.len() as int)));
                }
                None
            },
            Some((n, mid)) => {
                let mut list: Vec<T> = Vec::new();
                let mut end: usize = mid;
                let mut i: usize = 0;
                let ghost body = data@.skip(mid as int);
                proof {
                    lemma_read(data@, at as int, mid as int);
                    assert(told_list::<T>(list@) =~= Seq::<T::Abs>::empty());
                    assert(data@.subrange(mid as int, mid as int) =~= Seq::<u8>::empty());
                }
                while i < n
                    invariant
                        at <= mid <= end <= data@.len(),
                        i <= n,
                        list@.len() == i,
                        rest == data@.skip(at as int),
                        body == data@.skip(mid as int),
                        data@.subrange(at as int, mid as int) == number_bytes(n as int),
                        begins(rest, number_bytes(n as int)),
                        rest.skip(mid - at) == body,
                        fine_list::<T>(told_list::<T>(list@)),
                        data@.subrange(mid as int, end as int) == list_bytes::<T>(
                            told_list::<T>(list@),
                        ),
                    decreases n - i,
                {
                    let ghost done = told_list::<T>(list@);
                    match T::get(data, end) {
                        None => {
                            proof {
                                lemma_read(data@, mid as int, end as int);
                                assert forall|a: Seq<T::Abs>| Self::fine(a) implies !begins(
                                    rest,
                                    #[trigger] Self::bytes(a),
                                ) by {
                                    if begins(rest, Self::bytes(a)) {
                                        let x = number_bytes(a.len() as int);
                                        lemma_parts(rest, x, list_bytes::<T>(a));
                                        lemma_one_number(a.len() as int, n as int, rest);
                                        assert(x.len() == mid - at);
                                        lemma_list_agree::<T>(done, a, body);
                                        lemma_list_split::<T>(a, i as int);
                                        lemma_parts(
                                            body,
                                            list_bytes::<T>(done),
                                            list_bytes::<T>(a.skip(i as int)),
                                        );
                                        let tail = a.skip(i as int);
                                        assert(tail[0] == a[i as int]);
                                        lemma_parts(
                                            data@.skip(end as int),
                                            T::bytes(a[i as int]),
                                            list_bytes::<T>(tail.drop_first()),
                                        );
                                        assert(T::fine(a[i as int]));
                                        assert(begins(
                                            data@.skip(end as int),
                                            T::bytes(a[i as int]),
                                        ));
                                    }
                                }
                            }
                            return None;
                        },
                        Some((x, next)) => {
                            let ghost value = x.told();
                            list.push(x);
                            proof {
                                assert(told_list::<T>(list@) =~= done.push(value));
                                lemma_list_push::<T>(done, value);
                                assert(data@.subrange(mid as int, next as int) =~= data@.subrange(
                                    mid as int,
                                    end as int,
                                ) + data@.subrange(end as int, next as int));
                            }
                            end = next;
                        },
                    }
                    i += 1;
                }
                proof {
                    assert(data@.subrange(at as int, end as int) =~= data@.subrange(
                        at as int,
                        mid as int,
                    ) + data@.subrange(mid as int, end as int));
                    assert(list.len() == n);
                }
                Some((list, end))
            },
        }
    }
}

} // verus!
