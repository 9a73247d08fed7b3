//! What written bytes look like.

use crate::chunks::ChunkRec;
use crate::decoding;
use crate::encoding;
use crate::encoding::{Data, DataAbs, EncodeOptions};
use crate::events::EventAbs;
use crate::wire;
use crate::wire::Wire;
use vstd::arithmetic::div_mod::*;
use vstd::arithmetic::power::*;
use vstd::prelude::*;

verus! {

/// A number is written as its digits to the base 128, the lowest first, as few as there are.
/// All but the last one have 128 added to them.
pub proof fn law_number_bytes(n: int)
    requires
        0 <= n,
    ensures
        ({
            let s = wire::number_bytes(n);
            &&& s.len() > 0
            &&& n < pow(128, s.len())
            &&& s.len() > 1 ==> n >= pow(128, (s.len() - 1) as nat)
            &&& forall|i: int|
                0 <= i < s.len() ==> (#[trigger] s[i]) as int == (n / pow(128, i as nat)) % 128
                    + if i + 1 < s.len() {
                    128int
                } else {
                    0
                }
        }),
    decreases n,
{
    let s = wire::number_bytes(n);
    lemma_pow0(128);
    lemma_pow1(128);
    if n >= 128 {
        let q = n / 128;
        let rest = wire::number_bytes(q);
        law_number_bytes(q);
        let m = rest.len();
        assert(s.len() == m + 1);
        reveal(pow);
        assert(pow(128, (m + 1) as nat) == 128 * pow(128, m));
        assert(n < 128 * pow(128, m)) by {
            lemma_fundamental_div_mod(n, 128);
            assert(q + 1 <= pow(128, m));
        }
        if m > 1 {
            assert(pow(128, m) == 128 * pow(128, (m - 1) as nat));
        }
        assert forall|i: int| 0 <= i < s.len() implies (#[trigger] s[i]) as int == (n / pow(
            128,
            i as nat,
        )) % 128 + if i + 1 < s.len() {
            128int
        } else {
            0
        } by {
            if i > 0 {
                assert(s[i] == rest[i - 1]);
                let p = pow(128, (i - 1) as nat);
                assert(pow(128, i as nat) == 128 * p);
                lemma_pow_positive(128, (i - 1) as nat);
                lemma_div_denominator(n, 128, p);
            }
        }
    }
}

/// Bytes of events begin with four that are always the same, and one that says what they are
/// meant for.
pub proof fn law_begins(bytes: Seq<u8>, d: DataAbs)
    requires
        decoding::is_file(bytes, d),
    ensures
        bytes.len() > 5,
        bytes.take(4) == seq![0xE7u8, 0xD8, 0xD1, 0x03],
        bytes[4] <= 1,
        d.0.0.1 == bytes[4],
{
    let magic = wire::number_bytes(d.0.0.0);
    let meant = wire::number_bytes(d.0.0.1);
    let names = <Vec<Vec<char>> as Wire>::bytes(d.0.1);
    let rest = <Vec<ChunkRec> as Wire>::bytes(d.1);
    reveal_with_fuel(wire::number_bytes, 5);
    assert(d.0.0.0 == 0x74_6C_67);
    assert(magic =~= seq![0xE7u8, 0xD8, 0xD1, 0x03]);
    assert(meant =~= seq![d.0.0.1 as u8]);
    assert(bytes == ((magic + meant) + names) + rest);
    law_number_bytes(d.0.1.len() as int);
    assert(names.len() > 0);
    assert(bytes.take(4) =~= magic);
    assert(bytes[4] == meant[0]);
}

/// What is written in full has a 0 behind the four bytes that are always the same, and a patch
/// has a 1.
pub proof fn law_meant(evs: Seq<EventAbs>)
    ensures
        encoding::encoded(evs, EncodeOptions::Full).take(5) == seq![0xE7u8, 0xD8, 0xD1, 0x03, 0],
        encoding::encoded(evs, EncodeOptions::Patch).take(5) == seq![0xE7u8, 0xD8, 0xD1, 0x03, 1],
{
    lemma_meant(evs, EncodeOptions::Full);
    lemma_meant(evs, EncodeOptions::Patch);
}

proof fn lemma_meant(evs: Seq<EventAbs>, opts: EncodeOptions)
    ensures
        encoding::encoded(evs, opts).take(5) == seq![
            0xE7u8,
            0xD8,
            0xD1,
            0x03,
            encoding::purpose(opts) as u8,
        ],
{
    let d = encoding::data_of(evs, opts);
    let magic = wire::number_bytes(d.0.0.0);
    let meant = wire::number_bytes(d.0.0.1);
    let names = <Vec<Vec<char>> as Wire>::bytes(d.0.1);
    let rest = <Vec<ChunkRec> as Wire>::bytes(d.1);
    reveal_with_fuel(wire::number_bytes, 5);
    assert(d.0.0.0 == 0x74_6C_67);
    assert(magic =~= seq![0xE7u8, 0xD8, 0xD1, 0x03]);
    assert(meant =~= seq![d.0.0.1 as u8]);
    let all = encoding::encoded(evs, opts);
    assert(all == ((magic + meant) + names) + rest);
    assert(all.take(5) =~= magic + meant);
}

/// Bytes of events with more bytes behind them are no bytes of events, nor are they with the
/// last ones missing.
pub proof fn law_all_bytes(bytes: Seq<u8>, more: Seq<u8>, a: DataAbs, b: DataAbs)
    requires
        decoding::is_file(bytes, a),
        more.len() > 0,
    ensures
        !decoding::is_file(bytes + more, b),
{
    let all = bytes + more;
    if decoding::is_file(all, b) {
        assert(all.take(bytes.len() as int) =~= bytes);
        assert(all.take(all.len() as int) =~= all);
        <Data as Wire>::lemma_one(a, b, all);
    }
}

} // verus!
