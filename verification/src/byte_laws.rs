//! What the framings are in bytes: how a length is spelled at every
//! width, what escaping puts in and takes out, and where the NAL units
//! of a stream lie.

use vstd::prelude::*;
use crate::annexb;
use crate::annexb_laws;
use crate::bytes;
use crate::ep;
use crate::Error;

verus! {

/// A number of one to four bytes is spelled most significant byte first:
/// byte `i` of `n` is the number divided by `256` to the power
/// `n - 1 - i`, less what is above a byte.
pub proof fn lengths_are_spelled_big_endian(value: nat)
    ensures
        bytes::be_bytes(value, 1) == seq![(value % 0x100) as u8],
        bytes::be_bytes(value, 2) == seq![(value / 0x100 % 0x100) as u8, (value % 0x100) as u8],
        bytes::be_bytes(value, 3) == seq![
            (value / 0x1_0000 % 0x100) as u8,
            (value / 0x100 % 0x100) as u8,
            (value % 0x100) as u8,
        ],
        bytes::be_bytes(value, 4) == seq![
            (value / 0x100_0000 % 0x100) as u8,
            (value / 0x1_0000 % 0x100) as u8,
            (value / 0x100 % 0x100) as u8,
            (value % 0x100) as u8,
        ],
{
    reveal_with_fuel(bytes::be_bytes, 5);
    assert(bytes::be_bytes(value, 1) =~= seq![(value % 0x100) as u8]);
    assert(bytes::be_bytes(value, 2) =~= seq![
        (value / 0x100 % 0x100) as u8,
        (value % 0x100) as u8,
    ]);
    assert(value / 0x100 / 0x100 == value / 0x1_0000);
    assert(value / 0x1_0000 / 0x100 == value / 0x100_0000);
    assert(bytes::be_bytes(value, 3) =~= seq![
        (value / 0x1_0000 % 0x100) as u8,
        (value / 0x100 % 0x100) as u8,
        (value % 0x100) as u8,
    ]);
    assert(bytes::be_bytes(value, 4) =~= seq![
        (value / 0x100_0000 % 0x100) as u8,
        (value / 0x1_0000 % 0x100) as u8,
        (value / 0x100 % 0x100) as u8,
        (value % 0x100) as u8,
    ]);
}

/// The number that one to four bytes spell is the sum of the bytes, each
/// times `256` to the power of how many bytes follow it.
pub proof fn lengths_are_read_big_endian(s: Seq<u8>)
    ensures
        s.len() == 1 ==> bytes::be_value(s) == s[0],
        s.len() == 2 ==> bytes::be_value(s) == s[0] * 0x100 + s[1],
        s.len() == 3 ==> bytes::be_value(s) == s[0] * 0x1_0000 + s[1] * 0x100 + s[2],
        s.len() == 4 ==> bytes::be_value(s) == s[0] * 0x100_0000 + s[1] * 0x1_0000 + s[2] * 0x100
            + s[3],
        bytes::capacity(1) == 0x100,
        bytes::capacity(2) == 0x1_0000,
        bytes::capacity(3) == 0x100_0000,
        bytes::capacity(4) == 0x1_0000_0000,
{
    reveal_with_fuel(bytes::be_value, 5);
    reveal_with_fuel(bytes::capacity, 5);
}

/// One NAL unit behind a length of one to four bytes, in bytes.
pub proof fn one_nal_behind_its_length(nal: Seq<u8>)
    ensures
        nal.len() < 0x100 ==> {
            let sample = seq![nal.len() as u8] + nal;
            &&& annexb::prefixed(seq![nal], 1) == sample
            &&& annexb::sample_nals(sample, 1) == Ok::<Seq<Seq<u8>>, Error>(seq![nal])
        },
        nal.len() < 0x1_0000 ==> {
            let sample = seq![(nal.len() / 0x100) as u8, (nal.len() % 0x100) as u8] + nal;
            &&& annexb::prefixed(seq![nal], 2) == sample
            &&& annexb::sample_nals(sample, 2) == Ok::<Seq<Seq<u8>>, Error>(seq![nal])
        },
        nal.len() < 0x100_0000 ==> {
            let sample = seq![
                (nal.len() / 0x1_0000) as u8,
                (nal.len() / 0x100 % 0x100) as u8,
                (nal.len() % 0x100) as u8,
            ] + nal;
            &&& annexb::prefixed(seq![nal], 3) == sample
            &&& annexb::sample_nals(sample, 3) == Ok::<Seq<Seq<u8>>, Error>(seq![nal])
        },
        nal.len() < 0x1_0000_0000 ==> {
            let sample = seq![
                (nal.len() / 0x100_0000) as u8,
                (nal.len() / 0x1_0000 % 0x100) as u8,
                (nal.len() / 0x100 % 0x100) as u8,
                (nal.len() % 0x100) as u8,
            ] + nal;
            &&& annexb::prefixed(seq![nal], 4) == sample
            &&& annexb::sample_nals(sample, 4) == Ok::<Seq<Seq<u8>>, Error>(seq![nal])
        },
{
    let n = nal.len();
    lengths_are_spelled_big_endian(n);
    lengths_are_read_big_endian(Seq::empty());
    lemma_prefixed_one(nal, 1);
    lemma_prefixed_one(nal, 2);
    lemma_prefixed_one(nal, 3);
    lemma_prefixed_one(nal, 4);
    if n < 0x100 {
        annexb_laws::sample_undoes_length_prefixes(seq![nal], 1);
        assert(annexb::prefixed(seq![nal], 1) =~= seq![n as u8] + nal);
    }
    if n < 0x1_0000 {
        annexb_laws::sample_undoes_length_prefixes(seq![nal], 2);
        assert(annexb::prefixed(seq![nal], 2) =~= seq![(n / 0x100) as u8, (n % 0x100) as u8]
            + nal);
    }
    if n < 0x100_0000 {
        annexb_laws::sample_undoes_length_prefixes(seq![nal], 3);
        assert(annexb::prefixed(seq![nal], 3) =~= seq![
            (n / 0x1_0000) as u8,
            (n / 0x100 % 0x100) as u8,
            (n % 0x100) as u8,
        ] + nal);
    }
    if n < 0x1_0000_0000 {
        annexb_laws::sample_undoes_length_prefixes(seq![nal], 4);
        assert(annexb::prefixed(seq![nal], 4) =~= seq![
            (n / 0x100_0000) as u8,
            (n / 0x1_0000 % 0x100) as u8,
            (n / 0x100 % 0x100) as u8,
            (n % 0x100) as u8,
        ] + nal);
    }
}

proof fn lemma_prefixed_one(nal: Seq<u8>, n: nat)
    ensures
        annexb::prefixed(seq![nal], n) == bytes::be_bytes(nal.len(), n) + nal,
{
    reveal_with_fuel(annexb::prefixed, 2);
    assert(seq![nal].drop_first() =~= Seq::empty());
    assert(annexb::prefixed(seq![nal], n) =~= bytes::be_bytes(nal.len(), n) + nal);
}

/// A sample or a stream takes a length of one to four bytes, and every
/// other width is refused, whatever the bytes are.
pub proof fn only_one_to_four_bytes_are_a_length(s: Seq<u8>, n: int)
    ensures
        ({
            let refused = Error::Malformed { what: "a NAL length prefix is 1 to 4 bytes", at: 0 };
            &&& n < 1 || n > 4 ==> annexb::sample_nals(s, n) == Err::<Seq<Seq<u8>>, Error>(refused)
                && annexb::length_prefixed(s, n) == Err::<Seq<u8>, Error>(refused)
            &&& annexb::sample_nals(Seq::empty(), n) is Ok <==> 1 <= n <= 4
            &&& annexb::length_prefixed(Seq::empty(), n) is Ok <==> 1 <= n <= 4
        }),
{
    let none = Seq::<u8>::empty();
    assert(annexb::codes(none) =~= Seq::empty());
    assert(annexb::scan(none) =~= Seq::empty());
}

/// Samples joined are read as one: a whole sample and then another.
pub proof fn samples_are_read_one_behind_the_other(nals: Seq<Seq<u8>>, rest: Seq<u8>, n: int)
    requires
        1 <= n <= 4,
        forall|i: int|
            0 <= i < nals.len() ==> (#[trigger] nals[i]).len() < bytes::capacity(n as nat),
    ensures
        ({
            let at = annexb::prefixed(nals, n as nat).len() as int;
            let all = annexb::prefixed(nals, n as nat) + rest;
            annexb::sample_nals(all, n) == (match annexb::sample_from(all, n as nat, at) {
                Ok(more) => Ok::<Seq<Seq<u8>>, Error>(nals + more),
                Err(e) => Err(e),
            })
        }),
{
    let all = annexb::prefixed(nals, n as nat) + rest;
    assert(Seq::<u8>::empty() + annexb::prefixed(nals, n as nat) + rest =~= all);
    lemma_sample_unroll(Seq::empty(), nals, rest, n as nat);
}

proof fn lemma_sample_unroll(before: Seq<u8>, nals: Seq<Seq<u8>>, rest: Seq<u8>, n: nat)
    requires
        n > 0,
        forall|i: int| 0 <= i < nals.len() ==> (#[trigger] nals[i]).len() < bytes::capacity(n),
    ensures
        ({
            let all = before + annexb::prefixed(nals, n) + rest;
            let at = (before + annexb::prefixed(nals, n)).len() as int;
            annexb::sample_from(all, n, before.len() as int) == (match annexb::sample_from(
                all,
                n,
                at,
            ) {
                Ok(more) => Ok::<Seq<Seq<u8>>, Error>(nals + more),
                Err(e) => Err(e),
            })
        }),
    decreases nals.len(),
{
    let all = before + annexb::prefixed(nals, n) + rest;
    let at = before.len() as int;
    if nals.len() == 0 {
        assert(nals =~= Seq::empty());
        if let Ok(more) = annexb::sample_from(all, n, at) {
            assert(nals + more =~= more);
        }
    } else {
        let nal = nals[0];
        let tail = nals.drop_first();
        let head = bytes::be_bytes(nal.len(), n);
        bytes::lemma_be_round_trip(nal.len(), n);
        lemma_sample_unroll(before + head + nal, tail, rest, n);
        assert(before + head + nal + annexb::prefixed(tail, n) + rest =~= all);
        assert(all.subrange(at, at + n) =~= head);
        assert(all.subrange(at + n, at + n + nal.len()) =~= nal);
        let stop = (before + annexb::prefixed(nals, n)).len() as int;
        if let Ok(more) = annexb::sample_from(all, n, stop) {
            assert(seq![nal] + (tail + more) =~= nals + more);
        }
    }
}

/// A sample that ends inside a length, or inside the NAL unit behind it,
/// is refused with the offset where that length, or that NAL unit,
/// begins.
pub proof fn a_sample_that_ends_early_says_where(
    nals: Seq<Seq<u8>>,
    n: int,
    part: Seq<u8>,
    length: nat,
)
    requires
        1 <= n <= 4,
        forall|i: int|
            0 <= i < nals.len() ==> (#[trigger] nals[i]).len() < bytes::capacity(n as nat),
        length < bytes::capacity(n as nat),
    ensures
        ({
            let before = annexb::prefixed(nals, n as nat);
            &&& 0 < part.len() < n ==> annexb::sample_nals(before + part, n) == Err::<
                Seq<Seq<u8>>,
                Error,
            >(
                Error::Malformed {
                    what: "the sample ends inside a NAL length",
                    at: before.len() as usize,
                },
            )
            &&& part.len() < length ==> annexb::sample_nals(
                before + (bytes::be_bytes(length, n as nat) + part),
                n,
            ) == Err::<Seq<Seq<u8>>, Error>(
                Error::Malformed {
                    what: "a NAL overruns the sample",
                    at: (before.len() + n) as usize,
                },
            )
        }),
{
    let w = n as nat;
    let before = annexb::prefixed(nals, w);
    let at = before.len() as int;
    if 0 < part.len() < n {
        samples_are_read_one_behind_the_other(nals, part, n);
    }
    if part.len() < length {
        let head = bytes::be_bytes(length, w);
        let all = before + (head + part);
        samples_are_read_one_behind_the_other(nals, head + part, n);
        bytes::lemma_be_round_trip(length, w);
        assert(all.subrange(at, at + n) =~= head);
    }
}

/// A start code as it is written is four bytes, three zeroes and a one,
/// and each NAL unit has its own.
pub proof fn start_codes_in_bytes(nal: Seq<u8>)
    ensures
        annexb::start_coded(seq![nal]) == seq![0u8, 0, 0, 1] + nal,
{
    reveal_with_fuel(annexb::start_coded, 2);
    assert(seq![nal].drop_first() =~= Seq::empty());
    assert(annexb::start_coded(seq![nal]) =~= seq![0u8, 0, 0, 1] + nal);
}

/// Where the NAL units of a stream lie, in bytes. Each begins behind
/// `00 00 01`, and behind every `00 00 01` of the stream one begins. It
/// holds no `00 00 01` and ends in no zero; between it and the next start
/// code, or the end, there are only zeroes. Its start code begins at one
/// zero more where there is one, and the padding where the zeroes do.
pub proof fn nal_units_in_bytes(s: Seq<u8>)
    ensures
        forall|p: int|
            0 <= p && p + 2 < s.len() && s[p] == 0 && #[trigger] s[p + 1] == 0 && s[p + 2] == 1
                ==> exists|k: int|
                0 <= k < annexb::scan(s).len() && (#[trigger] annexb::scan(s)[k]).start == p + 3,
        forall|k: int|
            #![trigger annexb::scan(s)[k]]
            0 <= k < annexb::scan(s).len() ==> {
                let nal = annexb::scan(s)[k];
                &&& 3 <= nal.start <= nal.end <= s.len()
                &&& s[nal.start - 3] == 0 && s[nal.start - 2] == 0 && s[nal.start - 1] == 1
                &&& nal.bytes == s.subrange(nal.start, nal.end)
                &&& forall|p: int|
                    nal.start <= p && p + 2 < nal.end && s[p] == 0 && #[trigger] s[p + 1] == 0
                        ==> s[p + 2] != 1
                &&& nal.end > nal.start ==> s[nal.end - 1] != 0
                &&& nal.code == if nal.start >= 4 && s[nal.start - 4] == 0 {
                    nal.start - 4
                } else {
                    nal.start - 3
                }
                &&& 0 <= nal.pad <= nal.code
                &&& forall|p: int| nal.pad <= p < nal.start - 1 ==> s[p] == 0
                &&& nal.pad > 0 ==> s[nal.pad - 1] != 0
            },
        forall|j: int, k: int|
            #![trigger annexb::scan(s)[j], annexb::scan(s)[k]]
            0 <= j && k == j + 1 && k < annexb::scan(s).len() ==> annexb::scan(s)[j].end
                == annexb::scan(s)[k].pad,
        annexb::scan(s).len() > 0 ==> forall|p: int|
            annexb::scan(s).last().end <= p < s.len() ==> s[p] == 0,
        annexb::split(s).len() == annexb::scan(s).len(),
        forall|k: int|
            0 <= k < annexb::split(s).len() ==> #[trigger] annexb::split(s)[k] == annexb::scan(
                s,
            )[k].bytes,
{
    let found = annexb::scan(s);
    annexb::lemma_codes(s);
    assert forall|p: int|
        0 <= p && p + 2 < s.len() && s[p] == 0 && #[trigger] s[p + 1] == 0 && s[p + 2]
            == 1 implies exists|k: int|
        0 <= k < found.len() && (#[trigger] found[k]).start == p + 3 by {
        assert(annexb::code_at(s, p));
        let k = choose|k: int| 0 <= k < annexb::codes(s).len() && annexb::codes(s)[k] == p;
        assert(found[k].start == p + 3);
    }
    assert forall|k: int| #![trigger found[k]] 0 <= k < found.len() implies {
        let nal = found[k];
        &&& 3 <= nal.start <= nal.end <= s.len()
        &&& s[nal.start - 3] == 0 && s[nal.start - 2] == 0 && s[nal.start - 1] == 1
        &&& nal.bytes == s.subrange(nal.start, nal.end)
        &&& forall|p: int|
            nal.start <= p && p + 2 < nal.end && s[p] == 0 && #[trigger] s[p + 1] == 0 ==> s[p + 2]
                != 1
        &&& nal.end > nal.start ==> s[nal.end - 1] != 0
        &&& nal.code == if nal.start >= 4 && s[nal.start - 4] == 0 {
            nal.start - 4
        } else {
            nal.start - 3
        }
        &&& 0 <= nal.pad <= nal.code
        &&& forall|p: int| nal.pad <= p < nal.start - 1 ==> s[p] == 0
        &&& nal.pad > 0 ==> s[nal.pad - 1] != 0
    } by {
        lemma_nal_in_bytes(s, k);
    }
    assert forall|j: int, k: int|
        #![trigger found[j], found[k]]
        0 <= j && k == j + 1 && k < found.len() implies found[j].end == found[k].pad by {
        annexb::lemma_nal(s, j);
    }
    if found.len() > 0 {
        annexb::lemma_nal(s, found.len() - 1);
    }
}

proof fn lemma_nal_in_bytes(s: Seq<u8>, k: int)
    requires
        0 <= k < annexb::scan(s).len(),
    ensures
        ({
            let nal = annexb::scan(s)[k];
            &&& 3 <= nal.start <= nal.end <= s.len()
            &&& s[nal.start - 3] == 0 && s[nal.start - 2] == 0 && s[nal.start - 1] == 1
            &&& nal.bytes == s.subrange(nal.start, nal.end)
            &&& forall|p: int|
                nal.start <= p && p + 2 < nal.end && s[p] == 0 && #[trigger] s[p + 1] == 0
                    ==> s[p + 2] != 1
            &&& nal.end > nal.start ==> s[nal.end - 1] != 0
            &&& nal.code == if nal.start >= 4 && s[nal.start - 4] == 0 {
                nal.start - 4
            } else {
                nal.start - 3
            }
            &&& 0 <= nal.pad <= nal.code
            &&& forall|p: int| nal.pad <= p < nal.start - 1 ==> s[p] == 0
            &&& nal.pad > 0 ==> s[nal.pad - 1] != 0
        }),
{
    let nal = annexb::nal_at(s, k);
    let at = annexb::codes(s)[k];
    annexb::lemma_codes(s);
    annexb::lemma_nal(s, k);
    assert(annexb::code_at(s, at));
    bytes::lemma_zero_run(s, at);
    assert forall|p: int|
        nal.start <= p && p + 2 < nal.end && s[p] == 0 && #[trigger] s[p + 1] == 0 implies s[p + 2]
        != 1 by {
        let q = p - nal.start;
        assert(nal.bytes[q] == s[p] && nal.bytes[q + 1] == s[p + 1] && nal.bytes[q + 2] == s[p
            + 2]);
        assert(!annexb::code_at(nal.bytes, q));
    }
    if nal.end > nal.start {
        assert(nal.bytes.last() == s[nal.end - 1]);
    }
    if at > 0 && s[at - 1] != 0 {
        bytes::lemma_zero_run_is(s, at, at);
    }
}

/// What reading takes out, in bytes: bytes with no `00 00 03` in them are
/// read as they are, and a `03` behind two zeroes is taken out, what is
/// before it and what is behind it each read by itself.
pub proof fn reading_takes_out_the_03(a: Seq<u8>, b: Seq<u8>)
    ensures
        (forall|i: int|
            0 <= i && i + 2 < a.len() && a[i] == 0 && #[trigger] a[i + 1] == 0 ==> a[i + 2] != 3)
            ==> ep::unescape(a) == a,
        ep::unescape(a + seq![0u8, 0, 3] + b) == ep::unescape(a + seq![0u8, 0]) + ep::unescape(b),
{
    if forall|i: int|
        0 <= i && i + 2 < a.len() && a[i] == 0 && #[trigger] a[i + 1] == 0 ==> a[i + 2] != 3 {
        lemma_unescape_plain(a);
    }
    lemma_unescape_behind(a, b);
}

proof fn lemma_unescape_plain(a: Seq<u8>)
    requires
        forall|i: int|
            0 <= i && i + 2 < a.len() && a[i] == 0 && #[trigger] a[i + 1] == 0 ==> a[i + 2] != 3,
    ensures
        ep::unescape(a) == a,
    decreases a.len(),
{
    if a.len() > 0 {
        let front = a.drop_last();
        assert forall|i: int|
            0 <= i && i + 2 < front.len() && front[i] == 0 && #[trigger] front[i + 1]
                == 0 implies front[i + 2] != 3 by {
            assert(a[i + 1] == 0);
        }
        lemma_unescape_plain(front);
        if a.len() >= 3 {
            let i = a.len() - 3;
            assert(a[i + 1] == a[a.len() - 2]);
        }
        assert(front.push(a.last()) =~= a);
    } else {
        assert(ep::unescape(a) =~= a);
    }
}

proof fn lemma_unescape_behind(a: Seq<u8>, b: Seq<u8>)
    ensures
        ep::unescape(a + seq![0u8, 0, 3] + b) == ep::unescape(a + seq![0u8, 0]) + ep::unescape(b),
    decreases b.len(),
{
    let head = a + seq![0u8, 0, 3];
    let all = head + b;
    if b.len() == 0 {
        assert(all =~= head);
        assert(head.drop_last() =~= a + seq![0u8, 0]);
        assert(ep::unescape(a + seq![0u8, 0]) + ep::unescape(b) =~= ep::unescape(
            a + seq![0u8, 0],
        ));
    } else {
        lemma_unescape_behind(a, b.drop_last());
        assert(all.drop_last() =~= head + b.drop_last());
        let h = head.len() as int;
        let n = b.len() as int;
        assert(all.last() == b.last());
        assert(ep::is_escape(all, all.len() - 1) == ep::is_escape(b, n - 1)) by {
            assert(all[h - 1] == 3);
            if n >= 2 {
                assert(all[h + n - 2] == b[n - 2]);
            }
            if n >= 3 {
                assert(all[h + n - 3] == b[n - 3]);
            }
        }
        assert(ep::unescape(all) =~= ep::unescape(a + seq![0u8, 0]) + ep::unescape(b));
    }
}

/// What writing puts in, in bytes: nothing that is written holds two
/// zeroes and then a byte of 0 to 2; a `03` behind two zeroes is followed
/// by a byte of 0 to 3; and a payload with no byte of 0 to 3 behind two
/// zeroes is written as it is. With [`crate::ep::unescape_undoes_escape`]
/// there is one way to write a payload.
pub proof fn writing_puts_in_the_03(s: Seq<u8>)
    ensures
        ({
            let out = ep::escape(s);
            &&& forall|i: int|
                0 <= i && i + 2 < out.len() && out[i] == 0 && #[trigger] out[i + 1] == 0 ==> {
                    &&& out[i + 2] >= 3
                    &&& out[i + 2] == 3 ==> i + 3 < out.len() && out[i + 3] <= 3
                }
            &&& (forall|i: int|
                0 <= i && i + 2 < s.len() && s[i] == 0 && #[trigger] s[i + 1] == 0 ==> s[i + 2]
                    > 3) ==> out == s
        }),
{
    let out = ep::escape(s);
    ep::escaped_bytes_hold_no_start_code(s);
    assert forall|i: int|
        0 <= i && i + 2 < out.len() && out[i] == 0 && #[trigger] out[i + 1] == 0 implies {
        &&& out[i + 2] >= 3
        &&& out[i + 2] == 3 ==> i + 3 < out.len() && out[i + 3] <= 3
    } by {
        assert(!ep::zeroes_then(out, i, 2));
        if out[i + 2] == 3 {
            assert(ep::is_escape(out, i + 2));
        }
    }
    if forall|i: int|
        0 <= i && i + 2 < s.len() && s[i] == 0 && #[trigger] s[i + 1] == 0 ==> s[i + 2] > 3 {
        assert forall|i: int| !ep::zeroes_then(s, i, 3) by {
            if ep::zeroes_then(s, i, 3) {
                assert(s[i + 1] == 0);
            }
        }
        ep::escape_changes_only_what_needs_it(s);
    }
}

/// Bytes open with others exactly where they are those and then more.
pub proof fn bytes_open_with_their_beginning(s: Seq<u8>, prefix: Seq<u8>, rest: Seq<u8>)
    ensures
        bytes::opens_with(prefix + rest, prefix),
        bytes::opens_with(s, prefix) ==> s == prefix + s.skip(prefix.len() as int),
        bytes::opens_with(s, prefix) ==> forall|i: int| 0 <= i < prefix.len() ==> s[i] == prefix[i],
{
    assert((prefix + rest).take(prefix.len() as int) =~= prefix);
    if bytes::opens_with(s, prefix) {
        assert forall|i: int| 0 <= i < prefix.len() implies s[i] == prefix[i] by {
            assert(s.take(prefix.len() as int)[i] == s[i]);
        }
        assert(s =~= prefix + s.skip(prefix.len() as int));
    }
}

/// A NAL unit too long for its length is refused with the offset at which
/// it begins in the stream, the first such; and where every NAL unit fits
/// the stream becomes a sample of them all.
pub proof fn a_nal_too_long_for_its_length_is_refused(s: Seq<u8>, n: int, k: int)
    requires
        1 <= n <= 4,
        0 <= k <= annexb::scan(s).len(),
        forall|i: int|
            0 <= i < k ==> (#[trigger] annexb::scan(s)[i]).end - annexb::scan(s)[i].start
                < bytes::capacity(n as nat),
        k < annexb::scan(s).len() ==> annexb::scan(s)[k].end - annexb::scan(s)[k].start
            >= bytes::capacity(n as nat),
    ensures
        annexb::length_prefixed(s, n) == if k < annexb::scan(s).len() {
            Err::<Seq<u8>, Error>(Error::TooLarge { at: annexb::scan(s)[k].start as usize })
        } else {
            Ok(annexb::prefixed(annexb::split(s), n as nat))
        },
{
    let found = annexb::scan(s);
    nal_units_in_bytes(s);
    annexb::lemma_first_overlong(found, n as nat);
    let f = annexb::first_overlong(found, n as nat);
    if f < k {
        assert(found[f].bytes.len() == found[f].end - found[f].start);
    }
    if k < f {
        assert(found[k].bytes.len() == found[k].end - found[k].start);
    }
}

/// A byte string is one that a stream can hold whole exactly where it
/// holds no `00 00 01` and does not end in a zero.
pub proof fn clean_in_bytes(nal: Seq<u8>)
    ensures
        annexb::clean(nal) <==> {
            &&& forall|p: int|
                0 <= p && p + 2 < nal.len() && nal[p] == 0 && #[trigger] nal[p + 1] == 0
                    ==> nal[p + 2] != 1
            &&& nal.len() > 0 ==> nal.last() != 0
        },
{
    if annexb::clean(nal) {
        assert forall|p: int|
            0 <= p && p + 2 < nal.len() && nal[p] == 0 && #[trigger] nal[p + 1] == 0 implies nal[p
            + 2] != 1 by {
            assert(!annexb::code_at(nal, p));
        }
    }
    if forall|p: int|
        0 <= p && p + 2 < nal.len() && nal[p] == 0 && #[trigger] nal[p + 1] == 0 ==> nal[p + 2]
            != 1 {
        assert forall|p: int| !annexb::code_at(nal, p) by {
            if annexb::code_at(nal, p) {
                assert(nal[p + 1] == 0);
            }
        }
    }
}

} // verus!
