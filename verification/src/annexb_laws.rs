//! What holds of the two framings as a whole: streams cut apart at a
//! start code and put together again, a NAL unit spliced in, and the way
//! from one framing to the other and back.

use vstd::prelude::*;
use crate::annexb;
use crate::annexb::START_CODE;
use crate::bytes;
use crate::marks;
use crate::Error;

verus! {

/// Whether `s` is empty or opens with a start code of three or four
/// bytes.
pub open spec fn opens_at_code(s: Seq<u8>) -> bool {
    ||| s.len() == 0
    ||| annexb::code_at(s, 0)
    ||| s[0] == 0 && annexb::code_at(s, 1)
}

/// A run of zeroes below the end of a prefix depends on the prefix alone.
pub proof fn lemma_zero_run_prefix(a: Seq<u8>, b: Seq<u8>, p: int)
    requires
        0 <= p <= a.len(),
    ensures
        bytes::zero_run(a + b, p) == bytes::zero_run(a, p),
{
    bytes::lemma_zero_run(a, p);
    bytes::lemma_zero_run_is(a + b, p, bytes::zero_run(a, p));
}

/// A run of zeroes in a suffix is the run in the whole, cut off where
/// the suffix begins.
pub proof fn lemma_zero_run_suffix(s: Seq<u8>, d: int, x: int)
    requires
        0 <= d,
        0 <= x,
        d + x <= s.len(),
    ensures
        bytes::zero_run(s.skip(d), x) == if bytes::zero_run(s, d + x) >= d {
            bytes::zero_run(s, d + x) - d
        } else {
            0
        },
{
    let t = s.skip(d);
    let r = bytes::zero_run(s, d + x);
    bytes::lemma_zero_run(s, d + x);
    if r >= d {
        assert forall|i: int| r - d <= i < x implies t[i] == 0 by {
            assert(t[i] == s[d + i]);
        }
        if r > d {
            assert(t[r - d - 1] == s[r - 1]);
        }
        bytes::lemma_zero_run_is(t, x, r - d);
    } else {
        assert forall|i: int| 0 <= i < x implies t[i] == 0 by {
            assert(t[i] == s[d + i]);
        }
        bytes::lemma_zero_run_is(t, x, 0);
    }
}

/// NAL units come in order: each ends before the padding of any behind
/// it.
pub proof fn lemma_nals_in_order(s: Seq<u8>, j: int, k: int)
    requires
        0 <= j < k < annexb::codes(s).len(),
    ensures
        annexb::nal_at(s, j).end <= annexb::nal_at(s, k).pad,
    decreases k - j,
{
    annexb::lemma_nal(s, j);
    annexb::lemma_nal(s, j + 1);
    if j + 1 < k {
        lemma_nals_in_order(s, j + 1, k);
    }
}

/// The start codes of two streams put together are the start codes of
/// each, when the second opens with one.
pub proof fn lemma_codes_concat(a: Seq<u8>, b: Seq<u8>)
    requires
        opens_at_code(b),
    ensures
        annexb::codes(a + b) == annexb::codes(a) + marks::moved(annexb::codes(b), a.len() as int),
{
    let s = a + b;
    let d = a.len() as int;
    assert forall|i: int| 0 <= i < b.len() implies #[trigger] annexb::is_code(b)(i)
        == annexb::is_code(s)(d + i) by {
        if i + 2 < b.len() {
            assert(s[d + i] == b[i]);
            assert(s[d + i + 1] == b[i + 1]);
            assert(s[d + i + 2] == b[i + 2]);
        }
    }
    marks::lemma_marks_split(annexb::is_code(s), d, annexb::is_code(b), b.len() as int);
    assert forall|i: int| 0 <= i < d implies #[trigger] annexb::is_code(s)(i) == annexb::is_code(
        a,
    )(i) by {
        if i + 2 >= d && i + 2 < s.len() {
            assert(s[i + 2] == b[i + 2 - d]);
        }
    }
    marks::lemma_marks_agree(annexb::is_code(s), annexb::is_code(a), d);
}

/// Cutting a stream at a start code cuts its NAL units into those before
/// and those behind.
pub proof fn lemma_split_concat(a: Seq<u8>, b: Seq<u8>)
    requires
        opens_at_code(b),
    ensures
        annexb::split(a + b) == annexb::split(a) + annexb::split(b),
{
    let s = a + b;
    let d = a.len() as int;
    let m = annexb::codes(a).len() as int;
    let cs = annexb::codes(s);
    let ca = annexb::codes(a);
    let cb = annexb::codes(b);
    lemma_codes_concat(a, b);
    annexb::lemma_codes(a);
    annexb::lemma_codes(b);
    annexb::lemma_codes(s);
    assert forall|k: int| 0 <= k < cs.len() implies #[trigger] annexb::split(s)[k] == (
    annexb::split(a) + annexb::split(b))[k] by {
        if k < m {
            annexb::lemma_nal(a, k);
            annexb::lemma_nal(s, k);
            if k + 1 < m {
                lemma_zero_run_prefix(a, b, ca[k + 1]);
            } else {
                lemma_zero_run_prefix(a, b, d);
                if b.len() > 0 {
                    let first = if annexb::code_at(b, 0) {
                        0int
                    } else {
                        1int
                    };
                    assert(cb.contains(first));
                    assert(cb[0] == first) by {
                        let j = choose|j: int| 0 <= j < cb.len() && cb[j] == first;
                        assert(annexb::code_at(b, cb[0]));
                        if j > 0 {
                            assert(cb[0] + 3 <= cb[j]);
                        }
                    }
                    assert(cs[k + 1] == d + first);
                    assert(bytes::zero_run(s, d + first) == bytes::zero_run(s, d)) by {
                        assert(s[d] == b[0]);
                    }
                }
            }
            assert(annexb::nal_end(s, k) == annexb::nal_end(a, k));
            assert(annexb::nal_at(s, k).bytes =~= annexb::nal_at(a, k).bytes);
        } else {
            let j = k - m;
            annexb::lemma_nal(b, j);
            annexb::lemma_nal(s, k);
            let x = if j + 1 < cb.len() {
                cb[j + 1]
            } else {
                b.len() as int
            };
            assert(s.skip(d) =~= b);
            lemma_zero_run_suffix(s, d, x);
            bytes::lemma_zero_run(s, d + x);
            assert(bytes::zero_run(b, x) >= cb[j] + 3);
            assert(annexb::nal_end(s, k) == d + annexb::nal_end(b, j));
            assert(annexb::nal_at(s, k).bytes =~= annexb::nal_at(b, j).bytes);
        }
    }
    assert(annexb::split(s) =~= annexb::split(a) + annexb::split(b));
}

/// A stream of one clean NAL unit behind a start code holds that NAL
/// unit.
pub proof fn lemma_split_one(nal: Seq<u8>)
    requires
        annexb::clean(nal),
    ensures
        annexb::split(START_CODE@ + nal) == seq![nal],
{
    let s = START_CODE@ + nal;
    let cs = annexb::codes(s);
    annexb::lemma_codes(s);
    assert forall|p: int| #[trigger] annexb::code_at(s, p) implies p == 1 by {
        if p >= 4 {
            assert(s[p] == nal[p - 4]);
            assert(s[p + 1] == nal[p - 3]);
            assert(s[p + 2] == nal[p - 2]);
            assert(annexb::code_at(nal, p - 4));
        }
    }
    assert(annexb::code_at(s, 1));
    assert(cs.contains(1));
    let j = choose|j: int| 0 <= j < cs.len() && cs[j] == 1;
    assert(j == 0 && cs.len() == 1) by {
        if cs.len() > 1 {
            assert(annexb::code_at(s, cs[0]));
            assert(annexb::code_at(s, cs[1]));
        }
    }
    bytes::lemma_zero_run_is(s, s.len() as int, s.len() as int);
    assert(annexb::nal_at(s, 0).bytes =~= nal);
    assert(annexb::split(s) =~= seq![nal]);
}

/// Clean NAL units behind start codes are the NAL units of the stream
/// they make.
pub proof fn split_undoes_start_codes(nals: Seq<Seq<u8>>)
    requires
        forall|i: int| 0 <= i < nals.len() ==> annexb::clean(#[trigger] nals[i]),
    ensures
        annexb::split(annexb::start_coded(nals)) == nals,
    decreases nals.len(),
{
    if nals.len() == 0 {
        assert(annexb::split(annexb::start_coded(nals)) =~= nals);
    } else {
        let rest = nals.drop_first();
        split_undoes_start_codes(rest);
        lemma_start_coded_opens(rest);
        let one = START_CODE@ + nals[0];
        lemma_split_concat(one, annexb::start_coded(rest));
        lemma_split_one(nals[0]);
        assert(annexb::split(annexb::start_coded(nals)) =~= nals);
    }
}

/// A start-coded stream is empty or opens with a start code.
pub proof fn lemma_start_coded_opens(nals: Seq<Seq<u8>>)
    ensures
        opens_at_code(annexb::start_coded(nals)),
{
    if nals.len() > 0 {
        let s = annexb::start_coded(nals);
        assert(s[0] == 0 && s[1] == 0 && s[2] == 0 && s[3] == 1);
        assert(annexb::code_at(s, 1));
    }
}

/// Every NAL unit a scan hands out is clean.
pub proof fn lemma_split_clean(s: Seq<u8>)
    ensures
        forall|k: int|
            0 <= k < annexb::split(s).len() ==> annexb::clean(#[trigger] annexb::split(s)[k]),
{
    assert forall|k: int| 0 <= k < annexb::split(s).len() implies annexb::clean(
        #[trigger] annexb::split(s)[k],
    ) by {
        annexb::lemma_nal(s, k);
    }
}

/// NAL units that fit their lengths are read back from the sample they
/// are framed in.
pub proof fn sample_undoes_length_prefixes(nals: Seq<Seq<u8>>, n: int)
    requires
        annexb::width_ok(n),
        forall|i: int|
            0 <= i < nals.len() ==> (#[trigger] nals[i]).len() < bytes::capacity(n as nat),
    ensures
        annexb::sample_nals(annexb::prefixed(nals, n as nat), n) == Ok::<Seq<Seq<u8>>, Error>(nals),
{
    let s = annexb::prefixed(nals, n as nat);
    assert(Seq::<u8>::empty() + s =~= s);
    lemma_sample_of_prefixed(Seq::empty(), nals, n as nat);
}

proof fn lemma_sample_of_prefixed(before: Seq<u8>, nals: Seq<Seq<u8>>, n: nat)
    requires
        n > 0,
        forall|i: int| 0 <= i < nals.len() ==> (#[trigger] nals[i]).len() < bytes::capacity(n),
    ensures
        annexb::sample_from(before + annexb::prefixed(nals, n), n, before.len() as int) == Ok::<
            Seq<Seq<u8>>,
            Error,
        >(nals),
    decreases nals.len(),
{
    let s = before + annexb::prefixed(nals, n);
    let at = before.len() as int;
    if nals.len() == 0 {
        assert(nals =~= Seq::empty());
    } else {
        let nal = nals[0];
        let rest = nals.drop_first();
        let head = bytes::be_bytes(nal.len(), n);
        bytes::lemma_be_round_trip(nal.len(), n);
        lemma_sample_of_prefixed(before + head + nal, rest, n);
        assert(before + head + nal + annexb::prefixed(rest, n) =~= s);
        assert(s.subrange(at, at + n) =~= head);
        assert(s.subrange(at + n, at + n + nal.len()) =~= nal);
        assert(seq![nal] + rest =~= nals);
    }
}

/// A sample that reads as `nals` is `nals` framed, length by length, and
/// each of them fits its length.
pub proof fn length_prefixes_undo_sample(s: Seq<u8>, n: int)
    requires
        annexb::width_ok(n),
        annexb::sample_nals(s, n) is Ok,
    ensures
        annexb::prefixed(annexb::sample_nals(s, n)->Ok_0, n as nat) == s,
        forall|i: int|
            0 <= i < annexb::sample_nals(s, n)->Ok_0.len() ==> (#[trigger] annexb::sample_nals(
                s,
                n,
            )->Ok_0[i]).len() < bytes::capacity(n as nat),
{
    lemma_prefixed_of_sample(s, n as nat, 0);
    assert(s.skip(0) =~= s);
}

proof fn lemma_prefixed_of_sample(s: Seq<u8>, n: nat, at: int)
    requires
        n > 0,
        0 <= at <= s.len(),
        annexb::sample_from(s, n, at) is Ok,
    ensures
        annexb::prefixed(annexb::sample_from(s, n, at)->Ok_0, n) == s.skip(at),
        forall|i: int|
            0 <= i < annexb::sample_from(s, n, at)->Ok_0.len() ==> (#[trigger] annexb::sample_from(
                s,
                n,
                at,
            )->Ok_0[i]).len() < bytes::capacity(n),
    decreases s.len() - at,
{
    let nals = annexb::sample_from(s, n, at)->Ok_0;
    if at >= s.len() {
        assert(s.skip(at) =~= Seq::empty());
    } else {
        let head = s.subrange(at, at + n);
        let start = at + n;
        let end = start + bytes::be_value(head);
        let rest = annexb::sample_from(s, n, end)->Ok_0;
        bytes::lemma_be_value_bound(head);
        bytes::lemma_be_bytes_of_value(head);
        lemma_prefixed_of_sample(s, n, end);
        assert(nals[0] =~= s.subrange(start, end));
        assert(nals.drop_first() =~= rest);
        assert(annexb::prefixed(nals, n) =~= s.skip(at));
        assert forall|i: int| 0 <= i < nals.len() implies (#[trigger] nals[i]).len()
            < bytes::capacity(n) by {
            if i > 0 {
                assert(nals[i] == rest[i - 1]);
            }
        }
    }
}

/// The two framings round trip: what a stream becomes with lengths in
/// place of its start codes, and then with start codes again, has the
/// NAL units it had, whatever padding lay between them.
pub proof fn framings_round_trip(s: Seq<u8>, n: int)
    requires
        annexb::length_prefixed(s, n) is Ok,
    ensures
        annexb::sample_nals(annexb::length_prefixed(s, n)->Ok_0, n) == Ok::<Seq<Seq<u8>>, Error>(
            annexb::split(s),
        ),
        annexb::split(annexb::start_coded(annexb::split(s))) == annexb::split(s),
{
    let nals = annexb::split(s);
    annexb::lemma_first_overlong(annexb::scan(s), n as nat);
    assert forall|i: int| 0 <= i < nals.len() implies (#[trigger] nals[i]).len() < bytes::capacity(
        n as nat,
    ) by {
        assert(annexb::scan(s)[i].bytes == nals[i]);
    }
    sample_undoes_length_prefixes(nals, n);
    lemma_split_clean(s);
    split_undoes_start_codes(nals);
}

/// A sample of clean NAL units survives the way to start codes and back,
/// byte for byte.
pub proof fn samples_round_trip(s: Seq<u8>, n: int)
    requires
        annexb::sample_nals(s, n) is Ok,
        forall|i: int|
            0 <= i < annexb::sample_nals(s, n)->Ok_0.len() ==> annexb::clean(
                #[trigger] annexb::sample_nals(s, n)->Ok_0[i],
            ),
    ensures
        annexb::length_prefixed(annexb::start_coded(annexb::sample_nals(s, n)->Ok_0), n) == Ok::<
            Seq<u8>,
            Error,
        >(s),
{
    let nals = annexb::sample_nals(s, n)->Ok_0;
    let coded = annexb::start_coded(nals);
    split_undoes_start_codes(nals);
    length_prefixes_undo_sample(s, n);
    let placed = annexb::scan(coded);
    annexb::lemma_first_overlong(placed, n as nat);
    let f = annexb::first_overlong(placed, n as nat);
    if f < placed.len() {
        assert(annexb::split(coded)[f] == placed[f].bytes);
        assert(nals[f].len() < bytes::capacity(n as nat));
    }
}

/// A clean NAL unit spliced into a stream at a start code, or at its
/// end, is one more NAL unit between those before and those behind; no
/// other changes.
pub proof fn splicing_adds_one_nal(s: Seq<u8>, p: int, nal: Seq<u8>)
    requires
        0 <= p <= s.len(),
        opens_at_code(s.skip(p)),
        annexb::clean(nal),
    ensures
        annexb::split(s) == annexb::split(s.take(p)) + annexb::split(s.skip(p)),
        annexb::split(s.take(p) + START_CODE@ + nal + s.skip(p)) == annexb::split(s.take(p))
            + seq![nal] + annexb::split(s.skip(p)),
{
    let a = s.take(p);
    let b = s.skip(p);
    assert(a + b =~= s);
    lemma_split_concat(a, b);
    let one = START_CODE@ + nal;
    assert(opens_at_code(one)) by {
        assert(one[0] == 0 && one[1] == 0 && one[2] == 0 && one[3] == 1);
        assert(annexb::code_at(one, 1));
    }
    lemma_split_concat(a, one);
    lemma_split_one(nal);
    assert(a + START_CODE@ + nal =~= a + one);
    lemma_split_concat(a + one, b);
}

} // verus!
