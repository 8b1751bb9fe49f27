//! The two ways a coded stream frames its NAL units: a start code
//! before each one, which is ISO/IEC 14496-10 Annex B and what an
//! elementary stream carries, and a length before each one, which is
//! ISO/IEC 14496-15 section 5.3.4.1 and what MP4 and its relatives store
//! samples in.
//!
//! Reframing touches no NAL's own bytes. Which framing a stream is in is
//! [`crate::config::framing_of`], from the codec name and the
//! out-of-band header.

use vstd::prelude::*;
use vstd::slice::slice_subrange;
use crate::bytes;
use crate::marks;
use crate::Error;

verus! {

/// The four byte start code a writer here puts before a NAL.
///
/// Three byte codes are read and never written: four is what the
/// encoders this crate reads write, and what makes the offsets of a
/// rewritten stream easy to reason about.
pub const START_CODE: [u8; 4] = [0, 0, 0, 1];

/// One NAL unit's place in an Annex B byte stream.
#[derive(Clone, Copy, Debug, PartialEq, Eq)]
pub struct NalRef<'a> {
    /// Where the bytes between the NAL unit before this one and this one
    /// begin: the zero padding, if the stream has any, and then the start
    /// code. The NAL before this one ends here, so `pad` to `end` tiles
    /// the byte stream.
    pub pad: usize,
    /// Where this NAL's own start code begins, its `zero_byte` included.
    /// Something spliced in before this NAL goes here, which leaves the
    /// padding trailing the NAL it trailed before.
    pub code: usize,
    /// Where the NAL's own bytes begin.
    pub start: usize,
    /// Where they end, which is before any zero byte that pads the way
    /// to the next start code.
    pub end: usize,
    /// The NAL, start code and padding removed.
    pub bytes: &'a [u8],
}

/// A NAL unit's place in a byte stream, as numbers and a byte string.
pub struct Nal {
    pub pad: int,
    pub code: int,
    pub start: int,
    pub end: int,
    pub bytes: Seq<u8>,
}

impl<'a> View for NalRef<'a> {
    type V = Nal;

    open spec fn view(&self) -> Nal {
        Nal {
            pad: self.pad as int,
            code: self.code as int,
            start: self.start as int,
            end: self.end as int,
            bytes: self.bytes@,
        }
    }
}

/// The places of a list of NAL units.
pub open spec fn places(list: Seq<NalRef<'_>>) -> Seq<Nal> {
    Seq::new(list.len(), |i: int| list[i]@)
}

/// Whether the three bytes `00 00 01` stand at `p`.
pub open spec fn code_at(s: Seq<u8>, p: int) -> bool {
    0 <= p && p + 2 < s.len() && s[p] == 0 && s[p + 1] == 0 && s[p + 2] == 1
}

/// [`code_at`] as a test of one offset.
pub open spec fn is_code(s: Seq<u8>) -> spec_fn(int) -> bool {
    |p: int| code_at(s, p)
}

/// Where `00 00 01` stands in `s`, in order.
pub open spec fn codes(s: Seq<u8>) -> Seq<int> {
    marks::marks(is_code(s), s.len() as int)
}

/// Where the bytes of the NAL unit behind start code `k` give way to
/// padding: at the next start code or the end of the stream, less the
/// zeroes before it.
pub open spec fn nal_end(s: Seq<u8>, k: int) -> int {
    bytes::zero_run(s, if k + 1 < codes(s).len() {
        codes(s)[k + 1]
    } else {
        s.len() as int
    })
}

/// The NAL unit behind start code `k`.
///
/// The zeroes before a code belong to the byte stream and not to either
/// NAL unit, except one, which is the code's own `zero_byte`.
pub open spec fn nal_at(s: Seq<u8>, k: int) -> Nal {
    let at = codes(s)[k];
    let pad = bytes::zero_run(s, at);
    Nal {
        pad,
        code: if pad < at {
            at - 1
        } else {
            at
        },
        start: at + 3,
        end: nal_end(s, k),
        bytes: s.subrange(at + 3, nal_end(s, k)),
    }
}

/// The NAL units of an Annex B byte stream, with their places.
pub open spec fn scan(s: Seq<u8>) -> Seq<Nal> {
    Seq::new(codes(s).len(), |k: int| nal_at(s, k))
}

/// The NAL units of an Annex B byte stream.
pub open spec fn split(s: Seq<u8>) -> Seq<Seq<u8>> {
    Seq::new(codes(s).len(), |k: int| nal_at(s, k).bytes)
}

/// Whether a byte string is one that a scan hands out: no start code in
/// it, and no zero at its end for padding to swallow.
pub open spec fn clean(nal: Seq<u8>) -> bool {
    &&& forall|p: int| !code_at(nal, p)
    &&& nal.len() > 0 ==> nal.last() != 0
}

/// Start codes do not overlap, and come in order.
pub proof fn lemma_codes(s: Seq<u8>)
    ensures
        forall|k: int|
            0 <= k < codes(s).len() ==> code_at(s, #[trigger] codes(s)[k]) && codes(s)[k] + 3
                <= s.len(),
        forall|j: int, k: int|
            0 <= j < k < codes(s).len() ==> (#[trigger] codes(s)[j]) + 3 <= #[trigger] codes(s)[k],
        forall|p: int| #[trigger] code_at(s, p) ==> codes(s).contains(p),
{
    marks::lemma_marks(is_code(s), s.len() as int);
    assert forall|j: int, k: int| 0 <= j < k < codes(s).len() implies (#[trigger] codes(s)[j]) + 3
        <= #[trigger] codes(s)[k] by {
        assert(is_code(s)(codes(s)[j]));
        assert(is_code(s)(codes(s)[k]));
    }
    assert forall|p: int| #[trigger] code_at(s, p) implies codes(s).contains(p) by {
        assert(is_code(s)(p));
    }
}

/// A NAL unit's offsets are in order, it ends where the padding of the
/// next begins, and its bytes are clean.
pub proof fn lemma_nal(s: Seq<u8>, k: int)
    requires
        0 <= k < codes(s).len(),
    ensures
        0 <= nal_at(s, k).pad <= nal_at(s, k).code < nal_at(s, k).start,
        nal_at(s, k).code <= codes(s)[k] <= nal_at(s, k).code + 1,
        nal_at(s, k).start <= nal_at(s, k).end <= s.len(),
        k + 1 < codes(s).len() ==> nal_at(s, k).end == nal_at(s, k + 1).pad,
        k + 1 == codes(s).len() ==> forall|i: int| nal_at(s, k).end <= i < s.len() ==> s[i] == 0,
        clean(nal_at(s, k).bytes),
{
    lemma_codes(s);
    let at = codes(s)[k];
    let stop = if k + 1 < codes(s).len() {
        codes(s)[k + 1]
    } else {
        s.len() as int
    };
    let end = nal_end(s, k);
    let bytes = nal_at(s, k).bytes;
    bytes::lemma_zero_run(s, at);
    bytes::lemma_zero_run(s, stop);
    assert(end >= at + 3) by {
        assert(s[at + 2] == 1);
    }
    assert forall|p: int| !code_at(bytes, p) by {
        if code_at(bytes, p) {
            assert(code_at(s, at + 3 + p)) by {
                assert(bytes[p] == s[at + 3 + p]);
                assert(bytes[p + 1] == s[at + 3 + p + 1]);
                assert(bytes[p + 2] == s[at + 3 + p + 2]);
            }
            let j = choose|j: int| 0 <= j < codes(s).len() && codes(s)[j] == at + 3 + p;
            assert(j > k);
            assert(j >= k + 1);
        }
    }
}

/// Appends the offset of every start code.
fn find_codes(annexb: &[u8]) -> (out: Vec<usize>)
    ensures
        marks::as_ints(out@) == codes(annexb@),
{
    let mut out: Vec<usize> = Vec::new();
    let mut at: usize = 0;
    assert(marks::as_ints(out@) =~= marks::marks(is_code(annexb@), 0));
    while at < annexb.len()
        invariant
            at <= annexb.len(),
            marks::as_ints(out@) == marks::marks(is_code(annexb@), at as int),
        decreases annexb.len() - at,
    {
        let ghost before = out@;
        let found = annexb.len() - at > 2 && annexb[at] == 0 && annexb[at + 1] == 0 && annexb[at
            + 2] == 1;
        assert(found == is_code(annexb@)(at as int));
        if found {
            out.push(at);
            assert(marks::as_ints(out@) =~= marks::as_ints(before).push(at as int));
        }
        at += 1;
    }
    out
}

/// The NAL units of an Annex B byte stream, with their offsets.
///
/// Both 3-byte (`00 00 01`) and 4-byte (`00 00 00 01`) start codes cut.
/// Bytes before the first start code are ignored, and bytes with no
/// start code in them at all hold no NAL units.
///
/// Zero bytes between one NAL unit and the next start code belong to
/// the byte stream and not to either NAL unit: H.264 Annex B.1.1 and
/// HEVC Annex B.2.1 spell them `trailing_zero_8bits`, and a NAL unit
/// cannot end in a zero byte, since its last byte is always the one
/// carrying `rbsp_trailing_bits` or the escape of a `cabac_zero_word`.
/// So `end` excludes every such zero, and [`NalRef::pad`] carries the
/// offset they begin at.
pub fn scan_nals(annexb: &[u8]) -> (nals: Vec<NalRef<'_>>)
    ensures
        places(nals@) == scan(annexb@),
        forall|k: int|
            #![trigger nals@[k]]
            0 <= k < nals@.len() ==> {
                &&& nals@[k].pad <= nals@[k].code < nals@[k].start <= nals@[k].end
                    <= annexb@.len()
                &&& nals@[k].bytes@ == annexb@.subrange(
                    nals@[k].start as int,
                    nals@[k].end as int,
                )
                &&& clean(nals@[k].bytes@)
                &&& k + 1 < nals@.len() ==> nals@[k].end == nals@[k + 1].pad
            },
{
    let found: Vec<usize> = find_codes(annexb);
    let mut out: Vec<NalRef<'_>> = Vec::with_capacity(found.len());
    let mut k: usize = 0;
    proof {
        lemma_codes(annexb@);
        assert forall|i: int| 0 <= i < found@.len() implies #[trigger] found@[i] == codes(
            annexb@,
        )[i] by {
            assert(marks::as_ints(found@)[i] == found@[i]);
        }
    }
    while k < found.len()
        invariant
            k <= found.len(),
            marks::as_ints(found@) == codes(annexb@),
            found@.len() == codes(annexb@).len(),
            forall|i: int|
                0 <= i < found@.len() ==> #[trigger] found@[i] == codes(annexb@)[i] && found@[i] + 3
                    <= annexb@.len(),
            out@.len() == k,
            forall|i: int| 0 <= i < k ==> #[trigger] out@[i]@ == nal_at(annexb@, i),
        decreases found.len() - k,
    {
        let at: usize = found[k];
        let pad: usize = bytes::find_zero_run(annexb, at);
        let code: usize = if pad < at {
            at - 1
        } else {
            at
        };
        let stop: usize = if k + 1 < found.len() {
            found[k + 1]
        } else {
            annexb.len()
        };
        let end: usize = bytes::find_zero_run(annexb, stop);
        proof {
            lemma_nal(annexb@, k as int);
        }
        out.push(
            NalRef { pad, code, start: at + 3, end, bytes: slice_subrange(annexb, at + 3, end) },
        );
        k += 1;
    }
    proof {
        assert(places(out@) =~= scan(annexb@));
        assert forall|i: int|
            #![trigger out@[i]]
            0 <= i < out@.len() implies {
            &&& out@[i].pad <= out@[i].code < out@[i].start <= out@[i].end <= annexb@.len()
            &&& out@[i].bytes@ == annexb@.subrange(out@[i].start as int, out@[i].end as int)
            &&& clean(out@[i].bytes@)
            &&& i + 1 < out@.len() ==> out@[i].end == out@[i + 1].pad
        } by {
            lemma_nal(annexb@, i);
            assert(out@[i]@ == nal_at(annexb@, i));
            if i + 1 < out@.len() {
                assert(out@[i + 1]@ == nal_at(annexb@, i + 1));
            }
        }
    }
    out
}

/// The NAL units of an Annex B byte stream, start codes removed.
pub fn split_nals(annexb: &[u8]) -> (nals: Vec<&[u8]>)
    ensures
        bytes::slice_contents(nals@) == split(annexb@),
{
    let scanned: Vec<NalRef<'_>> = scan_nals(annexb);
    let mut out: Vec<&[u8]> = Vec::with_capacity(scanned.len());
    let mut k: usize = 0;
    while k < scanned.len()
        invariant
            k <= scanned.len(),
            places(scanned@) == scan(annexb@),
            out@.len() == k,
            forall|i: int| 0 <= i < k ==> #[trigger] out@[i]@ == scanned@[i]@.bytes,
        decreases scanned.len() - k,
    {
        out.push(scanned[k].bytes);
        k += 1;
    }
    proof {
        assert(scan(annexb@).len() == scanned@.len());
        assert forall|i: int| 0 <= i < out@.len() implies #[trigger] bytes::slice_contents(out@)[i]
            == split(annexb@)[i] by {
            assert(scan(annexb@)[i] == scanned@[i]@);
        }
        assert(bytes::slice_contents(out@) =~= split(annexb@));
    }
    out
}

/// Whether a length prefix of `n` bytes is one the records can declare.
pub open spec fn width_ok(n: int) -> bool {
    1 <= n <= 4
}

/// What a length prefix of any other width is answered with.
pub open spec fn width_error() -> Error {
    Error::Malformed { what: "a NAL length prefix is 1 to 4 bytes", at: 0 }
}

/// NAL units one after another, each behind its own length in `n` bytes.
pub open spec fn prefixed(nals: Seq<Seq<u8>>, n: nat) -> Seq<u8>
    decreases nals.len(),
{
    if nals.len() == 0 {
        Seq::empty()
    } else {
        bytes::be_bytes(nals[0].len(), n) + nals[0] + prefixed(nals.drop_first(), n)
    }
}

/// NAL units one after another, each behind a four byte start code.
pub open spec fn start_coded(nals: Seq<Seq<u8>>) -> Seq<u8>
    decreases nals.len(),
{
    if nals.len() == 0 {
        Seq::empty()
    } else {
        START_CODE@ + nals[0] + start_coded(nals.drop_first())
    }
}

/// The first NAL unit too long for a length of `n` bytes, or how many
/// there are when all of them fit.
pub open spec fn first_overlong(nals: Seq<Nal>, n: nat) -> int
    decreases nals.len(),
{
    if nals.len() == 0 || nals[0].bytes.len() >= bytes::capacity(n) {
        0
    } else {
        1 + first_overlong(nals.drop_first(), n)
    }
}

/// An Annex B byte stream with lengths of `n` bytes in place of its
/// start codes.
pub open spec fn length_prefixed(s: Seq<u8>, n: int) -> Result<Seq<u8>, Error> {
    let nals = scan(s);
    if !width_ok(n) {
        Err(width_error())
    } else if first_overlong(nals, n as nat) < nals.len() {
        Err(Error::TooLarge { at: nals[first_overlong(nals, n as nat)].start as usize })
    } else {
        Ok(prefixed(split(s), n as nat))
    }
}

/// The NAL units of a length-prefixed sample from byte `at` on.
pub open spec fn sample_from(s: Seq<u8>, n: nat, at: int) -> Result<Seq<Seq<u8>>, Error>
    decreases s.len() - at,
{
    if n == 0 || at >= s.len() {
        Ok(Seq::empty())
    } else if at + n > s.len() {
        Err(Error::Malformed { what: "the sample ends inside a NAL length", at: at as usize })
    } else {
        let start = at + n;
        let end = start + bytes::be_value(s.subrange(at, start));
        if end > s.len() {
            Err(Error::Malformed { what: "a NAL overruns the sample", at: start as usize })
        } else {
            match sample_from(s, n, end) {
                Ok(rest) => Ok(seq![s.subrange(start, end)] + rest),
                Err(e) => Err(e),
            }
        }
    }
}

/// The NAL units of a length-prefixed sample.
pub open spec fn sample_nals(s: Seq<u8>, n: int) -> Result<Seq<Seq<u8>>, Error> {
    if !width_ok(n) {
        Err(width_error())
    } else {
        sample_from(s, n as nat, 0)
    }
}

/// What a function that returns bytes returned.
pub open spec fn bytes_result(r: Result<Vec<u8>, Error>) -> Result<Seq<u8>, Error> {
    match r {
        Ok(v) => Ok(v@),
        Err(e) => Err(e),
    }
}

/// What a function that returns slices returned.
pub open spec fn slices_result(r: Result<Vec<&[u8]>, Error>) -> Result<Seq<Seq<u8>>, Error> {
    match r {
        Ok(v) => Ok(bytes::slice_contents(v@)),
        Err(e) => Err(e),
    }
}

/// NAL units framed in two parts are framed as a whole.
pub proof fn lemma_prefixed_add(a: Seq<Seq<u8>>, b: Seq<Seq<u8>>, n: nat)
    ensures
        prefixed(a + b, n) == prefixed(a, n) + prefixed(b, n),
    decreases a.len(),
{
    if a.len() == 0 {
        assert(a + b =~= b);
        assert(prefixed(a, n) + prefixed(b, n) =~= prefixed(b, n));
    } else {
        lemma_prefixed_add(a.drop_first(), b, n);
        assert((a + b).drop_first() =~= a.drop_first() + b);
        assert(prefixed(a + b, n) =~= prefixed(a, n) + prefixed(b, n));
    }
}

/// What one more NAL unit adds to a length-prefixed sample.
pub proof fn lemma_prefixed_push(a: Seq<Seq<u8>>, nal: Seq<u8>, n: nat)
    ensures
        prefixed(a.push(nal), n) == prefixed(a, n) + bytes::be_bytes(nal.len(), n) + nal,
{
    let one = seq![nal];
    assert(a.push(nal) =~= a + one);
    lemma_prefixed_add(a, one, n);
    reveal_with_fuel(prefixed, 2);
    assert(one.drop_first() =~= Seq::empty());
    assert(prefixed(one, n) =~= bytes::be_bytes(nal.len(), n) + nal);
    assert(prefixed(a, n) + prefixed(one, n) =~= prefixed(a, n) + bytes::be_bytes(nal.len(), n)
        + nal);
}

/// NAL units start-coded in two parts are start-coded as a whole.
pub proof fn lemma_start_coded_add(a: Seq<Seq<u8>>, b: Seq<Seq<u8>>)
    ensures
        start_coded(a + b) == start_coded(a) + start_coded(b),
    decreases a.len(),
{
    if a.len() == 0 {
        assert(a + b =~= b);
        assert(start_coded(a) + start_coded(b) =~= start_coded(b));
    } else {
        lemma_start_coded_add(a.drop_first(), b);
        assert((a + b).drop_first() =~= a.drop_first() + b);
        assert(start_coded(a + b) =~= start_coded(a) + start_coded(b));
    }
}

/// What one more NAL unit adds to a start-coded stream.
pub proof fn lemma_start_coded_push(a: Seq<Seq<u8>>, nal: Seq<u8>)
    ensures
        start_coded(a.push(nal)) == start_coded(a) + START_CODE@ + nal,
{
    let one = seq![nal];
    assert(a.push(nal) =~= a + one);
    lemma_start_coded_add(a, one);
    reveal_with_fuel(start_coded, 2);
    assert(one.drop_first() =~= Seq::empty());
    assert(start_coded(one) =~= START_CODE@ + nal);
    assert(start_coded(a) + start_coded(one) =~= start_coded(a) + START_CODE@ + nal);
}

/// Every NAL unit before the first overlong one fits, and that one does
/// not.
pub proof fn lemma_first_overlong(nals: Seq<Nal>, n: nat)
    ensures
        0 <= first_overlong(nals, n) <= nals.len(),
        forall|i: int|
            0 <= i < first_overlong(nals, n) ==> (#[trigger] nals[i]).bytes.len()
                < bytes::capacity(n),
        first_overlong(nals, n) < nals.len() ==> nals[first_overlong(nals, n)].bytes.len()
            >= bytes::capacity(n),
    decreases nals.len(),
{
    if nals.len() > 0 && nals[0].bytes.len() < bytes::capacity(n) {
        let rest = nals.drop_first();
        lemma_first_overlong(rest, n);
        assert forall|i: int| 0 <= i < first_overlong(nals, n) implies (
        #[trigger] nals[i]).bytes.len() < bytes::capacity(n) by {
            if i > 0 {
                assert(rest[i - 1] == nals[i]);
            }
        }
    }
}

/// Whether a length prefix of `length_size` bytes is one this crate
/// writes and reads: 1 to 4, which is every width the records can
/// declare.
pub(crate) fn check_length_size(length_size: usize) -> (r: Result<(), Error>)
    ensures
        r == (if width_ok(length_size as int) {
            Ok::<(), Error>(())
        } else {
            Err(width_error())
        }),
{
    if length_size < 1 || length_size > 4 {
        return Err(Error::Malformed { what: "a NAL length prefix is 1 to 4 bytes", at: 0 });
    }
    Ok(())
}

/// Appends one big-endian length of `length_size` bytes, or answers
/// [`Error::TooLarge`] when the length does not fit them.
pub(crate) fn put_length(
    out: &mut Vec<u8>,
    length: usize,
    length_size: usize,
    at: usize,
) -> (r: Result<(), Error>)
    requires
        width_ok(length_size as int),
    ensures
        r == (if length < bytes::capacity(length_size as nat) {
            Ok::<(), Error>(())
        } else {
            Err(Error::TooLarge { at })
        }),
        final(out)@ == (if length < bytes::capacity(length_size as nat) {
            old(out)@ + bytes::be_bytes(length as nat, length_size as nat)
        } else {
            old(out)@
        }),
{
    proof {
        reveal_with_fuel(bytes::capacity, 5);
        reveal_with_fuel(bytes::be_bytes, 5);
    }
    let value: u64 = length as u64;
    let limit: u64 = if length_size == 1 {
        0x100
    } else if length_size == 2 {
        0x1_0000
    } else if length_size == 3 {
        0x100_0000
    } else {
        0x1_0000_0000
    };
    if value >= limit {
        return Err(Error::TooLarge { at });
    }
    let ghost before = out@;
    if length_size >= 4 {
        out.push((value / 0x100_0000 % 0x100) as u8);
    }
    if length_size >= 3 {
        out.push((value / 0x1_0000 % 0x100) as u8);
    }
    if length_size >= 2 {
        out.push((value / 0x100 % 0x100) as u8);
    }
    out.push((value % 0x100) as u8);
    assert(out@ =~= before + bytes::be_bytes(length as nat, length_size as nat));
    Ok(())
}

/// One Annex B access unit reframed with length prefixes of
/// `length_size` bytes, the framing an `avcC` or `hvcC` declares.
///
/// Empty when the bytes hold no start code. [`Error::TooLarge`] when a
/// NAL does not fit the prefix it was given.
pub fn annexb_to_length_prefixed(annexb: &[u8], length_size: usize) -> (out: Result<
    Vec<u8>,
    Error,
>)
    ensures
        bytes_result(out) == length_prefixed(annexb@, length_size as int),
{
    match check_length_size(length_size) {
        Ok(()) => {},
        Err(e) => {
            return Err(e);
        },
    }
    let nals: Vec<NalRef<'_>> = scan_nals(annexb);
    let ghost all = scan(annexb@);
    let ghost units = split(annexb@);
    let ghost n = length_size as nat;
    let mut out: Vec<u8> = Vec::with_capacity(annexb.len());
    let mut k: usize = 0;
    proof {
        lemma_first_overlong(all, n);
        assert(units.take(0) =~= Seq::empty());
        assert(all.len() == nals@.len());
    }
    while k < nals.len()
        invariant
            k <= nals.len(),
            width_ok(length_size as int),
            n == length_size as nat,
            all == scan(annexb@),
            units == split(annexb@),
            all == places(nals@),
            k <= first_overlong(all, n),
            out@ == prefixed(units.take(k as int), n),
            0 <= first_overlong(all, n) <= all.len(),
            forall|i: int|
                0 <= i < first_overlong(all, n) ==> (#[trigger] all[i]).bytes.len()
                    < bytes::capacity(n),
            first_overlong(all, n) < all.len() ==> all[first_overlong(all, n)].bytes.len()
                >= bytes::capacity(n),
        decreases nals.len() - k,
    {
        let nal: NalRef<'_> = nals[k];
        assert(all[k as int] == nal@);
        assert(units[k as int] == nal.bytes@);
        match put_length(&mut out, nal.bytes.len(), length_size, nal.start) {
            Ok(()) => {},
            Err(e) => {
                return Err(e);
            },
        }
        bytes::append(&mut out, nal.bytes);
        proof {
            lemma_prefixed_push(units.take(k as int), nal.bytes@, n);
            assert(units.take(k + 1) =~= units.take(k as int).push(nal.bytes@));
        }
        k += 1;
    }
    assert(units.take(k as int) =~= units);
    Ok(out)
}

/// The NAL units of a length-prefixed sample.
pub fn split_length_prefixed(sample: &[u8], length_size: usize) -> (nals: Result<
    Vec<&[u8]>,
    Error,
>)
    ensures
        slices_result(nals) == sample_nals(sample@, length_size as int),
{
    match check_length_size(length_size) {
        Ok(()) => {},
        Err(e) => {
            return Err(e);
        },
    }
    let ghost n = length_size as nat;
    let mut out: Vec<&[u8]> = Vec::new();
    let mut at: usize = 0;
    proof {
        match sample_from(sample@, n, 0) {
            Ok(rest) => {
                assert(bytes::slice_contents(out@) + rest =~= rest);
            },
            Err(e) => {},
        }
    }
    while at < sample.len()
        invariant
            at <= sample.len(),
            width_ok(length_size as int),
            n == length_size as nat,
            sample_from(sample@, n, 0) == (match sample_from(sample@, n, at as int) {
                Ok(rest) => Ok::<Seq<Seq<u8>>, Error>(bytes::slice_contents(out@) + rest),
                Err(e) => Err(e),
            }),
        decreases sample.len() - at,
    {
        if sample.len() - at < length_size {
            return Err(Error::Malformed { what: "the sample ends inside a NAL length", at });
        }
        let start: usize = at + length_size;
        let length: usize = read_length(sample, at, length_size);
        if sample.len() - start < length {
            return Err(Error::Malformed { what: "a NAL overruns the sample", at: start });
        }
        let end: usize = start + length;
        let ghost before = out@;
        out.push(slice_subrange(sample, start, end));
        proof {
            let nal = sample@.subrange(start as int, end as int);
            match sample_from(sample@, n, end as int) {
                Ok(rest) => {
                    assert(bytes::slice_contents(before) + (seq![nal] + rest)
                        =~= bytes::slice_contents(out@) + rest);
                },
                Err(e) => {},
            }
        }
        at = end;
    }
    assert(bytes::slice_contents(out@) + Seq::empty() =~= bytes::slice_contents(out@));
    Ok(out)
}

/// The length at `at`.
fn read_length(sample: &[u8], at: usize, length_size: usize) -> (length: usize)
    requires
        width_ok(length_size as int),
        at + length_size <= sample.len(),
    ensures
        length == bytes::be_value(sample@.subrange(at as int, at + length_size)),
{
    let mut value: usize = 0;
    let mut i: usize = 0;
    proof {
        reveal_with_fuel(bytes::capacity, 5);
        assert(sample@.subrange(at as int, at as int) =~= Seq::empty());
    }
    while i < length_size
        invariant
            i <= length_size,
            width_ok(length_size as int),
            at + length_size <= sample.len(),
            value == bytes::be_value(sample@.subrange(at as int, at + i)),
        decreases length_size - i,
    {
        proof {
            reveal_with_fuel(bytes::capacity, 5);
            let so_far = sample@.subrange(at as int, at + i);
            bytes::lemma_be_value_bound(so_far);
            assert(so_far.len() == i);
            assert(sample@.subrange(at as int, at + i + 1).drop_last() =~= so_far);
        }
        value = value * 256 + sample[at + i] as usize;
        i += 1;
    }
    value
}

/// One length-prefixed sample back as Annex B, 4-byte start codes.
pub fn length_prefixed_to_annexb(sample: &[u8], length_size: usize) -> (out: Result<Vec<u8>, Error>)
    ensures
        bytes_result(out) == (match sample_nals(sample@, length_size as int) {
            Ok(nals) => Ok::<Seq<u8>, Error>(start_coded(nals)),
            Err(e) => Err(e),
        }),
{
    let nals: Vec<&[u8]> = match split_length_prefixed(sample, length_size) {
        Ok(nals) => nals,
        Err(e) => {
            return Err(e);
        },
    };
    let ghost all = bytes::slice_contents(nals@);
    let mut out: Vec<u8> = Vec::with_capacity(sample.len());
    let mut k: usize = 0;
    assert(all.take(0) =~= Seq::empty());
    while k < nals.len()
        invariant
            k <= nals.len(),
            all == bytes::slice_contents(nals@),
            out@ == start_coded(all.take(k as int)),
        decreases nals.len() - k,
    {
        bytes::append(&mut out, &START_CODE);
        bytes::append(&mut out, nals[k]);
        proof {
            lemma_start_coded_push(all.take(k as int), all[k as int]);
            assert(all.take(k + 1) =~= all.take(k as int).push(all[k as int]));
        }
        k += 1;
    }
    assert(all.take(k as int) =~= all);
    Ok(out)
}

} // verus!
