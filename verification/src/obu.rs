//! AV1 open bitstream units, AV1 specification sections 5.3 and 7.5:
//! where each OBU begins and ends, where a temporal unit begins, and a
//! metadata OBU carrying a payload of the caller's own.
//!
//! Only the low-overhead bitstream format of section 5 is handled,
//! which is the one MP4 and WebM samples hold and the one ffmpeg's `obu`
//! muxer writes. The length-delimited Annex B format of AV1 is a
//! different framing around the same OBUs and nothing here would change
//! but the outer lengths.
//!
//! Two choices AV1 makes, and this module follows:
//!
//! - `metadata_type` 6 to 31 is left for unregistered private use, so a
//!   format of one's own needs no registration and the UUID inside the
//!   payload tells its OBUs from anyone else's.
//! - `open_bitstream_unit` calls `trailing_bits` for every OBU that is
//!   not a tile group, tile list or frame, so a metadata OBU ends with
//!   a set bit and zeroes to the byte: one 0x80 byte here, counted in
//!   `obu_size`. Some writers leave it off, so a reader here accepts an
//!   OBU without it.

use vstd::prelude::*;
use vstd::slice::slice_subrange;
use crate::annexb;
use crate::bytes;
use crate::marks;
use crate::obu_byte_laws;
use crate::Error;

verus! {

/// The OBU type of metadata.
pub const OBU_METADATA: u8 = 5;

/// The OBU type that opens a temporal unit.
pub const OBU_TEMPORAL_DELIMITER: u8 = 2;

/// The OBU type of a sequence header.
pub const OBU_SEQUENCE_HEADER: u8 = 1;

/// The OBU type of a frame header.
pub const OBU_FRAME_HEADER: u8 = 3;

/// The OBU type of a tile group.
pub const OBU_TILE_GROUP: u8 = 4;

/// The OBU type of a frame: a frame header and its tile group in one.
pub const OBU_FRAME: u8 = 6;

/// The OBU type of a repeated frame header.
pub const OBU_REDUNDANT_FRAME_HEADER: u8 = 7;

/// One OBU's place in a stream.
#[derive(Clone, Copy, Debug, PartialEq, Eq)]
pub struct ObuRef<'a> {
    pub kind: u8,
    /// Where the OBU header begins.
    pub start: usize,
    /// Where the OBU ends.
    pub end: usize,
    /// The bytes after the header and the size field.
    pub payload: &'a [u8],
    /// Whether the header carried its extension byte.
    pub has_extension: bool,
}

/// An OBU's place in a stream, as numbers and a byte string.
pub struct Obu {
    pub kind: u8,
    pub start: int,
    pub end: int,
    pub payload: Seq<u8>,
    pub has_extension: bool,
}

impl<'a> View for ObuRef<'a> {
    type V = Obu;

    open spec fn view(&self) -> Obu {
        Obu {
            kind: self.kind,
            start: self.start as int,
            end: self.end as int,
            payload: self.payload@,
            has_extension: self.has_extension,
        }
    }
}

/// The places of a list of OBUs.
pub open spec fn obu_places(list: Seq<ObuRef<'_>>) -> Seq<Obu> {
    Seq::new(list.len(), |i: int| list[i]@)
}

/// What a scan returned.
pub open spec fn obus_result(r: Result<Vec<ObuRef<'_>>, Error>) -> Result<Seq<Obu>, Error> {
    match r {
        Ok(v) => Ok(obu_places(v@)),
        Err(e) => Err(e),
    }
}

/// Whether a list of OBUs tiles the bytes from `from` to `to`: the first
/// starts where they do, each ends where the next starts, the last ends
/// where they do.
pub open spec fn tiled(list: Seq<Obu>, from: int, to: int) -> bool {
    &&& list.len() > 0 ==> list[0].start == from && list.last().end == to
    &&& forall|k: int|
        0 <= k < list.len() ==> from <= (#[trigger] list[k]).start < list[k].end <= to
    &&& forall|j: int, k: int|
        #![trigger list[j], list[k]]
        0 <= j && k == j + 1 && k < list.len() ==> list[j].end == list[k].start
}

/// What the bytes read as a leb128 number are: the number and how many
/// bytes it took, or bytes that end before it does, or a number that
/// does not end in the bytes it may take.
pub enum Leb {
    Value(nat, nat),
    Short,
    Long,
}

/// The leb128 number that `s` opens with, in at most `room` bytes: seven
/// bits to the byte, the least significant first, the top bit set on
/// every byte but the last.
pub open spec fn leb(s: Seq<u8>, room: nat) -> Leb
    decreases room,
{
    if room == 0 {
        Leb::Long
    } else if s.len() == 0 {
        Leb::Short
    } else if s[0] < 128 {
        Leb::Value(s[0] as nat, 1)
    } else {
        match leb(s.drop_first(), (room - 1) as nat) {
            Leb::Value(value, n) => Leb::Value((s[0] - 128 + 128 * value) as nat, n + 1),
            other => other,
        }
    }
}

/// What `s` holds from `at` on, which is nothing when it ends before.
pub open spec fn tail(s: Seq<u8>, at: int) -> Seq<u8> {
    if 0 <= at <= s.len() {
        s.skip(at)
    } else {
        Seq::empty()
    }
}

/// What reading a leb128 number at `at` answers.
pub open spec fn leb_read(s: Seq<u8>, at: int) -> Result<(u64, usize), Error> {
    match leb(tail(s, at), 8) {
        Leb::Value(value, n) => Ok((value as u64, (at + n) as usize)),
        Leb::Short => Err(Error::Truncated { at: at as usize }),
        Leb::Long => Err(
            Error::Malformed { what: "a leb128 longer than eight bytes", at: at as usize },
        ),
    }
}

/// A number as a leb128, in as few bytes as it needs.
pub open spec fn leb_bytes(value: nat) -> Seq<u8>
    decreases value,
{
    if value < 128 {
        seq![value as u8]
    } else {
        seq![(128 + value % 128) as u8] + leb_bytes(value / 128)
    }
}

/// `128` to the power `n`: one past the largest number `n` leb128 bytes
/// spell.
pub open spec fn leb_capacity(n: nat) -> nat
    decreases n,
{
    if n == 0 {
        1
    } else {
        128 * leb_capacity((n - 1) as nat)
    }
}

/// A leb128 number takes at least one byte, no more than it may and no
/// more than there are, and fits the bits of those bytes.
pub proof fn lemma_leb(s: Seq<u8>, room: nat)
    ensures
        leb(s, room) matches Leb::Value(value, n) ==> 1 <= n <= room && n <= s.len() && value
            < leb_capacity(n) && leb_capacity(n) <= leb_capacity(room),
    decreases room,
{
    if room > 0 && s.len() > 0 {
        lemma_leb(s.drop_first(), (room - 1) as nat);
        lemma_leb_capacity((room - 1) as nat);
        assert(leb_capacity(1) == 128) by {
            reveal_with_fuel(leb_capacity, 2);
        }
    }
}

/// One byte more makes room for larger numbers.
pub proof fn lemma_leb_capacity(n: nat)
    ensures
        leb_capacity(n) >= 1,
    decreases n,
{
    if n > 0 {
        lemma_leb_capacity((n - 1) as nat);
    }
}

/// Eight leb128 bytes hold 56 bits.
pub proof fn lemma_leb_capacity_is(n: nat)
    requires
        n <= 8,
    ensures
        leb_capacity(8) == 0x100_0000_0000_0000,
        leb_capacity(n) <= 0x100_0000_0000_0000,
    decreases 8 - n,
{
    reveal_with_fuel(leb_capacity, 9);
}

/// One leb128 value and where it ended.
///
/// AV1 reads at most eight bytes and this refuses a ninth rather than
/// reading on.
pub fn leb128(bytes: &[u8], at: usize) -> (out: Result<(u64, usize), Error>)
    ensures
        out == leb_read(bytes@, at as int),
        out matches Ok((value, next)) ==> leb(tail(bytes@, at as int), 8) == Leb::Value(
            value as nat,
            (next - at) as nat,
        ) && at < next <= bytes@.len() && value < 0x100_0000_0000_0000,
{
    let mut next: usize = at;
    let mut value: u64 = 0;
    let mut scale: u64 = 1;
    let mut room: usize = 8;
    let ghost whole = leb(tail(bytes@, at as int), 8);
    while room > 0
        invariant
            at <= next,
            next == at + (8 - room),
            room <= 8,
            at > bytes@.len() ==> room == 8,
            at <= bytes@.len() ==> next <= bytes@.len(),
            whole == leb(tail(bytes@, at as int), 8),
            whole == (match leb(tail(bytes@, next as int), room as nat) {
                Leb::Value(v, n) => Leb::Value(
                    (value + scale * v) as nat,
                    (next - at + n) as nat,
                ),
                other => other,
            }),
            scale == leb_capacity((8 - room) as nat),
            value < scale,
        decreases room,
    {
        let ghost rest = tail(bytes@, next as int);
        proof {
            lemma_leb_capacity_is((8 - room) as nat);
            lemma_leb_capacity_is((9 - room) as nat);
            lemma_leb(tail(bytes@, at as int), 8);
        }
        if next >= bytes.len() {
            assert(rest =~= Seq::empty());
            return Err(Error::Truncated { at });
        }
        let byte: u8 = bytes[next];
        assert(rest[0] == byte);
        assert(rest.drop_first() =~= tail(bytes@, next + 1));
        let bits: u64 = (byte % 128) as u64;
        assert(scale * bits <= scale * 127) by (nonlinear_arith)
            requires
                bits <= 127,
        ;
        value = value + scale * bits;
        next += 1;
        if byte < 128 {
            assert(scale * (byte as nat) == scale * bits);
            return Ok((value, next));
        }
        proof {
            let behind = leb(tail(bytes@, next as int), (room - 1) as nat);
            if let Leb::Value(v, n) = behind {
                assert(scale * (bits + 128 * v) == scale * bits + (scale * 128) * v)
                    by (nonlinear_arith);
                assert(byte - 128 == bits);
            }
        }
        scale = scale * 128;
        room -= 1;
    }
    Err(Error::Malformed { what: "a leb128 longer than eight bytes", at })
}

/// Appends a leb128, in as few bytes as the value needs.
pub fn put_leb128(out: &mut Vec<u8>, value: u64)
    ensures
        final(out)@ == old(out)@ + leb_bytes(value as nat),
{
    let ghost before = out@;
    let ghost number = value as nat;
    let mut value: u64 = value;
    while value >= 128
        invariant
            before + leb_bytes(number) == out@ + leb_bytes(value as nat),
        decreases value,
    {
        let ghost so_far = out@;
        let byte: u8 = (value % 128) as u8 + 128;
        out.push(byte);
        assert(so_far + (seq![byte] + leb_bytes((value / 128) as nat)) =~= out@ + leb_bytes(
            (value / 128) as nat,
        ));
        value = value / 128;
    }
    let ghost so_far = out@;
    out.push(value as u8);
    assert(so_far + leb_bytes(value as nat) =~= out@);
}

/// Whether the header at `at` says that a size field follows.
pub open spec fn has_size(s: Seq<u8>, at: int) -> bool {
    s[at] & 0x02 != 0
}

/// Where the bytes behind the header at `at` begin, its extension byte
/// included.
pub open spec fn header_end(s: Seq<u8>, at: int) -> int {
    if s[at] & 0x04 != 0 {
        at + 2
    } else {
        at + 1
    }
}

/// The OBU whose header is at `at`, with its payload from `from` to `to`.
pub open spec fn obu_between(s: Seq<u8>, at: int, from: int, to: int) -> Obu {
    Obu {
        kind: s[at] >> 3 & 0x0f,
        start: at,
        end: to,
        payload: s.subrange(from, to),
        has_extension: s[at] & 0x04 != 0,
    }
}

/// The OBU at `at`: as long as its size field says or, without one, to
/// the end of the bytes.
pub open spec fn obu_at(s: Seq<u8>, at: int) -> Result<Obu, Error> {
    let from = header_end(s, at);
    if s[at] & 0x80 != 0 {
        Err(Error::Malformed { what: "an OBU with its forbidden bit set", at: at as usize })
    } else if from > s.len() {
        Err(Error::Truncated { at: at as usize })
    } else if !has_size(s, at) {
        Ok(obu_between(s, at, from, s.len() as int))
    } else {
        match leb(s.skip(from), 8) {
            Leb::Value(size, n) => if from + n + size > usize::MAX {
                Err(Error::TooLarge { at: at as usize })
            } else if from + n + size > s.len() {
                Err(Error::Truncated { at: at as usize })
            } else {
                Ok(obu_between(s, at, from + n, from + n + size))
            },
            Leb::Short => Err(Error::Truncated { at: from as usize }),
            Leb::Long => Err(
                Error::Malformed { what: "a leb128 longer than eight bytes", at: from as usize },
            ),
        }
    }
}

/// The OBUs from `at` on, one behind the other to the end of the bytes.
pub open spec fn obus_from(s: Seq<u8>, at: int) -> Result<Seq<Obu>, Error>
    decreases s.len() - at,
{
    if at >= s.len() {
        Ok(Seq::empty())
    } else {
        match obu_at(s, at) {
            Ok(obu) => match obus_from(s, obu.end) {
                Ok(rest) => Ok(seq![obu] + rest),
                Err(e) => Err(e),
            },
            Err(e) => Err(e),
        }
    }
}

/// The OBUs of a stream.
pub open spec fn obus(s: Seq<u8>) -> Result<Seq<Obu>, Error> {
    obus_from(s, 0)
}

/// An OBU lies inside the bytes it was read from.
pub proof fn lemma_obu_at(s: Seq<u8>, at: int)
    requires
        0 <= at < s.len(),
    ensures
        obu_at(s, at) matches Ok(obu) ==> obu.start == at && at < obu.end <= s.len() && (
        obu.end < s.len() ==> has_size(s, at)),
{
    lemma_leb(s.skip(header_end(s, at)), 8);
}

/// The OBU at `at`.
pub(crate) fn read_obu(bytes: &[u8], at: usize) -> (out: Result<ObuRef<'_>, Error>)
    requires
        at < bytes@.len(),
    ensures
        match out {
            Ok(obu) => obu_at(bytes@, at as int) == Ok::<Obu, Error>(obu@),
            Err(e) => obu_at(bytes@, at as int) == Err::<Obu, Error>(e),
        },
{
    let header: u8 = bytes[at];
    if header & 0x80 != 0 {
        return Err(Error::Malformed { what: "an OBU with its forbidden bit set", at });
    }
    let kind: u8 = header >> 3 & 0x0f;
    let has_extension: bool = header & 0x04 != 0;
    let mut from: usize = at + 1;
    if has_extension {
        if from >= bytes.len() {
            return Err(Error::Truncated { at });
        }
        from += 1;
    }
    if header & 0x02 == 0 {
        let payload: &[u8] = slice_subrange(bytes, from, bytes.len());
        return Ok(ObuRef { kind, start: at, end: bytes.len(), payload, has_extension });
    }
    proof {
        lemma_leb(bytes@.skip(from as int), 8);
        lemma_leb_capacity_is(8);
    }
    let (size, next): (u64, usize) = match leb128(bytes, from) {
        Ok(found) => found,
        Err(e) => {
            return Err(e);
        },
    };
    if size > (usize::MAX - next) as u64 {
        return Err(Error::TooLarge { at });
    }
    if size > (bytes.len() - next) as u64 {
        return Err(Error::Truncated { at });
    }
    let end: usize = next + size as usize;
    let payload: &[u8] = slice_subrange(bytes, next, end);
    Ok(ObuRef { kind, start: at, end, payload, has_extension })
}

/// The OBUs of a low-overhead stream, temporal unit or sample.
///
/// An OBU without a size field runs to the end of the bytes, which is
/// what AV1 says and what makes a stream of exactly one such OBU
/// readable.
pub fn scan_obus(bytes: &[u8]) -> (out: Result<Vec<ObuRef<'_>>, Error>)
    ensures
        obus_result(out) == obus(bytes@),
        out matches Ok(list) ==> tiled(obu_places(list@), 0, bytes@.len() as int),
{
    let mut out: Vec<ObuRef<'_>> = Vec::new();
    let mut at: usize = 0;
    let ghost all = obus(bytes@);
    proof {
        if let Ok(list) = all {
            assert(obu_places(out@) + list =~= list);
        }
    }
    while at < bytes.len()
        invariant
            at <= bytes@.len(),
            all == obus(bytes@),
            all == (match obus_from(bytes@, at as int) {
                Ok(rest) => Ok::<Seq<Obu>, Error>(obu_places(out@) + rest),
                Err(e) => Err(e),
            }),
        decreases bytes.len() - at,
    {
        proof {
            lemma_obu_at(bytes@, at as int);
        }
        let obu: ObuRef<'_> = match read_obu(bytes, at) {
            Ok(obu) => obu,
            Err(e) => {
                return Err(e);
            },
        };
        let ghost before = out@;
        out.push(obu);
        at = obu.end;
        proof {
            if let Ok(rest) = obus_from(bytes@, at as int) {
                assert(obu_places(before) + (seq![obu@] + rest) =~= obu_places(out@) + rest);
            }
        }
    }
    proof {
        assert(obu_places(out@) + Seq::empty() =~= obu_places(out@));
        lemma_obus(bytes@, 0);
    }
    Ok(out)
}

/// OBUs tile the bytes they were read from. Every one that another
/// follows carries its size.
pub proof fn lemma_obus(s: Seq<u8>, at: int)
    requires
        0 <= at <= s.len(),
    ensures
        obus_from(s, at) matches Ok(list) ==> {
            &&& tiled(list, at, s.len() as int)
            &&& list.len() == 0 <==> at == s.len()
            &&& forall|k: int|
                0 <= k < list.len() ==> obu_at(s, (#[trigger] list[k]).start) == Ok::<Obu, Error>(
                    list[k],
                )
            &&& forall|k: int|
                0 <= k < list.len() - 1 ==> has_size(s, (#[trigger] list[k]).start)
        },
    decreases s.len() - at,
{
    if at < s.len() && obus_from(s, at) is Ok {
        lemma_obu_at(s, at);
        let obu = obu_at(s, at)->Ok_0;
        let rest = obus_from(s, obu.end)->Ok_0;
        let list = obus_from(s, at)->Ok_0;
        lemma_obus(s, obu.end);
        assert(list =~= seq![obu] + rest);
        lemma_tiled_front(obu, rest, s.len() as int);
        assert forall|k: int| 0 <= k < list.len() implies obu_at(s, (#[trigger] list[k]).start)
            == Ok::<Obu, Error>(list[k]) by {
            if k > 0 {
                assert(list[k] == rest[k - 1]);
            }
        }
        assert forall|k: int| 0 <= k < list.len() - 1 implies has_size(
            s,
            (#[trigger] list[k]).start,
        ) by {
            if k > 0 {
                assert(list[k] == rest[k - 1]);
            }
        }
    }
}

/// One OBU before others that begin where it ends.
pub proof fn lemma_tiled_front(first: Obu, rest: Seq<Obu>, to: int)
    requires
        0 <= first.start < first.end <= to,
        tiled(rest, first.end, to),
        rest.len() == 0 ==> first.end == to,
    ensures
        tiled(seq![first] + rest, first.start, to),
{
    let list = seq![first] + rest;
    assert forall|k: int| 0 <= k < list.len() implies first.start <= (#[trigger] list[k]).start
        < list[k].end <= to by {
        if k > 0 {
            assert(list[k] == rest[k - 1]);
        }
    }
    assert forall|j: int, k: int|
        #![trigger list[j], list[k]]
        0 <= j && k == j + 1 && k < list.len() implies list[j].end == list[k].start by {
        assert(list[k] == rest[k - 1]);
        if j > 0 {
            assert(list[j] == rest[j - 1]);
        }
    }
    if rest.len() > 0 {
        assert(list.last() == rest.last());
    }
}

/// The body of a metadata OBU: its type, the payload, the trailing bits.
pub open spec fn metadata_body(metadata_type: nat, payload: Seq<u8>) -> Seq<u8> {
    (leb_bytes(metadata_type) + payload).push(0x80)
}

/// A payload as a metadata OBU.
pub open spec fn metadata_obu(metadata_type: nat, payload: Seq<u8>) -> Seq<u8> {
    let body = metadata_body(metadata_type, payload);
    seq![0x2au8] + leb_bytes(body.len()) + body
}

/// A payload as a metadata OBU of `metadata_type`, ready to splice into
/// a temporal unit.
pub fn write_metadata(metadata_type: u64, payload: &[u8]) -> (out: Vec<u8>)
    ensures
        out@ == metadata_obu(metadata_type as nat, payload@),
{
    let mut body: Vec<u8> = Vec::new();
    put_leb128(&mut body, metadata_type);
    bytes::append(&mut body, payload);
    // trailing_bits: a set bit, then zeroes to the byte.
    body.push(0x80);
    assert(body@ =~= metadata_body(metadata_type as nat, payload@));
    let mut out: Vec<u8> = Vec::new();
    // Forbidden bit 0, type OBU_METADATA, no extension, size field
    // present, reserved bit 0.
    assert(OBU_METADATA << 3 | 0x02 == 0x2au8) by (bit_vector);
    out.push(OBU_METADATA << 3 | 0x02);
    put_leb128(&mut out, body.len() as u64);
    bytes::append(&mut out, body.as_slice());
    assert(out@ =~= metadata_obu(metadata_type as nat, payload@));
    out
}

/// The payload of a metadata OBU of `metadata_type`, the trailing bits
/// off.
pub open spec fn metadata_in(obu: Obu, metadata_type: nat) -> Option<Seq<u8>> {
    match leb(obu.payload, 8) {
        Leb::Value(kind, n) => if obu.kind == OBU_METADATA && kind == metadata_type {
            let body = obu.payload.skip(n as int);
            Some(body.take(bytes::closed_end(body)))
        } else {
            None
        },
        _ => None,
    }
}

/// The payload of one OBU, if it is a metadata OBU of `metadata_type`.
///
/// The trailing bits come back off: the zero padding, then the byte
/// holding the set bit. A writer that left them off loses nothing,
/// because then no such byte is there and the last byte is the payload's
/// own. The one payload that cannot be told from one with trailing bits
/// is one that itself ends in `80` and zeroes.
pub fn metadata_payload<'a>(obu: &ObuRef<'a>, metadata_type: u64) -> (out: Option<&'a [u8]>)
    ensures
        match out {
            Some(payload) => metadata_in(obu@, metadata_type as nat) == Some(payload@),
            None => metadata_in(obu@, metadata_type as nat) is None,
        },
{
    proof {
        assert(obu.payload@.skip(0) =~= obu.payload@);
    }
    if obu.kind != OBU_METADATA {
        return None;
    }
    let (kind, at): (u64, usize) = match leb128(obu.payload, 0) {
        Ok(found) => found,
        Err(_) => {
            return None;
        },
    };
    if kind != metadata_type {
        return None;
    }
    let body: &'a [u8] = slice_subrange(obu.payload, at, obu.payload.len());
    let end: usize = bytes::find_closed_end(body);
    let payload: &'a [u8] = slice_subrange(body, 0, end);
    assert(body@ =~= obu.payload@.skip(at as int));
    assert(payload@ =~= body@.take(end as int));
    Some(payload)
}

/// The metadata payloads of `metadata_type` in a list of OBUs.
pub open spec fn metadata_among(list: Seq<Obu>, metadata_type: nat) -> Seq<Seq<u8>>
    decreases list.len(),
{
    if list.len() == 0 {
        Seq::empty()
    } else {
        let before = metadata_among(list.drop_last(), metadata_type);
        match metadata_in(list.last(), metadata_type) {
            Some(payload) => before.push(payload),
            None => before,
        }
    }
}

/// The metadata payloads of `metadata_type` in a stream. Bytes that do
/// not parse hold none.
pub open spec fn metadata_found(s: Seq<u8>, metadata_type: nat) -> Seq<Seq<u8>> {
    match obus(s) {
        Ok(list) => metadata_among(list, metadata_type),
        Err(_) => Seq::empty(),
    }
}

/// The payloads that open with `uuid`.
pub open spec fn opened_by(list: Seq<Seq<u8>>, uuid: Seq<u8>) -> Seq<Seq<u8>>
    decreases list.len(),
{
    if list.len() == 0 {
        Seq::empty()
    } else if bytes::opens_with(list.last(), uuid) {
        opened_by(list.drop_last(), uuid).push(list.last())
    } else {
        opened_by(list.drop_last(), uuid)
    }
}

/// Every metadata payload of `metadata_type` in a low-overhead stream,
/// temporal unit or sample. Bytes that do not parse hold none.
pub fn metadata_of_type(bytes: &[u8], metadata_type: u64) -> (out: Vec<Vec<u8>>)
    ensures
        bytes::contents(out@) == metadata_found(bytes@, metadata_type as nat),
{
    let mut out: Vec<Vec<u8>> = Vec::new();
    let obus: Vec<ObuRef<'_>> = match scan_obus(bytes) {
        Ok(obus) => obus,
        Err(_) => {
            assert(bytes::contents(out@) =~= Seq::empty());
            return out;
        },
    };
    let ghost list = obu_places(obus@);
    let mut k: usize = 0;
    assert(list.take(0) =~= Seq::empty());
    assert(bytes::contents(out@) =~= metadata_among(list.take(0), metadata_type as nat));
    while k < obus.len()
        invariant
            k <= obus@.len(),
            list == obu_places(obus@),
            bytes::contents(out@) == metadata_among(list.take(k as int), metadata_type as nat),
        decreases obus.len() - k,
    {
        let ghost before = out@;
        assert(list[k as int] == obus@[k as int]@);
        assert(list.take(k + 1).drop_last() =~= list.take(k as int));
        match metadata_payload(&obus[k], metadata_type) {
            Some(payload) => {
                out.push(bytes::copy_range(payload, 0, payload.len()));
                assert(payload@.subrange(0, payload@.len() as int) =~= payload@);
                assert(bytes::contents(out@) =~= bytes::contents(before).push(payload@));
            },
            None => {},
        }
        k += 1;
    }
    assert(list.take(k as int) =~= list);
    out
}

/// The same, narrowed to the payloads that open with `uuid`: the AV1
/// spelling of a `user_data_unregistered` SEI.
pub fn user_data(bytes: &[u8], metadata_type: u64, uuid: &[u8; 16]) -> (out: Vec<Vec<u8>>)
    ensures
        bytes::contents(out@) == opened_by(
            metadata_found(bytes@, metadata_type as nat),
            uuid@,
        ),
{
    let found: Vec<Vec<u8>> = metadata_of_type(bytes, metadata_type);
    let ghost list = bytes::contents(found@);
    let mut out: Vec<Vec<u8>> = Vec::new();
    let mut k: usize = 0;
    assert(list.take(0) =~= Seq::empty());
    assert(bytes::contents(out@) =~= opened_by(list.take(0), uuid@));
    while k < found.len()
        invariant
            k <= found@.len(),
            list == bytes::contents(found@),
            bytes::contents(out@) == opened_by(list.take(k as int), uuid@),
        decreases found.len() - k,
    {
        let ghost before = out@;
        let payload: &Vec<u8> = &found[k];
        assert(list[k as int] == payload@);
        assert(list.take(k + 1).drop_last() =~= list.take(k as int));
        if bytes::starts_with_uuid(payload.as_slice(), uuid) {
            out.push(bytes::copy_range(payload.as_slice(), 0, payload.len()));
            assert(payload@.subrange(0, payload@.len() as int) =~= payload@);
            assert(bytes::contents(out@) =~= bytes::contents(before).push(payload@));
        }
        k += 1;
    }
    assert(list.take(k as int) =~= list);
    out
}

/// One temporal unit of a low-overhead stream.
#[derive(Clone, Copy, Debug, PartialEq, Eq)]
pub struct TemporalUnit {
    pub start: usize,
    pub end: usize,
    /// Where a metadata OBU goes: before the first frame header, which
    /// is after the delimiter, the sequence header and any metadata
    /// already there.
    pub insert_at: usize,
    /// Whether the temporal unit carries a sequence header. AV1 writers
    /// repeat one before each key frame, so this is as close to a sync
    /// sample as a reader gets without decoding the frame header.
    pub has_sequence_header: bool,
}

/// A temporal unit's place in a stream, as numbers.
pub struct TuPlace {
    pub start: int,
    pub end: int,
    pub insert_at: int,
    pub has_sequence_header: bool,
}

impl View for TemporalUnit {
    type V = TuPlace;

    open spec fn view(&self) -> TuPlace {
        TuPlace {
            start: self.start as int,
            end: self.end as int,
            insert_at: self.insert_at as int,
            has_sequence_header: self.has_sequence_header,
        }
    }
}

/// The places of a list of temporal units.
pub open spec fn tu_places(list: Seq<TemporalUnit>) -> Seq<TuPlace> {
    Seq::new(list.len(), |i: int| list[i]@)
}

/// What a function that returns temporal units returned.
pub open spec fn units_result(r: Result<Vec<TemporalUnit>, Error>) -> Result<
    Seq<TuPlace>,
    Error,
> {
    match r {
        Ok(v) => Ok(tu_places(v@)),
        Err(e) => Err(e),
    }
}

/// Whether an OBU type is part of a frame.
pub open spec fn frame_kind(kind: u8) -> bool {
    kind == OBU_FRAME_HEADER || kind == OBU_FRAME || kind == OBU_REDUNDANT_FRAME_HEADER || kind
        == OBU_TILE_GROUP
}

/// Whether OBU `i` opens a temporal unit: the first does, and so does
/// every temporal delimiter.
pub open spec fn is_opening(list: Seq<Obu>) -> spec_fn(int) -> bool {
    |i: int| i == 0 || list[i].kind == OBU_TEMPORAL_DELIMITER
}

/// The OBUs that open a temporal unit, in order.
pub open spec fn openings(list: Seq<Obu>) -> Seq<int> {
    marks::marks(is_opening(list), list.len() as int)
}

/// The first OBU of a frame from OBU `i` on and before OBU `j`, or `j`.
pub open spec fn first_frame(list: Seq<Obu>, i: int, j: int) -> int
    decreases j - i,
{
    if i >= j {
        j
    } else if frame_kind(list[i].kind) {
        i
    } else {
        first_frame(list, i + 1, j)
    }
}

/// Whether a sequence header is among the OBUs from `i` to `j`.
pub open spec fn sequence_header_in(list: Seq<Obu>, i: int, j: int) -> bool {
    exists|k: int| i <= k < j && (#[trigger] list[k]).kind == OBU_SEQUENCE_HEADER
}

/// The temporal unit made of the OBUs from `i` to `j` of a stream of
/// `len` bytes.
pub open spec fn unit_between(list: Seq<Obu>, i: int, j: int, len: int) -> TuPlace {
    let frame = first_frame(list, i, j);
    let end = if j < list.len() {
        list[j].start
    } else {
        len
    };
    TuPlace {
        start: list[i].start,
        end,
        insert_at: if frame < j {
            list[frame].start
        } else {
            end
        },
        has_sequence_header: sequence_header_in(list, i, j),
    }
}

/// The temporal units of a list of OBUs.
pub open spec fn units_of(list: Seq<Obu>, len: int) -> Seq<TuPlace> {
    let open = openings(list);
    Seq::new(
        open.len(),
        |k: int| unit_between(list, open[k], marks::next_of(open, k, list.len() as int), len),
    )
}

/// The temporal units of a stream.
pub open spec fn units(s: Seq<u8>) -> Result<Seq<TuPlace>, Error> {
    match obus(s) {
        Ok(list) => Ok(units_of(list, s.len() as int)),
        Err(e) => Err(e),
    }
}

/// A stream with `obu` put where its first temporal unit takes one.
pub open spec fn spliced(s: Seq<u8>, obu: Seq<u8>) -> Result<Seq<u8>, Error> {
    match units(s) {
        Ok(found) => if found.len() == 0 {
            Err(Error::Malformed { what: "the bytes hold no temporal unit", at: 0 })
        } else {
            Ok(s.take(found[0].insert_at) + obu + s.skip(found[0].insert_at))
        },
        Err(e) => Err(e),
    }
}

/// The first OBU of a frame is one, and none before it is.
pub proof fn lemma_first_frame(list: Seq<Obu>, i: int, j: int)
    requires
        i <= j,
    ensures
        i <= first_frame(list, i, j) <= j,
        forall|k: int| i <= k < first_frame(list, i, j) ==> !frame_kind((#[trigger] list[k]).kind),
        first_frame(list, i, j) < j ==> frame_kind(list[first_frame(list, i, j)].kind),
    decreases j - i,
{
    if i < j && !frame_kind(list[i].kind) {
        lemma_first_frame(list, i + 1, j);
    }
}

/// OBUs that tile bytes start in order.
pub proof fn lemma_starts_in_order(list: Seq<Obu>, from: int, to: int, j: int, k: int)
    requires
        tiled(list, from, to),
        0 <= j < k < list.len(),
    ensures
        list[j].end <= list[k].start,
    decreases k - j,
{
    assert(list[j].end == list[j + 1].start);
    if j + 1 < k {
        lemma_starts_in_order(list, from, to, j + 1, k);
    }
}

/// Whether temporal units tile a stream of `to` bytes, each with its
/// place for a metadata OBU inside it.
pub open spec fn units_tiled(list: Seq<TuPlace>, to: int) -> bool {
    &&& list.len() > 0 ==> list[0].start == 0 && list.last().end == to
    &&& forall|k: int|
        0 <= k < list.len() ==> 0 <= (#[trigger] list[k]).start < list[k].end <= to
            && list[k].start <= list[k].insert_at <= list[k].end
    &&& forall|j: int, k: int|
        #![trigger list[j], list[k]]
        0 <= j && k == j + 1 && k < list.len() ==> list[j].end == list[k].start
}

/// The first OBU opens a temporal unit.
pub proof fn lemma_first_opening(list: Seq<Obu>)
    requires
        list.len() > 0,
    ensures
        openings(list).len() > 0,
        openings(list)[0] == 0,
{
    let open = openings(list);
    marks::lemma_marks(is_opening(list), list.len() as int);
    assert(is_opening(list)(0));
    assert(open.contains(0));
    let z = choose|z: int| 0 <= z < open.len() && open[z] == 0;
    if z > 0 {
        assert(open[0] < open[z]);
    }
}

/// Temporal units tile the stream, and each takes a metadata OBU inside
/// itself.
pub proof fn lemma_units(s: Seq<u8>)
    ensures
        units(s) matches Ok(found) ==> units_tiled(found, s.len() as int) && (found.len() == 0
            <==> s.len() == 0),
{
    if let Ok(list) = obus(s) {
        let n = list.len() as int;
        let len = s.len() as int;
        let open = openings(list);
        let found = units_of(list, len);
        lemma_obus(s, 0);
        marks::lemma_marks(is_opening(list), n);
        if n > 0 {
            lemma_first_opening(list);
        }
        assert forall|k: int| 0 <= k < found.len() implies 0 <= (#[trigger] found[k]).start
            < found[k].end <= len && found[k].start <= found[k].insert_at <= found[k].end by {
            let i = open[k];
            let j = marks::next_of(open, k, n);
            let f = first_frame(list, i, j);
            assert(0 <= i < j <= n);
            lemma_first_frame(list, i, j);
            if j < n {
                lemma_starts_in_order(list, 0, len, i, j);
            }
            if f < j {
                if i < f {
                    lemma_starts_in_order(list, 0, len, i, f);
                }
                if j < n {
                    lemma_starts_in_order(list, 0, len, f, j);
                }
            }
        }
    }
}

/// The OBUs that open a temporal unit.
pub(crate) fn find_openings(obus: &Vec<ObuRef<'_>>) -> (out: Vec<usize>)
    ensures
        marks::as_ints(out@) == openings(obu_places(obus@)),
{
    let ghost list = obu_places(obus@);
    let mut out: Vec<usize> = Vec::new();
    let mut k: usize = 0;
    assert(marks::as_ints(out@) =~= marks::marks(is_opening(list), 0));
    while k < obus.len()
        invariant
            k <= obus@.len(),
            list == obu_places(obus@),
            marks::as_ints(out@) == marks::marks(is_opening(list), k as int),
        decreases obus.len() - k,
    {
        let ghost before = out@;
        let opens: bool = k == 0 || obus[k].kind == OBU_TEMPORAL_DELIMITER;
        assert(opens == is_opening(list)(k as int)) by {
            assert(list[k as int] == obus@[k as int]@);
        }
        if opens {
            out.push(k);
            assert(marks::as_ints(out@) =~= marks::as_ints(before).push(k as int));
        }
        k += 1;
    }
    out
}

/// Whether a sequence header is among the OBUs from `i` to `j`.
pub(crate) fn find_sequence_header(obus: &Vec<ObuRef<'_>>, i: usize, j: usize) -> (r: bool)
    requires
        i <= j <= obus@.len(),
    ensures
        r == sequence_header_in(obu_places(obus@), i as int, j as int),
{
    let ghost list = obu_places(obus@);
    let mut k: usize = i;
    while k < j
        invariant
            i <= k <= j <= obus@.len(),
            list == obu_places(obus@),
            forall|m: int| i <= m < k ==> (#[trigger] list[m]).kind != OBU_SEQUENCE_HEADER,
        decreases j - k,
    {
        assert(list[k as int] == obus@[k as int]@);
        if obus[k].kind == OBU_SEQUENCE_HEADER {
            return true;
        }
        k += 1;
    }
    false
}

/// The temporal unit made of the OBUs from `i` to `j` of `len` bytes.
fn build_unit(obus: &Vec<ObuRef<'_>>, i: usize, j: usize, len: usize) -> (unit: TemporalUnit)
    requires
        i < j <= obus@.len(),
    ensures
        unit@ == unit_between(obu_places(obus@), i as int, j as int, len as int),
{
    let ghost list = obu_places(obus@);
    let mut frame: usize = i;
    while frame < j && !(obus[frame].kind == OBU_FRAME_HEADER || obus[frame].kind == OBU_FRAME
        || obus[frame].kind == OBU_REDUNDANT_FRAME_HEADER || obus[frame].kind == OBU_TILE_GROUP)
        invariant
            i <= frame <= j <= obus@.len(),
            list == obu_places(obus@),
            first_frame(list, i as int, j as int) == first_frame(list, frame as int, j as int),
        decreases j - frame,
    {
        assert(list[frame as int] == obus@[frame as int]@);
        frame += 1;
    }
    if frame < j {
        assert(list[frame as int] == obus@[frame as int]@);
    }
    let end: usize = if j < obus.len() {
        obus[j].start
    } else {
        len
    };
    let insert_at: usize = if frame < j {
        obus[frame].start
    } else {
        end
    };
    let has_sequence_header: bool = find_sequence_header(obus, i, j);
    assert(list[i as int] == obus@[i as int]@);
    if j < obus.len() {
        assert(list[j as int] == obus@[j as int]@);
    }
    TemporalUnit { start: obus[i].start, end, insert_at, has_sequence_header }
}

/// The temporal units of a low-overhead stream.
///
/// A temporal unit opens at a temporal delimiter OBU. Bytes before the
/// first delimiter are one unit of their own, which is what a single
/// MP4 or WebM sample looks like when its muxer dropped the delimiter.
pub fn temporal_units(bytes: &[u8]) -> (out: Result<Vec<TemporalUnit>, Error>)
    ensures
        units_result(out) == units(bytes@),
        out matches Ok(list) ==> units_tiled(tu_places(list@), bytes@.len() as int),
        out matches Ok(list) ==> forall|u: int|
            0 <= u < list@.len() ==> ((#[trigger] list@[u]).has_sequence_header <==> exists|k: int|
                0 <= k < obus(bytes@)->Ok_0.len() && list@[u].start <= (#[trigger] obus(
                    bytes@,
                )->Ok_0[k]).start < list@[u].end && obus(bytes@)->Ok_0[k].kind == 1),
{
    let obus: Vec<ObuRef<'_>> = match scan_obus(bytes) {
        Ok(obus) => obus,
        Err(e) => {
            return Err(e);
        },
    };
    let ghost list = obu_places(obus@);
    let found: Vec<usize> = find_openings(&obus);
    let ghost open = openings(list);
    let mut out: Vec<TemporalUnit> = Vec::with_capacity(found.len());
    let mut k: usize = 0;
    proof {
        marks::lemma_marks(is_opening(list), list.len() as int);
        assert(open.len() == found@.len());
        assert forall|m: int| 0 <= m < found@.len() implies #[trigger] found@[m] == open[m] by {
            assert(marks::as_ints(found@)[m] == found@[m]);
        }
    }
    while k < found.len()
        invariant
            k <= found.len(),
            list == obu_places(obus@),
            open == openings(list),
            open.len() == found@.len(),
            forall|m: int| 0 <= m < found@.len() ==> #[trigger] found@[m] == open[m],
            forall|m: int| 0 <= m < open.len() ==> 0 <= #[trigger] open[m] < list.len(),
            forall|a: int, b: int| 0 <= a < b < open.len() ==> open[a] < open[b],
            out@.len() == k,
            forall|m: int|
                0 <= m < k ==> #[trigger] out@[m]@ == unit_between(
                    list,
                    open[m],
                    marks::next_of(open, m, list.len() as int),
                    bytes@.len() as int,
                ),
        decreases found.len() - k,
    {
        let stop: usize = if k + 1 < found.len() {
            found[k + 1]
        } else {
            obus.len()
        };
        assert(found@[k as int] == open[k as int]);
        assert(stop == marks::next_of(open, k as int, list.len() as int));
        let unit: TemporalUnit = build_unit(&obus, found[k], stop, bytes.len());
        out.push(unit);
        k += 1;
    }
    proof {
        let all = units_of(list, bytes@.len() as int);
        assert(tu_places(out@) =~= all);
        lemma_units(bytes@);
        assert forall|u: int| 0 <= u < out@.len() implies ((
        #[trigger] out@[u]).has_sequence_header <==> exists|k: int|
            0 <= k < list.len() && out@[u].start <= (#[trigger] list[k]).start < out@[u].end
                && list[k].kind == 1) by {
            obu_byte_laws::temporal_units_by_offset(bytes@, u);
            assert(all[u] == out@[u]@);
        }
    }
    Ok(out)
}

/// A temporal unit with `obu` spliced in before its frame header.
pub fn insert_metadata_obu(temporal_unit: &[u8], obu: &[u8]) -> (out: Result<Vec<u8>, Error>)
    ensures
        annexb::bytes_result(out) == spliced(temporal_unit@, obu@),
{
    let found: Vec<TemporalUnit> = match temporal_units(temporal_unit) {
        Ok(found) => found,
        Err(e) => {
            return Err(e);
        },
    };
    let ghost places = tu_places(found@);
    if found.len() == 0 {
        return Err(Error::Malformed { what: "the bytes hold no temporal unit", at: 0 });
    }
    assert(places[0] == found@[0]@);
    let at: usize = found[0].insert_at;
    let mut out: Vec<u8> = Vec::with_capacity(temporal_unit.len());
    bytes::append(&mut out, slice_subrange(temporal_unit, 0, at));
    bytes::append(&mut out, obu);
    bytes::append(&mut out, slice_subrange(temporal_unit, at, temporal_unit.len()));
    assert(out@ =~= temporal_unit@.take(at as int) + obu@ + temporal_unit@.skip(at as int));
    Ok(out)
}

} // verus!
