//! The decoder configuration records, ISO/IEC 14496-15 sections 5.3.3
//! (`AVCDecoderConfigurationRecord`, the `avcC`) and 8.3.3 (the
//! `hvcC`), and the framing they declare.
//!
//! A record is a byte string here, not a box: which box carries it and
//! where that box sits is the container's business. What this module
//! does is read the two things a NAL reader needs out of a record - the
//! width of the length prefix and the parameter sets - and build the
//! H.264 record back out of parameter sets the way ffmpeg's own writer
//! does.
//!
//! [`Framing`] is the question a packet filter asks first: are these
//! packets start-coded or length-prefixed, and how wide is the length.

use vstd::prelude::*;
use vstd::slice::slice_subrange;
use crate::annexb;
use crate::annexb::{
    annexb_to_length_prefixed,
    scan_nals,
    split_length_prefixed,
    NalRef,
    START_CODE,
};
use crate::bytes;
use crate::h26x;
use crate::h26x::{access_units, AccessUnit, Codec, H264_PPS, H264_SPS};
use crate::obu;
use crate::sei;
use crate::sei::{
    find_slice,
    insert_sei_annexb,
    insert_sei_length_prefixed,
    user_data_annexb,
    user_data_in_nal,
    user_data_length_prefixed,
    write_user_data_at,
};
use crate::sps;
use crate::sps::formats;
use crate::text;
use crate::Error;
use crate::Select;

verus! {

/// The length prefix width that byte `at` of a record declares in its
/// low two bits, less one; four when the record ends before it.
pub open spec fn width_at(record: Seq<u8>, at: int) -> usize {
    if record.len() > at {
        ((record[at] & 0x3) + 1) as usize
    } else {
        4
    }
}

/// The length prefix width a record declares.
fn read_width(record: &[u8], at: usize) -> (width: usize)
    ensures
        width == width_at(record@, at as int),
        1 <= width <= 4,
{
    if record.len() > at {
        let byte: u8 = record[at];
        assert(byte & 0x3 <= 3) by (bit_vector);
        (byte & 0x3) as usize + 1
    } else {
        4
    }
}

/// The NAL length prefix an `avcC` declares, in bytes: its
/// `lengthSizeMinusOne` plus one. Four for everything ffmpeg writes; a
/// record too short to say is read as four.
pub fn avcc_length_size(avcc: &[u8]) -> (width: usize)
    ensures
        width == width_at(avcc@, 4),
        1 <= width <= 4,
{
    read_width(avcc, 4)
}

/// The NAL length prefix an `hvcC` declares, in bytes. The field sits
/// at byte 21, past the profile, tier and level the record opens with;
/// a record too short to say is read as four.
pub fn hvcc_length_size(hvcc: &[u8]) -> (width: usize)
    ensures
        width == width_at(hvcc@, 21),
        1 <= width <= 4,
{
    read_width(hvcc, 21)
}

/// The NAL units of an H.264 type, in order.
pub open spec fn of_type(nals: Seq<Seq<u8>>, kind: u8) -> Seq<Seq<u8>>
    decreases nals.len(),
{
    if nals.len() == 0 {
        Seq::empty()
    } else if h26x::type_of(Codec::H264, nals.last()) == Some(kind) {
        of_type(nals.drop_last(), kind).push(nals.last())
    } else {
        of_type(nals.drop_last(), kind)
    }
}

/// The SPS and PPS NAL units of an Annex B extradata blob, in order.
pub fn parse_parameter_sets(annexb: &[u8]) -> (sets: (Vec<Vec<u8>>, Vec<Vec<u8>>))
    ensures
        bytes::contents(sets.0@) == of_type(annexb::split(annexb@), H264_SPS),
        bytes::contents(sets.1@) == of_type(annexb::split(annexb@), H264_PPS),
{
    let nals: Vec<NalRef<'_>> = scan_nals(annexb);
    let ghost list = annexb::split(annexb@);
    let mut sps: Vec<Vec<u8>> = Vec::new();
    let mut pps: Vec<Vec<u8>> = Vec::new();
    let mut k: usize = 0;
    proof {
        assert(annexb::scan(annexb@).len() == nals@.len());
        assert(list.take(0) =~= Seq::empty());
        assert(bytes::contents(sps@) =~= of_type(list.take(0), H264_SPS));
        assert(bytes::contents(pps@) =~= of_type(list.take(0), H264_PPS));
    }
    while k < nals.len()
        invariant
            k <= nals@.len(),
            annexb::places(nals@) == annexb::scan(annexb@),
            list == annexb::split(annexb@),
            list.len() == nals@.len(),
            bytes::contents(sps@) == of_type(list.take(k as int), H264_SPS),
            bytes::contents(pps@) == of_type(list.take(k as int), H264_PPS),
        decreases nals.len() - k,
    {
        let nal: &[u8] = nals[k].bytes;
        let ghost before = (sps@, pps@);
        proof {
            assert(annexb::scan(annexb@)[k as int] == nals@[k as int]@);
            assert(list[k as int] == nal@);
            assert(list.take(k + 1).drop_last() =~= list.take(k as int));
            assert(nal@.subrange(0, nal@.len() as int) =~= nal@);
        }
        match Codec::H264.nal_type(nal) {
            Some(kind) => {
                if kind == H264_SPS {
                    sps.push(bytes::copy_range(nal, 0, nal.len()));
                    assert(bytes::contents(sps@) =~= bytes::contents(before.0).push(nal@));
                } else if kind == H264_PPS {
                    pps.push(bytes::copy_range(nal, 0, nal.len()));
                    assert(bytes::contents(pps@) =~= bytes::contents(before.1).push(nal@));
                }
            },
            None => {},
        }
        k += 1;
    }
    assert(list.take(k as int) =~= list);
    (sps, pps)
}

/// The first parameter set from set `k` on that is too long for the two
/// bytes of its length, or how many there are.
pub open spec fn first_long(sets: Seq<Seq<u8>>, k: int) -> int
    decreases sets.len() - k,
{
    if k >= sets.len() {
        sets.len() as int
    } else if sets[k].len() > 0xffff {
        k
    } else {
        first_long(sets, k + 1)
    }
}

/// Whether a profile is of the baseline family, whose record leaves the
/// formats off.
pub open spec fn baseline_family(profile: u8) -> bool {
    profile == 66 || profile == 77 || profile == 88
}

/// The extension bytes of a record whose first SPS is `first`.
pub open spec fn extension_of(first: Seq<u8>) -> Result<Seq<u8>, Error> {
    if baseline_family(first[1]) {
        Ok(Seq::empty())
    } else {
        match sps::formats_of(first) {
            Some(parsed) => Ok(
                seq![
                    0xfc | (parsed.chroma_format_idc & 0x3),
                    0xf8 | (parsed.bit_depth_luma_minus8 & 0x7),
                    0xf8 | (parsed.bit_depth_chroma_minus8 & 0x7),
                    0u8,
                ],
            ),
            None => Err(
                Error::Malformed {
                    what: "an SPS of a high profile too short to read its formats",
                    at: 0,
                },
            ),
        }
    }
}

/// The `avcC` record before its extension: version, profile, flags and
/// level, the length width, and the two lists of sets, each set behind
/// two bytes of length.
pub open spec fn record_of(sps: Seq<Seq<u8>>, pps: Seq<Seq<u8>>) -> Seq<u8> {
    seq![1u8, sps[0][1], sps[0][2], sps[0][3], 0xffu8, (0xe0 + sps.len()) as u8]
        + annexb::prefixed(sps, 2) + seq![pps.len() as u8] + annexb::prefixed(pps, 2)
}

/// The `avcC` record of parameter sets, or what keeps it from being
/// built.
pub open spec fn avcc_of(sps: Seq<Seq<u8>>, pps: Seq<Seq<u8>>) -> Result<Seq<u8>, Error> {
    if sps.len() == 0 || sps[0].len() < 4 {
        Err(Error::Malformed { what: "the extradata carries no SPS", at: 0 })
    } else if pps.len() == 0 {
        Err(Error::Malformed { what: "the extradata carries no PPS", at: 0 })
    } else if sps.len() > 31 || pps.len() > 255 {
        Err(Error::TooLarge { at: 0 })
    } else if first_long(sps, 0) < sps.len() {
        Err(Error::TooLarge { at: sps[first_long(sps, 0)].len() as usize })
    } else if first_long(pps, 0) < pps.len() {
        Err(Error::TooLarge { at: pps[first_long(pps, 0)].len() as usize })
    } else {
        match extension_of(sps[0]) {
            Ok(extension) => Ok(record_of(sps, pps) + extension),
            Err(e) => Err(e),
        }
    }
}

/// No set before the first long one is long.
pub proof fn lemma_first_long(sets: Seq<Seq<u8>>, k: int)
    requires
        0 <= k <= sets.len(),
    ensures
        k <= first_long(sets, k) <= sets.len(),
        forall|i: int| k <= i < first_long(sets, k) ==> (#[trigger] sets[i]).len() <= 0xffff,
        first_long(sets, k) < sets.len() ==> sets[first_long(sets, k)].len() > 0xffff,
    decreases sets.len() - k,
{
    if k < sets.len() && sets[k].len() <= 0xffff {
        lemma_first_long(sets, k + 1);
    }
}

/// The first set too long for its length field.
fn find_long(sets: &[Vec<u8>]) -> (found: Option<usize>)
    ensures
        match found {
            Some(len) => first_long(bytes::contents(sets@), 0) < sets@.len() && len
                == bytes::contents(sets@)[first_long(bytes::contents(sets@), 0)].len(),
            None => first_long(bytes::contents(sets@), 0) == sets@.len(),
        },
{
    let ghost list = bytes::contents(sets@);
    let mut k: usize = 0;
    while k < sets.len()
        invariant
            k <= sets@.len(),
            list == bytes::contents(sets@),
            first_long(list, 0) == first_long(list, k as int),
        decreases sets.len() - k,
    {
        assert(list[k as int] == sets@[k as int]@);
        if sets[k].len() > 0xffff {
            return Some(sets[k].len());
        }
        k += 1;
    }
    None
}

/// Appends parameter sets, each behind two bytes of length.
fn put_sets(out: &mut Vec<u8>, sets: &[Vec<u8>])
    requires
        forall|i: int|
            0 <= i < sets@.len() ==> (#[trigger] bytes::contents(sets@)[i]).len() <= 0xffff,
    ensures
        final(out)@ == old(out)@ + annexb::prefixed(bytes::contents(sets@), 2),
{
    let ghost list = bytes::contents(sets@);
    let ghost before = out@;
    let mut k: usize = 0;
    assert(list.take(0) =~= Seq::empty());
    assert(before + annexb::prefixed(list.take(0), 2) =~= before);
    while k < sets.len()
        invariant
            k <= sets@.len(),
            list == bytes::contents(sets@),
            forall|i: int| 0 <= i < sets@.len() ==> (#[trigger] list[i]).len() <= 0xffff,
            out@ == before + annexb::prefixed(list.take(k as int), 2),
        decreases sets.len() - k,
    {
        assert(list[k as int] == sets@[k as int]@);
        let len: usize = sets[k].len();
        out.push((len / 256) as u8);
        out.push((len % 256) as u8);
        bytes::append(out, sets[k].as_slice());
        proof {
            reveal_with_fuel(bytes::be_bytes, 3);
            assert(bytes::be_bytes(len as nat, 2) =~= seq![(len / 256) as u8, (len % 256) as u8]);
            annexb::lemma_prefixed_push(list.take(k as int), list[k as int], 2);
            assert(list.take(k + 1) =~= list.take(k as int).push(list[k as int]));
            assert(out@ =~= before + annexb::prefixed(list.take(k + 1), 2));
        }
        k += 1;
    }
    assert(list.take(k as int) =~= list);
}

/// Builds an `avcC` record from SPS and PPS NAL units, 4-byte lengths
/// declared.
///
/// For the high profiles the record carries chroma format and bit
/// depths read out of the first SPS, the way ffmpeg's own writer does;
/// the baseline family leaves them off.
pub fn build_avcc(sps: &[Vec<u8>], pps: &[Vec<u8>]) -> (out: Result<Vec<u8>, Error>)
    ensures
        annexb::bytes_result(out) == avcc_of(bytes::contents(sps@), bytes::contents(pps@)),
{
    let ghost s = bytes::contents(sps@);
    let ghost p = bytes::contents(pps@);
    if sps.len() > 0 {
        assert(s[0] == sps@[0]@);
    }
    if sps.len() == 0 || sps[0].len() < 4 {
        return Err(Error::Malformed { what: "the extradata carries no SPS", at: 0 });
    }
    if pps.len() == 0 {
        return Err(Error::Malformed { what: "the extradata carries no PPS", at: 0 });
    }
    if sps.len() > 31 {
        return Err(Error::TooLarge { at: 0 });
    }
    if pps.len() > 255 {
        return Err(Error::TooLarge { at: 0 });
    }
    if let Some(len) = find_long(sps) {
        return Err(Error::TooLarge { at: len });
    }
    if let Some(len) = find_long(pps) {
        return Err(Error::TooLarge { at: len });
    }
    proof {
        lemma_first_long(s, 0);
        lemma_first_long(p, 0);
    }
    let first: &Vec<u8> = &sps[0];
    let mut avcc: Vec<u8> = Vec::new();
    // configurationVersion, then profile, compatibility and level.
    avcc.push(1);
    avcc.push(first[1]);
    avcc.push(first[2]);
    avcc.push(first[3]);
    // lengthSizeMinusOne = 3, and then the number of SPS, each below
    // reserved bits that are set.
    avcc.push(0xff);
    avcc.push(0xe0 + sps.len() as u8);
    put_sets(&mut avcc, sps);
    avcc.push(pps.len() as u8);
    put_sets(&mut avcc, pps);
    assert(avcc@ =~= record_of(s, p));
    // The extension bytes, for profiles outside the baseline family.
    let profile: u8 = first[1];
    if !(profile == 66 || profile == 77 || profile == 88) {
        match formats(first.as_slice()) {
            Some(parsed) => {
                avcc.push(0xfc | (parsed.chroma_format_idc & 0x3));
                avcc.push(0xf8 | (parsed.bit_depth_luma_minus8 & 0x7));
                avcc.push(0xf8 | (parsed.bit_depth_chroma_minus8 & 0x7));
                // numOfSequenceParameterSetExt
                avcc.push(0);
            },
            None => {
                return Err(
                    Error::Malformed {
                        what: "an SPS of a high profile too short to read its formats",
                        at: 0,
                    },
                );
            },
        }
    }
    assert(avcc@ =~= record_of(s, p) + extension_of(s[0])->Ok_0);
    Ok(avcc)
}

/// `count` parameter sets from `at` on, each behind two bytes of length,
/// and where they end.
pub open spec fn sets_at(s: Seq<u8>, at: int, count: nat) -> Result<(Seq<Seq<u8>>, int), Error>
    decreases count,
{
    if count == 0 {
        Ok((Seq::empty(), at))
    } else if at + 2 > s.len() {
        Err(Error::Truncated { at: at as usize })
    } else {
        let start = at + 2;
        let end = start + bytes::be_value(s.subrange(at, start));
        if end > s.len() {
            Err(Error::Truncated { at: start as usize })
        } else {
            match sets_at(s, end, (count - 1) as nat) {
                Ok((rest, stop)) => Ok((seq![s.subrange(start, end)] + rest, stop)),
                Err(e) => Err(e),
            }
        }
    }
}

/// The parameter sets an `avcC` record carries, SPS and then PPS.
pub open spec fn record_sets(avcc: Seq<u8>) -> Result<Seq<Seq<u8>>, Error> {
    if avcc.len() < 6 {
        Err(Error::Malformed { what: "an avcC too short to name a parameter set", at: 0 })
    } else {
        match sets_at(avcc, 6, (avcc[5] & 0x1f) as nat) {
            Ok((sps, at)) => if at >= avcc.len() {
                Err(Error::Truncated { at: at as usize })
            } else {
                match sets_at(avcc, at + 1, avcc[at] as nat) {
                    Ok((pps, _)) => if sps.len() + pps.len() == 0 {
                        Err(Error::Malformed { what: "an avcC that carries no parameter set", at: 0 })
                    } else {
                        Ok(sps + pps)
                    },
                    Err(e) => Err(e),
                }
            },
            Err(e) => Err(e),
        }
    }
}

/// The parameter sets an `avcC` record carries, as Annex B extradata.
pub open spec fn extradata_of(avcc: Seq<u8>) -> Result<Seq<u8>, Error> {
    match record_sets(avcc) {
        Ok(sets) => Ok(annexb::start_coded(sets)),
        Err(e) => Err(e),
    }
}

/// The two-byte number at `at`.
fn read_pair(record: &[u8], at: usize) -> (value: usize)
    requires
        at + 2 <= record@.len(),
    ensures
        value == bytes::be_value(record@.subrange(at as int, at + 2)),
        value <= 0xffff,
{
    proof {
        let pair = record@.subrange(at as int, at + 2);
        reveal_with_fuel(bytes::be_value, 3);
        assert(pair.drop_last() =~= seq![record@[at as int]]);
        assert(pair.drop_last().drop_last() =~= Seq::empty());
        assert(pair.last() == record@[at + 1]);
        assert(pair.drop_last().last() == record@[at as int]);
    }
    record[at] as usize * 256 + record[at + 1] as usize
}

/// Reads `count` parameter sets from `from` on and appends each behind a
/// start code; answers where they end.
fn copy_sets(out: &mut Vec<u8>, avcc: &[u8], from: usize, count: usize) -> (stop: Result<
    usize,
    Error,
>)
    requires
        from <= avcc@.len(),
    ensures
        match sets_at(avcc@, from as int, count as nat) {
            Ok((sets, at)) => {
                &&& stop == Ok::<usize, Error>(at as usize)
                &&& 0 <= at <= avcc@.len()
                &&& sets.len() == count
                &&& final(out)@ == old(out)@ + annexb::start_coded(sets)
            },
            Err(e) => stop == Err::<usize, Error>(e),
        },
{
    let ghost before = out@;
    let ghost mut done = Seq::<Seq<u8>>::empty();
    let ghost all = sets_at(avcc@, from as int, count as nat);
    let mut at: usize = from;
    let mut left: usize = count;
    proof {
        if let Ok((sets, stop)) = all {
            assert(done + sets =~= sets);
        }
        assert(before + annexb::start_coded(done) =~= before);
    }
    while left > 0
        invariant
            at <= avcc@.len(),
            left <= count,
            done.len() == count - left,
            all == sets_at(avcc@, from as int, count as nat),
            all == (match sets_at(avcc@, at as int, left as nat) {
                Ok((rest, stop)) => Ok::<(Seq<Seq<u8>>, int), Error>((done + rest, stop)),
                Err(e) => Err(e),
            }),
            out@ == before + annexb::start_coded(done),
            before == old(out)@,
        decreases left,
    {
        if avcc.len() - at < 2 {
            return Err(Error::Truncated { at });
        }
        let length: usize = read_pair(avcc, at);
        let start: usize = at + 2;
        if length > avcc.len() - start {
            return Err(Error::Truncated { at: start });
        }
        let end: usize = start + length;
        let nal: &[u8] = slice_subrange(avcc, start, end);
        bytes::append(out, &START_CODE);
        bytes::append(out, nal);
        proof {
            annexb::lemma_start_coded_push(done, nal@);
            let grown = done.push(nal@);
            if let Ok((rest, stop)) = sets_at(avcc@, end as int, (left - 1) as nat) {
                assert(done + (seq![nal@] + rest) =~= grown + rest);
            }
            assert(out@ =~= before + annexb::start_coded(grown));
            done = grown;
        }
        at = end;
        left -= 1;
    }
    assert(done + Seq::empty() =~= done);
    Ok(at)
}

/// The SPS and PPS an `avcC` record carries, back as the Annex B
/// extradata a coded stream declares: each NAL behind a 4-byte start
/// code, the sets in the order the record listed them.
///
/// The inverse of [`build_avcc`]; what a source reading an MP4 init
/// segment hands an encoder's edge that expects Annex B.
pub fn avcc_to_annexb_extradata(avcc: &[u8]) -> (out: Result<Vec<u8>, Error>)
    ensures
        annexb::bytes_result(out) == extradata_of(avcc@),
{
    if avcc.len() < 6 {
        return Err(
            Error::Malformed { what: "an avcC too short to name a parameter set", at: 0 },
        );
    }
    let mut out: Vec<u8> = Vec::with_capacity(avcc.len());
    let sps_count: usize = (avcc[5] & 0x1f) as usize;
    let at: usize = match copy_sets(&mut out, avcc, 6, sps_count) {
        Ok(at) => at,
        Err(e) => {
            return Err(e);
        },
    };
    if at >= avcc.len() {
        return Err(Error::Truncated { at });
    }
    let pps_count: usize = avcc[at] as usize;
    let ghost sps = sets_at(avcc@, 6, sps_count as nat)->Ok_0.0;
    assert(out@ =~= annexb::start_coded(sps));
    match copy_sets(&mut out, avcc, at + 1, pps_count) {
        Ok(_) => {},
        Err(e) => {
            return Err(e);
        },
    }
    if sps_count == 0 && pps_count == 0 {
        return Err(Error::Malformed { what: "an avcC that carries no parameter set", at: 0 });
    }
    proof {
        let pps = sets_at(avcc@, at + 1, pps_count as nat)->Ok_0.0;
        annexb::lemma_start_coded_add(sps, pps);
    }
    Ok(out)
}

/// How one stream's packets are framed.
#[derive(Clone, Copy, Debug, PartialEq, Eq)]
pub enum Framing {
    /// Start codes, which is what an elementary stream and ffmpeg's own
    /// NUT carry.
    AnnexB(Codec),
    /// A length before every NAL, as an `avcC` or `hvcC` declares.
    LengthPrefixed { codec: Codec, length_size: usize },
    /// Low-overhead OBUs: no lengths outside the OBUs' own.
    Av1,
}

/// The codecs this crate frames, ffmpeg's names for them, most
/// preferred first.
pub const CODECS: [&'static str; 3] = ["h264", "hevc", "av1"];

/// Whether a name is one of H.264's.
pub open spec fn names_h264(name: Seq<char>) -> bool {
    name == "h264"@ || name == "avc1"@ || name == "avc3"@
}

/// Whether a name is one of HEVC's.
pub open spec fn names_h265(name: Seq<char>) -> bool {
    name == "hevc"@ || name == "h265"@ || name == "hvc1"@ || name == "hev1"@
}

/// Whether a name is one of AV1's.
pub open spec fn names_av1(name: Seq<char>) -> bool {
    name == "av1"@ || name == "av01"@
}

/// Whether bytes are a configuration record: long enough to be one, and
/// of version 1.
pub open spec fn is_record(extradata: Seq<u8>, least: int) -> bool {
    extradata.len() >= least && extradata[0] == 1
}

/// The framing of a codec by name, as its out-of-band header has it.
pub open spec fn framing_named(name: Seq<char>, extradata: Seq<u8>) -> Result<Framing, Error> {
    if names_h264(name) {
        Ok(
            if is_record(extradata, 7) {
                Framing::LengthPrefixed {
                    codec: Codec::H264,
                    length_size: width_at(extradata, 4),
                }
            } else {
                Framing::AnnexB(Codec::H264)
            },
        )
    } else if names_h265(name) {
        Ok(
            if is_record(extradata, 23) {
                Framing::LengthPrefixed {
                    codec: Codec::H265,
                    length_size: width_at(extradata, 21),
                }
            } else {
                Framing::AnnexB(Codec::H265)
            },
        )
    } else if names_av1(name) {
        Ok(Framing::Av1)
    } else {
        Err(Error::UnknownCodec)
    }
}

/// What a stream carries, from the codec name and the out-of-band
/// header.
///
/// An `avcC` or `hvcC` opens with a configuration version of 1; an
/// Annex B header opens with a start code, whose first byte is zero,
/// and a stream that carries no header at all is Annex B too. That is
/// the same test ffmpeg makes of the same bytes. A sample entry's name
/// is read as a name for its codec, and the header still decides. A name
/// this crate has no framing for is [`Error::UnknownCodec`], and the
/// caller says so in its own words.
pub fn framing_of(codec: &str, extradata: &[u8]) -> (out: Result<Framing, Error>)
    ensures
        out == framing_named(codec@, extradata@),
{
    if text::same(codec, "h264") || text::same(codec, "avc1") || text::same(codec, "avc3") {
        Ok(
            if configuration_record(extradata, 7) {
                Framing::LengthPrefixed {
                    codec: Codec::H264,
                    length_size: avcc_length_size(extradata),
                }
            } else {
                Framing::AnnexB(Codec::H264)
            },
        )
    } else if text::same(codec, "hevc") || text::same(codec, "h265") || text::same(codec, "hvc1")
        || text::same(codec, "hev1") {
        Ok(
            if configuration_record(extradata, 23) {
                Framing::LengthPrefixed {
                    codec: Codec::H265,
                    length_size: hvcc_length_size(extradata),
                }
            } else {
                Framing::AnnexB(Codec::H265)
            },
        )
    } else if text::same(codec, "av1") || text::same(codec, "av01") {
        Ok(Framing::Av1)
    } else {
        Err(Error::UnknownCodec)
    }
}

/// Whether bytes are a configuration record.
fn configuration_record(extradata: &[u8], least: usize) -> (r: bool)
    requires
        least > 0,
    ensures
        r == is_record(extradata@, least as int),
{
    extradata.len() >= least && extradata[0] == 1
}

/// What is wrong with a configuration record that does not declare a
/// width: it ends too early, or is not of version 1.
pub open spec fn record_error(config: Seq<u8>, least: int) -> Error {
    if config.len() < least {
        Error::Truncated { at: 0 }
    } else {
        Error::Malformed { what: "a configuration record that is not of version 1", at: 0 }
    }
}

/// The framing of a sample entry by name, as its configuration record
/// has it.
pub open spec fn framing_in_entry(name: Seq<char>, config: Seq<u8>) -> Result<Framing, Error> {
    if name == "avc1"@ || name == "avc3"@ {
        if is_record(config, 7) {
            Ok(
                Framing::LengthPrefixed { codec: Codec::H264, length_size: width_at(config, 4) },
            )
        } else {
            Err(record_error(config, 7))
        }
    } else if name == "hvc1"@ || name == "hev1"@ {
        if is_record(config, 23) {
            Ok(
                Framing::LengthPrefixed { codec: Codec::H265, length_size: width_at(config, 21) },
            )
        } else {
            Err(record_error(config, 23))
        }
    } else if name == "av01"@ {
        Ok(Framing::Av1)
    } else {
        Err(Error::UnknownCodec)
    }
}

/// What the samples of a container's sample entry carry, from the
/// entry's name and its configuration record.
///
/// A sample entry has already ruled start codes out, so a record too
/// short or too damaged to declare its width is an error here and never
/// a fall back to Annex B.
pub fn framing_of_entry(kind: &str, config: &[u8]) -> (out: Result<Framing, Error>)
    ensures
        out == framing_in_entry(kind@, config@),
{
    if text::same(kind, "avc1") || text::same(kind, "avc3") {
        match check_record(config, 7) {
            Ok(()) => Ok(
                Framing::LengthPrefixed {
                    codec: Codec::H264,
                    length_size: avcc_length_size(config),
                },
            ),
            Err(e) => Err(e),
        }
    } else if text::same(kind, "hvc1") || text::same(kind, "hev1") {
        match check_record(config, 23) {
            Ok(()) => Ok(
                Framing::LengthPrefixed {
                    codec: Codec::H265,
                    length_size: hvcc_length_size(config),
                },
            ),
            Err(e) => Err(e),
        }
    } else if text::same(kind, "av01") {
        Ok(Framing::Av1)
    } else {
        Err(Error::UnknownCodec)
    }
}

/// Refuses bytes that are no configuration record.
fn check_record(config: &[u8], least: usize) -> (r: Result<(), Error>)
    requires
        least > 0,
    ensures
        r == if is_record(config@, least as int) {
            Ok::<(), Error>(())
        } else {
            Err(record_error(config@, least as int))
        },
{
    if config.len() < least {
        Err(Error::Truncated { at: 0 })
    } else if config[0] != 1 {
        Err(Error::Malformed { what: "a configuration record that is not of version 1", at: 0 })
    } else {
        Ok(())
    }
}

/// The temporal id an SEI for an Annex B access unit repeats.
pub open spec fn unit_id(packet: Seq<u8>, codec: Codec) -> u8 {
    let found = h26x::units(packet, codec);
    if found.len() > 0 {
        found[0].temporal_id_plus1
    } else {
        1
    }
}

/// The temporal id an SEI among `nals` repeats: that of the first coded
/// slice.
pub open spec fn slice_id(nals: Seq<Seq<u8>>, codec: Codec) -> u8 {
    let k = h26x::first_slice(codec, nals, 0, nals.len() as int);
    if k < nals.len() {
        h26x::temporal_id_of(codec, nals[k])
    } else {
        1
    }
}

/// A packet with a payload put in.
pub open spec fn inserted(
    framing: Framing,
    packet: Seq<u8>,
    payload: Seq<u8>,
    metadata_type: nat,
) -> Result<Seq<u8>, Error> {
    match framing {
        Framing::AnnexB(codec) => sei::spliced(
            packet,
            sei::user_nal(payload, codec, unit_id(packet, codec)),
            codec,
        ),
        Framing::LengthPrefixed { codec, length_size } => match annexb::sample_nals(
            packet,
            length_size as int,
        ) {
            Ok(nals) => sei::sample_spliced(
                packet,
                sei::user_nal(payload, codec, slice_id(nals, codec)),
                length_size as int,
                codec,
            ),
            Err(e) => Err(e),
        },
        Framing::Av1 => obu::spliced(packet, obu::metadata_obu(metadata_type, payload)),
    }
}

/// The payloads of one's own in a packet.
pub open spec fn payloads_of(
    framing: Framing,
    packet: Seq<u8>,
    uuid: Seq<u8>,
    metadata_type: nat,
) -> Seq<Seq<u8>> {
    match framing {
        Framing::AnnexB(codec) => sei::gathered(annexb::split(packet), codec, uuid),
        Framing::LengthPrefixed { codec, length_size } => match annexb::sample_nals(
            packet,
            length_size as int,
        ) {
            Ok(nals) => sei::gathered(nals, codec, uuid),
            Err(_) => Seq::empty(),
        },
        Framing::Av1 => obu::opened_by(obu::metadata_found(packet, metadata_type), uuid),
    }
}

/// The payloads of one's own in the bytes of one NAL unit.
pub open spec fn payloads_of_nal(
    framing: Framing,
    nal: Seq<u8>,
    uuid: Seq<u8>,
    metadata_type: nat,
) -> Seq<Seq<u8>> {
    match framing {
        Framing::AnnexB(codec) => sei::carried(nal, codec, uuid),
        Framing::LengthPrefixed { codec, length_size } => sei::carried(nal, codec, uuid),
        Framing::Av1 => obu::opened_by(obu::metadata_found(nal, metadata_type), uuid),
    }
}

/// An Annex B access unit the way a framing spells a packet.
pub open spec fn reframed(framing: Framing, annexb: Seq<u8>) -> Result<Seq<u8>, Error> {
    match framing {
        Framing::LengthPrefixed { codec, length_size } => annexb::length_prefixed(
            annexb,
            length_size as int,
        ),
        _ => Ok(annexb),
    }
}

impl Framing {
    /// One packet with `payload` put where the standards say it goes:
    /// before the first coded slice for H.264 and HEVC, before the
    /// frame header for AV1. Everything else in the packet is copied
    /// through exactly as the encoder wrote it.
    ///
    /// The payload opens with the writer's own UUID; `select` says
    /// which `metadata_type` the AV1 spelling uses, and its UUID is not
    /// read here because the payload already carries it.
    pub fn insert(self, packet: &[u8], payload: &[u8], select: Select) -> (out: Result<
        Vec<u8>,
        Error,
    >)
        ensures
            annexb::bytes_result(out) == inserted(
                self,
                packet@,
                payload@,
                select.metadata_type as nat,
            ),
    {
        match self {
            Framing::AnnexB(codec) => {
                let units: Vec<AccessUnit> = access_units(packet, codec);
                assert(h26x::unit_places(units@).len() == units@.len());
                let temporal_id_plus1: u8 = if units.len() > 0 {
                    assert(h26x::unit_places(units@)[0] == units@[0]@);
                    units[0].temporal_id_plus1
                } else {
                    1
                };
                let sei: Vec<u8> = write_user_data_at(payload, codec, temporal_id_plus1);
                insert_sei_annexb(packet, sei.as_slice(), codec)
            },
            Framing::LengthPrefixed { codec, length_size } => {
                let nals: Vec<&[u8]> = match split_length_prefixed(packet, length_size) {
                    Ok(nals) => nals,
                    Err(e) => {
                        return Err(e);
                    },
                };
                let at: usize = find_slice(&nals, codec);
                let temporal_id_plus1: u8 = if at < nals.len() {
                    assert(bytes::slice_contents(nals@)[at as int] == nals@[at as int]@);
                    codec.temporal_id_plus1(nals[at])
                } else {
                    1
                };
                let sei: Vec<u8> = write_user_data_at(payload, codec, temporal_id_plus1);
                insert_sei_length_prefixed(packet, sei.as_slice(), length_size, codec)
            },
            Framing::Av1 => {
                let metadata: Vec<u8> = obu::write_metadata(select.metadata_type, payload);
                obu::insert_metadata_obu(packet, metadata.as_slice())
            },
        }
    }

    /// Every payload of `select` in one packet, in the order it carries
    /// them.
    ///
    /// A packet this reader cannot parse answers none rather than
    /// stopping the read: one broken access unit in a stream is not a
    /// reason to lose the rest.
    pub fn payloads(self, packet: &[u8], select: Select) -> (out: Vec<Vec<u8>>)
        ensures
            bytes::contents(out@) == payloads_of(
                self,
                packet@,
                select.uuid@,
                select.metadata_type as nat,
            ),
    {
        match self {
            Framing::AnnexB(codec) => user_data_annexb(packet, codec, &select.uuid),
            Framing::LengthPrefixed { codec, length_size } => match user_data_length_prefixed(
                packet,
                length_size,
                codec,
                &select.uuid,
            ) {
                Ok(found) => found,
                Err(_) => {
                    let none: Vec<Vec<u8>> = Vec::new();
                    assert(bytes::contents(none@) =~= Seq::empty());
                    none
                },
            },
            Framing::Av1 => obu::user_data(packet, select.metadata_type, &select.uuid),
        }
    }

    /// The same for bytes already cut to one NAL, which is what a
    /// container scanner holds when it has read a sample's first NAL
    /// and no more. AV1 reads the whole bytes, having no such cut.
    pub fn payloads_in_nal(self, nal: &[u8], select: Select) -> (out: Vec<Vec<u8>>)
        ensures
            bytes::contents(out@) == payloads_of_nal(
                self,
                nal@,
                select.uuid@,
                select.metadata_type as nat,
            ),
    {
        match self {
            Framing::AnnexB(codec) => user_data_in_nal(nal, codec, &select.uuid),
            Framing::LengthPrefixed { codec, length_size: _ } => user_data_in_nal(
                nal,
                codec,
                &select.uuid,
            ),
            Framing::Av1 => obu::user_data(nal, select.metadata_type, &select.uuid),
        }
    }

    /// One Annex B access unit reframed the way this framing spells a
    /// packet. Annex B and AV1 hand the bytes back as they are.
    pub fn reframe(self, annexb: &[u8]) -> (out: Result<Vec<u8>, Error>)
        ensures
            annexb::bytes_result(out) == reframed(self, annexb@),
    {
        match self {
            Framing::LengthPrefixed { codec: _, length_size } => annexb_to_length_prefixed(
                annexb,
                length_size,
            ),
            _ => {
                assert(annexb@.subrange(0, annexb@.len() as int) =~= annexb@);
                Ok(bytes::copy_range(annexb, 0, annexb.len()))
            },
        }
    }
}

} // verus!
