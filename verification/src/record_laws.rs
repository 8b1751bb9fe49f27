//! What configuration records are, in bytes, which framing they and the
//! names of codecs mean, and what a framing does with a packet.

use vstd::prelude::*;
use crate::annexb;
use crate::annexb_laws;
use crate::byte_laws;
use crate::bytes;
use crate::config;
use crate::config::Framing;
use crate::config_laws;
use crate::h26x;
use crate::h26x::Codec;
use crate::message_laws;
use crate::obu;
use crate::picture_laws;
use crate::sei;
use crate::sps;
use crate::Error;

verus! {

/// The length width a record declares, in bytes: one more than what byte
/// 4 of an `avcC`, and byte 21 of an `hvcC`, is above a multiple of four;
/// and four where the record ends before that.
pub proof fn widths_in_bytes(record: Seq<u8>)
    ensures
        record.len() > 4 ==> config::width_at(record, 4) == record[4] % 4 + 1,
        record.len() <= 4 ==> config::width_at(record, 4) == 4,
        record.len() > 21 ==> config::width_at(record, 21) == record[21] % 4 + 1,
        record.len() <= 21 ==> config::width_at(record, 21) == 4,
{
    let a = record[4];
    let b = record[21];
    assert(a & 0x3 == a % 4) by (bit_vector);
    assert(b & 0x3 == b % 4) by (bit_vector);
}

/// The NAL units of a type among others are those of each run, in order.
proof fn lemma_of_type_between(a: Seq<Seq<u8>>, nal: Seq<u8>, b: Seq<Seq<u8>>, kind: u8)
    ensures
        config::of_type(a + seq![nal] + b, kind) == config::of_type(a, kind) + (
        if h26x::type_of(Codec::H264, nal) == Some(kind) {
            seq![nal]
        } else {
            Seq::empty()
        }) + config::of_type(b, kind),
{
    config_laws::lemma_of_type_add(a + seq![nal], b, kind);
    config_laws::lemma_of_type_add(a, seq![nal], kind);
    reveal_with_fuel(config::of_type, 2);
    assert(seq![nal].drop_last() =~= Seq::empty());
    assert(config::of_type(seq![nal], kind) =~= if h26x::type_of(Codec::H264, nal) == Some(kind) {
        seq![nal]
    } else {
        Seq::empty()
    });
}

/// Which NAL units are parameter sets, in bytes: an SPS has a header byte
/// 7 above a multiple of 32, a PPS one 8 above. Each stands among its own
/// in the order of the stream, and no other NAL unit does.
pub proof fn parameter_sets_in_bytes(a: Seq<Seq<u8>>, nal: Seq<u8>, b: Seq<Seq<u8>>)
    ensures
        config::of_type(a + seq![nal] + b, 7) == config::of_type(a, 7) + (if nal.len() >= 1
            && nal[0] % 32 == 7 {
            seq![nal]
        } else {
            Seq::empty()
        }) + config::of_type(b, 7),
        config::of_type(a + seq![nal] + b, 8) == config::of_type(a, 8) + (if nal.len() >= 1
            && nal[0] % 32 == 8 {
            seq![nal]
        } else {
            Seq::empty()
        }) + config::of_type(b, 8),
        config::of_type(Seq::empty(), 7) == Seq::<Seq<u8>>::empty(),
        config::of_type(Seq::empty(), 8) == Seq::<Seq<u8>>::empty(),
{
    picture_laws::types_in_bytes(nal);
    lemma_of_type_between(a, nal, b, 7);
    lemma_of_type_between(a, nal, b, 8);
}

/// How many bytes sets take, each behind two bytes of length.
pub open spec fn framed_len(sets: Seq<Seq<u8>>) -> nat
    decreases sets.len(),
{
    if sets.len() == 0 {
        0
    } else {
        2 + sets[0].len() + framed_len(sets.drop_first())
    }
}

proof fn lemma_framed_len(sets: Seq<Seq<u8>>)
    ensures
        annexb::prefixed(sets, 2).len() == framed_len(sets),
    decreases sets.len(),
{
    if sets.len() > 0 {
        lemma_framed_len(sets.drop_first());
        byte_laws::lengths_are_spelled_big_endian(sets[0].len());
    }
}

/// A record of the profiles 66, 77 and 88 ends behind its last PPS: it is
/// six bytes, each SPS behind two bytes of length, one byte, and each PPS
/// behind two bytes of length, and no more. Such a record is built of any
/// sets that fit it, whatever the rest of the SPS says.
pub proof fn a_baseline_record_ends_behind_its_sets(sps: Seq<Seq<u8>>, pps: Seq<Seq<u8>>)
    requires
        1 <= sps.len() <= 31,
        1 <= pps.len() <= 255,
        forall|i: int| 0 <= i < sps.len() ==> (#[trigger] sps[i]).len() <= 0xffff,
        forall|i: int| 0 <= i < pps.len() ==> (#[trigger] pps[i]).len() <= 0xffff,
        sps[0].len() >= 4,
        sps[0][1] == 66 || sps[0][1] == 77 || sps[0][1] == 88,
    ensures
        config::avcc_of(sps, pps) matches Ok(avcc) && {
            &&& avcc.len() == 6 + framed_len(sps) + 1 + framed_len(pps)
            &&& avcc == config::record_of(sps, pps)
        },
{
    config::lemma_first_long(sps, 0);
    config::lemma_first_long(pps, 0);
    lemma_framed_len(sps);
    lemma_framed_len(pps);
    assert(config::record_of(sps, pps) + Seq::<u8>::empty() =~= config::record_of(sps, pps));
}

/// A record of any other profile has four bytes more, the formats of its
/// first SPS and a zero: the chroma format above `fc`, the bit depths
/// above `f8`. It is built where the SPS has formats and refused where it
/// has none.
pub proof fn a_high_record_ends_in_its_formats(sps: Seq<Seq<u8>>, pps: Seq<Seq<u8>>)
    requires
        1 <= sps.len() <= 31,
        1 <= pps.len() <= 255,
        forall|i: int| 0 <= i < sps.len() ==> (#[trigger] sps[i]).len() <= 0xffff,
        forall|i: int| 0 <= i < pps.len() ==> (#[trigger] pps[i]).len() <= 0xffff,
        sps[0].len() >= 4,
        sps[0][1] != 66,
        sps[0][1] != 77,
        sps[0][1] != 88,
    ensures
        sps::formats_of(sps[0]) is None ==> config::avcc_of(sps, pps) == Err::<Seq<u8>, Error>(
            Error::Malformed {
                what: "an SPS of a high profile too short to read its formats",
                at: 0,
            },
        ),
        sps::formats_of(sps[0]) matches Some(f) ==> (config::avcc_of(sps, pps) matches Ok(avcc)
            && {
            let n = (6 + framed_len(sps) + 1 + framed_len(pps)) as int;
            &&& avcc.len() == n + 4
            &&& avcc.take(n) == config::record_of(sps, pps)
            &&& avcc[n] == 0xfc + f.chroma_format_idc % 4
            &&& avcc[n + 1] == 0xf8 + f.bit_depth_luma_minus8 % 8
            &&& avcc[n + 2] == 0xf8 + f.bit_depth_chroma_minus8 % 8
            &&& avcc[n + 3] == 0
        }),
{
    config::lemma_first_long(sps, 0);
    config::lemma_first_long(pps, 0);
    lemma_framed_len(sps);
    lemma_framed_len(pps);
    let record = config::record_of(sps, pps);
    if let Some(f) = sps::formats_of(sps[0]) {
        let a = f.chroma_format_idc;
        let b = f.bit_depth_luma_minus8;
        let c = f.bit_depth_chroma_minus8;
        assert(0xfcu8 | (a & 0x3) == 0xfc + a % 4) by (bit_vector);
        assert(0xf8u8 | (b & 0x7) == 0xf8 + b % 8) by (bit_vector);
        assert(0xf8u8 | (c & 0x7) == 0xf8 + c % 8) by (bit_vector);
        let avcc = config::avcc_of(sps, pps)->Ok_0;
        assert(avcc.take(record.len() as int) =~= record);
    }
}

/// What keeps a record from being built, and in which order it is looked
/// for: no first SPS of four bytes, no PPS, too many sets for their
/// counts, a set too long for its length.
pub proof fn what_keeps_a_record_from_being_built(
    sps: Seq<Seq<u8>>,
    pps: Seq<Seq<u8>>,
    k: int,
)
    ensures
        sps.len() == 0 || sps[0].len() < 4 ==> config::avcc_of(sps, pps) == Err::<Seq<u8>, Error>(
            Error::Malformed { what: "the extradata carries no SPS", at: 0 },
        ),
        sps.len() > 0 && sps[0].len() >= 4 && pps.len() == 0 ==> config::avcc_of(sps, pps) == Err::<
            Seq<u8>,
            Error,
        >(Error::Malformed { what: "the extradata carries no PPS", at: 0 }),
        sps.len() > 0 && sps[0].len() >= 4 && pps.len() > 0 && (sps.len() > 31 || pps.len() > 255)
            ==> config::avcc_of(sps, pps) == Err::<Seq<u8>, Error>(Error::TooLarge { at: 0 }),
        1 <= sps.len() <= 31 && sps[0].len() >= 4 && 1 <= pps.len() <= 255 && 0 <= k < sps.len()
            + pps.len() && (sps + pps)[k].len() > 0xffff && (forall|i: int|
            0 <= i < k ==> (#[trigger] (sps + pps)[i]).len() <= 0xffff) ==> config::avcc_of(
            sps,
            pps,
        ) == Err::<Seq<u8>, Error>(Error::TooLarge { at: (sps + pps)[k].len() as usize }),
{
    if 1 <= sps.len() <= 31 && sps[0].len() >= 4 && 1 <= pps.len() <= 255 && 0 <= k < sps.len()
        + pps.len() && (sps + pps)[k].len() > 0xffff && (forall|i: int|
        0 <= i < k ==> (#[trigger] (sps + pps)[i]).len() <= 0xffff) {
        let all = sps + pps;
        let n = sps.len() as int;
        config::lemma_first_long(sps, 0);
        config::lemma_first_long(pps, 0);
        let f = config::first_long(sps, 0);
        let g = config::first_long(pps, 0);
        if k < n {
            assert(all[k] == sps[k]);
            if f < k {
                assert(all[f] == sps[f]);
            }
            assert(f == k);
        } else {
            assert(all[k] == pps[k - n]);
            if f < n {
                assert(all[f] == sps[f]);
            }
            if g < k - n {
                assert(all[n + g] == pps[g]);
            }
            assert(g == k - n);
        }
    }
}

/// A record as it is built, in bytes: 1; the profile, flags and level of
/// the first SPS; `ff`; the number of SPS above `e0`; the SPS; the number
/// of PPS; the PPS.
pub proof fn a_record_in_bytes(sps: Seq<Seq<u8>>, pps: Seq<Seq<u8>>)
    requires
        1 <= sps.len() <= 31,
        1 <= pps.len() <= 255,
        sps[0].len() >= 4,
    ensures
        ({
            let record = config::record_of(sps, pps);
            let n = (6 + framed_len(sps)) as int;
            &&& record.len() == n + 1 + framed_len(pps)
            &&& record[0] == 1
            &&& record[1] == sps[0][1] && record[2] == sps[0][2] && record[3] == sps[0][3]
            &&& record[4] == 0xff
            &&& record[5] == 0xe0 + sps.len()
            &&& record.subrange(6, n) == annexb::prefixed(sps, 2)
            &&& record[n] == pps.len()
            &&& record.skip(n + 1) == annexb::prefixed(pps, 2)
        }),
{
    lemma_framed_len(sps);
    lemma_framed_len(pps);
    let record = config::record_of(sps, pps);
    let n = (6 + framed_len(sps)) as int;
    assert(record.subrange(6, n) =~= annexb::prefixed(sps, 2));
    assert(record.skip(n + 1) =~= annexb::prefixed(pps, 2));
}

/// Sets are read out of a record one behind another, each behind two
/// bytes of length, the larger first; and where the record ends inside a
/// length, or inside the set behind it, with the offset of that.
pub proof fn sets_are_read_in_bytes(before: Seq<u8>, rest: Seq<u8>, count: nat)
    requires
        count > 0,
    ensures
        ({
            let s = before + rest;
            let at = before.len() as int;
            let len = rest[0] * 0x100 + rest[1];
            &&& config::sets_at(s, at, 0) == Ok::<(Seq<Seq<u8>>, int), Error>((Seq::empty(), at))
            &&& rest.len() < 2 ==> config::sets_at(s, at, count) == Err::<
                (Seq<Seq<u8>>, int),
                Error,
            >(Error::Truncated { at: at as usize })
            &&& rest.len() >= 2 && rest.len() - 2 < len ==> config::sets_at(s, at, count) == Err::<
                (Seq<Seq<u8>>, int),
                Error,
            >(Error::Truncated { at: (at + 2) as usize })
            &&& rest.len() >= 2 && rest.len() - 2 >= len ==> config::sets_at(s, at, count) == (
            match config::sets_at(s, at + 2 + len, (count - 1) as nat) {
                Ok((more, stop)) => Ok::<(Seq<Seq<u8>>, int), Error>(
                    (seq![rest.subrange(2, 2 + len)] + more, stop),
                ),
                Err(e) => Err(e),
            })
        }),
{
    let s = before + rest;
    let at = before.len() as int;
    if rest.len() >= 2 {
        let head = s.subrange(at, at + 2);
        assert(head[0] == rest[0] && head[1] == rest[1]);
        byte_laws::lengths_are_read_big_endian(head);
        let len = rest[0] * 0x100 + rest[1];
        if rest.len() - 2 >= len {
            assert(s.subrange(at + 2, at + 2 + len) =~= rest.subrange(2, 2 + len));
        }
    }
}

/// How a record is read, in bytes: what byte 5 is above a multiple of 32
/// is how many SPS stand from byte 6 on, and the byte behind them is how
/// many PPS follow. A record of fewer than six bytes is refused, and so
/// is one that ends before the count of the PPS or names no set.
pub proof fn records_are_read_in_bytes(avcc: Seq<u8>)
    ensures
        avcc.len() < 6 ==> config::extradata_of(avcc) == Err::<Seq<u8>, Error>(
            Error::Malformed { what: "an avcC too short to name a parameter set", at: 0 },
        ),
        avcc.len() >= 6 ==> config::extradata_of(avcc) == (match config::sets_at(
            avcc,
            6,
            (avcc[5] % 32) as nat,
        ) {
            Err(e) => Err::<Seq<u8>, Error>(e),
            Ok((sps, at)) => if at >= avcc.len() {
                Err(Error::Truncated { at: at as usize })
            } else {
                match config::sets_at(avcc, at + 1, avcc[at] as nat) {
                    Err(e) => Err(e),
                    Ok((pps, stop)) => if sps.len() == 0 && pps.len() == 0 {
                        Err(
                            Error::Malformed {
                                what: "an avcC that carries no parameter set",
                                at: 0,
                            },
                        )
                    } else {
                        Ok(annexb::start_coded(sps + pps))
                    },
                }
            },
        }),
{
    if avcc.len() >= 6 {
        let b = avcc[5];
        assert(b & 0x1f == b % 32) by (bit_vector);
    }
}

/// The names of codecs are all different.
proof fn lemma_names()
    ensures
        "h264"@ =~= seq!['h', '2', '6', '4'],
        "avc1"@ =~= seq!['a', 'v', 'c', '1'],
        "avc3"@ =~= seq!['a', 'v', 'c', '3'],
        "hevc"@ =~= seq!['h', 'e', 'v', 'c'],
        "h265"@ =~= seq!['h', '2', '6', '5'],
        "hvc1"@ =~= seq!['h', 'v', 'c', '1'],
        "hev1"@ =~= seq!['h', 'e', 'v', '1'],
        "av1"@ =~= seq!['a', 'v', '1'],
        "av01"@ =~= seq!['a', 'v', '0', '1'],
{
    reveal_strlit("h264");
    reveal_strlit("avc1");
    reveal_strlit("avc3");
    reveal_strlit("hevc");
    reveal_strlit("h265");
    reveal_strlit("hvc1");
    reveal_strlit("hev1");
    reveal_strlit("av1");
    reveal_strlit("av01");
}

/// Which framing an H.264 stream is in: start codes where its header is
/// shorter than seven bytes or does not open with 1, however long it is,
/// and lengths otherwise, as wide as byte 4 says.
pub proof fn h264_framings(name: Seq<char>, extradata: Seq<u8>)
    requires
        name == seq!['h', '2', '6', '4'] || name == seq!['a', 'v', 'c', '1'] || name == seq![
            'a',
            'v',
            'c',
            '3',
        ],
    ensures
        extradata.len() < 7 || extradata[0] != 1 ==> config::framing_named(name, extradata) == Ok::<
            Framing,
            Error,
        >(Framing::AnnexB(Codec::H264)),
        extradata.len() >= 7 && extradata[0] == 1 ==> config::framing_named(name, extradata)
            == Ok::<Framing, Error>(
            Framing::LengthPrefixed {
                codec: Codec::H264,
                length_size: (extradata[4] % 4 + 1) as usize,
            },
        ),
{
    lemma_names();
    widths_in_bytes(extradata);
}

/// Which framing an HEVC stream is in: start codes where its header is
/// shorter than 23 bytes or does not open with 1, however long it is, and
/// lengths otherwise, as wide as byte 21 says.
pub proof fn h265_framings(name: Seq<char>, extradata: Seq<u8>)
    requires
        name == seq!['h', 'e', 'v', 'c'] || name == seq!['h', '2', '6', '5'] || name == seq![
            'h',
            'v',
            'c',
            '1',
        ] || name == seq!['h', 'e', 'v', '1'],
    ensures
        extradata.len() < 23 || extradata[0] != 1 ==> config::framing_named(name, extradata)
            == Ok::<Framing, Error>(Framing::AnnexB(Codec::H265)),
        extradata.len() >= 23 && extradata[0] == 1 ==> config::framing_named(name, extradata)
            == Ok::<Framing, Error>(
            Framing::LengthPrefixed {
                codec: Codec::H265,
                length_size: (extradata[21] % 4 + 1) as usize,
            },
        ),
{
    lemma_names();
    assert(name[0] == 'h');
    assert(name[1] == 'e' || name[3] == '5' || name[1] == 'v');
    widths_in_bytes(extradata);
}

/// A header that opens with a start code, of three bytes or four, is
/// never read as a record: a stream of either codec that has one is
/// start-coded, whatever else the header holds.
pub proof fn a_coded_header_means_start_codes(name: Seq<char>, rest: Seq<u8>)
    ensures
        ({
            let three = seq![0u8, 0, 1] + rest;
            let four = seq![0u8, 0, 0, 1] + rest;
            &&& (name == "h264"@ || name == "avc1"@ || name == "avc3"@) ==> config::framing_named(
                name,
                three,
            ) == Ok::<Framing, Error>(Framing::AnnexB(Codec::H264)) && config::framing_named(
                name,
                four,
            ) == Ok::<Framing, Error>(Framing::AnnexB(Codec::H264))
            &&& (name == "hevc"@ || name == "h265"@ || name == "hvc1"@ || name == "hev1"@)
                ==> config::framing_named(name, three) == Ok::<Framing, Error>(
                Framing::AnnexB(Codec::H265),
            ) && config::framing_named(name, four) == Ok::<Framing, Error>(
                Framing::AnnexB(Codec::H265),
            )
        }),
{
    let three = seq![0u8, 0, 1] + rest;
    let four = seq![0u8, 0, 0, 1] + rest;
    lemma_names();
    assert(three[0] == 0 && four[0] == 0);
    if name == "h264"@ || name == "avc1"@ || name == "avc3"@ {
        h264_framings(name, three);
        h264_framings(name, four);
    }
    if name == "hevc"@ || name == "h265"@ || name == "hvc1"@ || name == "hev1"@ {
        h265_framings(name, three);
        h265_framings(name, four);
    }
}

/// AV1 has one framing whatever its header is, and a name that is no
/// codec's has none.
pub proof fn other_framings(name: Seq<char>, extradata: Seq<u8>)
    ensures
        name == seq!['a', 'v', '1'] || name == seq!['a', 'v', '0', '1'] ==> config::framing_named(
            name,
            extradata,
        ) == Ok::<Framing, Error>(Framing::Av1),
        !(name == seq!['h', '2', '6', '4'] || name == seq!['a', 'v', 'c', '1'] || name == seq![
            'a',
            'v',
            'c',
            '3',
        ] || name == seq!['h', 'e', 'v', 'c'] || name == seq!['h', '2', '6', '5'] || name == seq![
            'h',
            'v',
            'c',
            '1',
        ] || name == seq!['h', 'e', 'v', '1'] || name == seq!['a', 'v', '1'] || name == seq![
            'a',
            'v',
            '0',
            '1',
        ]) ==> config::framing_named(name, extradata) == Err::<Framing, Error>(
            Error::UnknownCodec,
        ),
{
    lemma_names();
    if name == seq!['a', 'v', '0', '1'] {
        assert(name[2] == '0');
    }
}

/// Which framing a sample entry means: lengths, as wide as its record
/// says, and never start codes. A record too short for its codec is
/// refused, and one that does not open with 1.
pub proof fn sample_entries(name: Seq<char>, record: Seq<u8>)
    ensures
        ({
            let short = Err::<Framing, Error>(Error::Truncated { at: 0 });
            let damaged = Err::<Framing, Error>(
                Error::Malformed {
                    what: "a configuration record that is not of version 1",
                    at: 0,
                },
            );
            &&& (name == seq!['a', 'v', 'c', '1'] || name == seq!['a', 'v', 'c', '3'])
                ==> config::framing_in_entry(name, record) == if record.len() < 7 {
                short
            } else if record[0] != 1 {
                damaged
            } else {
                Ok(
                    Framing::LengthPrefixed {
                        codec: Codec::H264,
                        length_size: (record[4] % 4 + 1) as usize,
                    },
                )
            }
            &&& (name == seq!['h', 'v', 'c', '1'] || name == seq!['h', 'e', 'v', '1'])
                ==> config::framing_in_entry(name, record) == if record.len() < 23 {
                short
            } else if record[0] != 1 {
                damaged
            } else {
                Ok(
                    Framing::LengthPrefixed {
                        codec: Codec::H265,
                        length_size: (record[21] % 4 + 1) as usize,
                    },
                )
            }
            &&& name == seq!['a', 'v', '0', '1'] ==> config::framing_in_entry(name, record) == Ok::<
                Framing,
                Error,
            >(Framing::Av1)
            &&& !(name == seq!['a', 'v', 'c', '1'] || name == seq!['a', 'v', 'c', '3'] || name
                == seq!['h', 'v', 'c', '1'] || name == seq!['h', 'e', 'v', '1'] || name == seq![
                'a',
                'v',
                '0',
                '1',
            ]) ==> config::framing_in_entry(name, record) == Err::<Framing, Error>(
                Error::UnknownCodec,
            )
        }),
{
    lemma_names();
    widths_in_bytes(record);
    if name == seq!['h', 'v', 'c', '1'] || name == seq!['h', 'e', 'v', '1'] {
        assert(name[0] == 'h');
    }
    if name == seq!['a', 'v', '0', '1'] {
        assert(name[2] == '0');
    }
}

/// What an inserted payload goes in as: in H.264 and HEVC an SEI that
/// repeats the temporal id of the first slice, at the place for one; in
/// AV1 a metadata OBU of the type given.
pub proof fn what_a_payload_goes_in_as(
    packet: Seq<u8>,
    payload: Seq<u8>,
    codec: Codec,
    length_size: usize,
    metadata_type: nat,
)
    ensures
        ({
            let found = h26x::units(packet, codec);
            let id = if found.len() > 0 {
                found[0].temporal_id_plus1
            } else {
                1
            };
            config::inserted(Framing::AnnexB(codec), packet, payload, metadata_type)
                == sei::spliced(packet, sei::user_nal(payload, codec, id), codec)
        }),
        config::inserted(Framing::Av1, packet, payload, metadata_type) == obu::spliced(
            packet,
            obu::metadata_obu(metadata_type, payload),
        ),
        annexb::sample_nals(packet, length_size as int) is Err ==> config::inserted(
            Framing::LengthPrefixed { codec, length_size },
            packet,
            payload,
            metadata_type,
        ) == Err::<Seq<u8>, Error>(annexb::sample_nals(packet, length_size as int)->Err_0),
{
}

/// The SEI that a sample takes repeats the temporal id of its first
/// slice, and one that a sample of no slices takes has 1.
pub proof fn a_sample_takes_the_id_of_its_first_slice(
    nals: Seq<Seq<u8>>,
    k: int,
    payload: Seq<u8>,
    codec: Codec,
    length_size: usize,
    metadata_type: nat,
)
    requires
        1 <= length_size <= 4,
        forall|i: int|
            0 <= i < nals.len() ==> (#[trigger] nals[i]).len() < bytes::capacity(
                length_size as nat,
            ),
        0 <= k <= nals.len(),
        forall|i: int| 0 <= i < k ==> !h26x::is_slice(codec, #[trigger] nals[i]),
        k < nals.len() ==> h26x::is_slice(codec, nals[k]),
    ensures
        ({
            let sample = annexb::prefixed(nals, length_size as nat);
            let id = if k < nals.len() {
                h26x::temporal_id_of(codec, nals[k])
            } else {
                1
            };
            config::inserted(
                Framing::LengthPrefixed { codec, length_size },
                sample,
                payload,
                metadata_type,
            ) == sei::sample_spliced(
                sample,
                sei::user_nal(payload, codec, id),
                length_size as int,
                codec,
            )
        }),
{
    annexb_laws::sample_undoes_length_prefixes(nals, length_size as int);
    h26x::lemma_first_slice(codec, nals, 0, nals.len() as int);
    let f = h26x::first_slice(codec, nals, 0, nals.len() as int);
    assert(f == k);
}

/// What is found in a packet is what is found in its NAL units, or in its
/// OBUs, by the same UUID; and a packet that does not parse holds
/// nothing. A NAL unit by itself holds what it holds in a packet.
pub proof fn what_is_found_in_a_packet(
    packet: Seq<u8>,
    codec: Codec,
    length_size: usize,
    uuid: Seq<u8>,
    metadata_type: nat,
)
    ensures
        config::payloads_of(Framing::AnnexB(codec), packet, uuid, metadata_type) == sei::gathered(
            annexb::split(packet),
            codec,
            uuid,
        ),
        ({
            let framing = Framing::LengthPrefixed { codec, length_size };
            let found = config::payloads_of(framing, packet, uuid, metadata_type);
            &&& annexb::sample_nals(packet, length_size as int) matches Ok(nals) ==> found
                == sei::gathered(nals, codec, uuid)
            &&& annexb::sample_nals(packet, length_size as int) is Err ==> found == Seq::<
                Seq<u8>,
            >::empty()
            &&& config::payloads_of_nal(framing, packet, uuid, metadata_type) == sei::gathered(
                seq![packet],
                codec,
                uuid,
            )
        }),
        config::payloads_of_nal(Framing::AnnexB(codec), packet, uuid, metadata_type)
            == sei::gathered(seq![packet], codec, uuid),
        config::payloads_of(Framing::Av1, packet, uuid, metadata_type) == obu::opened_by(
            obu::metadata_found(packet, metadata_type),
            uuid,
        ),
        config::payloads_of_nal(Framing::Av1, packet, uuid, metadata_type) == config::payloads_of(
            Framing::Av1,
            packet,
            uuid,
            metadata_type,
        ),
{
    message_laws::payloads_nal_by_nal(Seq::empty(), packet, Seq::empty(), codec, uuid);
}

/// Reframing an access unit puts lengths in place of its start codes
/// where the framing has lengths, and changes nothing where it has none.
pub proof fn what_reframing_does(annexb: Seq<u8>, codec: Codec, length_size: usize)
    ensures
        config::reframed(Framing::AnnexB(codec), annexb) == Ok::<Seq<u8>, Error>(annexb),
        config::reframed(Framing::Av1, annexb) == Ok::<Seq<u8>, Error>(annexb),
        config::reframed(Framing::LengthPrefixed { codec, length_size }, annexb)
            == annexb::length_prefixed(annexb, length_size as int),
{
}

} // verus!
