//! Every error with an input that gives it, and the edges of each
//! reader.

use ffrwd_nal::annexb::{
    annexb_to_length_prefixed, length_prefixed_to_annexb, split_length_prefixed,
};
use ffrwd_nal::config::{
    avcc_to_annexb_extradata, build_avcc, framing_of, framing_of_entry, Framing, CODECS,
};
use ffrwd_nal::feed::{Feed, StreamKind, DEFAULT_LIMIT};
use ffrwd_nal::h26x::{access_units, first_slice_of_picture, Codec};
use ffrwd_nal::obu;
use ffrwd_nal::sei::{
    insert_sei_annexb, insert_sei_length_prefixed, parse_sei, parse_sei_rbsp, SeiMessage,
};
use ffrwd_nal::sps::{formats, profile_level, BitReader, Formats};
use ffrwd_nal::{Error, Select};

#[test]
fn an_error_says_what_and_where_in_words() {
    assert_eq!(
        Error::Truncated { at: 0 }.to_string(),
        "the bytes end inside a value at byte 0"
    );
    assert_eq!(
        Error::TooLarge { at: 1_048_576 }.to_string(),
        "a value at byte 1048576 too large for the field it goes in"
    );
    assert_eq!(Error::TooLarge { at: 7 }.at(), Some(7));
    assert_eq!(
        Error::UnknownCodec.to_string(),
        "a codec with no NAL or OBU framing here"
    );
}

#[test]
fn a_length_prefix_is_one_to_four_bytes() {
    let refused = Error::Malformed { what: "a NAL length prefix is 1 to 4 bytes", at: 0 };
    for width in [0usize, 5, usize::MAX] {
        assert_eq!(annexb_to_length_prefixed(&[], width), Err(refused));
        assert_eq!(split_length_prefixed(&[], width), Err(refused));
        assert_eq!(length_prefixed_to_annexb(&[], width), Err(refused));
        assert_eq!(insert_sei_length_prefixed(&[], &[], width, Codec::H264), Err(refused));
    }
    assert_eq!(split_length_prefixed(&[], 3), Ok(vec![]));
}

#[test]
fn a_sample_that_ends_early_says_where() {
    assert_eq!(
        split_length_prefixed(&[0, 1, 0xaa, 0], 2),
        Err(Error::Malformed { what: "the sample ends inside a NAL length", at: 3 })
    );
    assert_eq!(
        split_length_prefixed(&[0, 1, 0xaa, 0, 2, 0xbb], 2),
        Err(Error::Malformed { what: "a NAL overruns the sample", at: 5 })
    );
}

#[test]
fn an_sei_too_long_for_its_prefix_is_refused_where_it_would_go() {
    let sample = [2u8, 0x67, 0x64, 2, 0x65, 0x88];
    assert_eq!(
        insert_sei_length_prefixed(&sample, &[0x06; 256], 1, Codec::H264),
        Err(Error::TooLarge { at: 3 })
    );
}

#[test]
fn what_is_no_sei_is_not_parsed() {
    let refused = Error::Malformed { what: "the NAL unit is not a prefix SEI", at: 0 };
    assert_eq!(parse_sei(&[], Codec::H264), Err(refused));
    assert_eq!(parse_sei(&[0x65], Codec::H264), Err(refused));
    assert_eq!(parse_sei(&[0x4e], Codec::H265), Err(refused));
    assert_eq!(parse_sei(&[0x06], Codec::H264), Ok(vec![]));
    assert_eq!(
        insert_sei_annexb(&[1, 2, 3], &[0x06], Codec::H264),
        Err(Error::Malformed { what: "the bytes hold no access unit", at: 0 })
    );
}

#[test]
fn sei_numbers_are_ff_bytes_and_a_remainder() {
    assert_eq!(
        parse_sei_rbsp(&[0xff, 0x05, 0x01, 0xaa, 0x80, 0, 0]),
        vec![SeiMessage { payload_type: 260, payload: vec![0xaa] }]
    );
    // Without a stop bit the last byte is the payload's own.
    assert_eq!(
        parse_sei_rbsp(&[4, 1, 0xaa]),
        vec![SeiMessage { payload_type: 4, payload: vec![0xaa] }]
    );
    assert_eq!(parse_sei_rbsp(&[]), vec![]);
}

#[test]
fn a_message_has_a_body_only_under_its_own_uuid() {
    let mut payload = vec![7u8; 16];
    payload.extend_from_slice(&[1, 2]);
    let message = SeiMessage::user_data(&payload);
    assert_eq!(message.user_data_body(&[7; 16]), Some(&[1u8, 2][..]));
    assert_eq!(message.user_data_body(&[8; 16]), None);
    let other = SeiMessage { payload_type: 4, payload };
    assert!(!other.is_user_data(&[7; 16]));
    assert!(!SeiMessage::user_data(&[7; 15]).is_user_data(&[7; 16]));
}

#[test]
fn a_leb128_of_nine_bytes_is_refused() {
    assert_eq!(
        obu::leb128(&[0x80; 9], 1),
        Err(Error::Malformed { what: "a leb128 longer than eight bytes", at: 1 })
    );
    assert_eq!(obu::leb128(&[0x80, 0x80], 0), Err(Error::Truncated { at: 0 }));
    assert_eq!(obu::leb128(&[], 5), Err(Error::Truncated { at: 5 }));
}

#[test]
fn an_obu_says_where_it_broke() {
    assert_eq!(obu::scan_obus(&[0x12, 0x00, 0x16]), Err(Error::Truncated { at: 2 }));
    assert_eq!(obu::scan_obus(&[0x12, 0x00, 0x12]), Err(Error::Truncated { at: 3 }));
    assert_eq!(obu::scan_obus(&[0x12, 0x02, 0x00]), Err(Error::Truncated { at: 0 }));
    assert_eq!(
        obu::scan_obus(&[0x12, 0x00, 0x92]),
        Err(Error::Malformed { what: "an OBU with its forbidden bit set", at: 2 })
    );
    let mut long = vec![0x12u8];
    long.extend_from_slice(&[0xff; 8]);
    assert_eq!(
        obu::scan_obus(&long),
        Err(Error::Malformed { what: "a leb128 longer than eight bytes", at: 1 })
    );
    assert_eq!(
        obu::insert_metadata_obu(&[], &[0x2a, 0x00]),
        Err(Error::Malformed { what: "the bytes hold no temporal unit", at: 0 })
    );
    assert_eq!(obu::insert_metadata_obu(&[0x12], &[]), Err(Error::Truncated { at: 1 }));
}

#[test]
fn metadata_is_not_read_out_of_what_is_none() {
    let bytes = [0x0a, 0x02, 25, 0x80, 0x2a, 0x00, 0x2a, 0x02, 25, 0x80];
    let obus = obu::scan_obus(&bytes).expect("OBUs");
    assert_eq!(obu::metadata_payload(&obus[0], 25), None);
    assert_eq!(obu::metadata_payload(&obus[1], 25), None);
    assert_eq!(obu::metadata_payload(&obus[2], 25), Some(&[][..]));
    assert_eq!(obu::metadata_payload(&obus[2], 26), None);
}

#[test]
fn a_record_that_cannot_be_built_says_why() {
    let pps = vec![vec![0x68u8]];
    let baseline = vec![vec![0x67u8, 66, 0xc0, 30]];
    assert_eq!(
        build_avcc(&[], &pps),
        Err(Error::Malformed { what: "the extradata carries no SPS", at: 0 })
    );
    assert_eq!(
        build_avcc(&baseline, &[]),
        Err(Error::Malformed { what: "the extradata carries no PPS", at: 0 })
    );
    assert_eq!(
        build_avcc(&[vec![0x67, 100, 0, 31]], &pps),
        Err(Error::Malformed {
            what: "an SPS of a high profile too short to read its formats",
            at: 0
        })
    );
    assert_eq!(
        build_avcc(&baseline, &[vec![0x68], vec![0x68; 0x1_0001]]),
        Err(Error::TooLarge { at: 0x1_0001 })
    );
    assert_eq!(
        build_avcc(&baseline, &pps),
        Ok(vec![1, 66, 0xc0, 30, 0xff, 0xe1, 0, 4, 0x67, 66, 0xc0, 30, 1, 0, 1, 0x68])
    );
}

#[test]
fn a_record_that_ends_early_says_where() {
    assert_eq!(avcc_to_annexb_extradata(&[1, 66, 0, 30, 0xff, 0xe1]), Err(Error::Truncated { at: 6 }));
    assert_eq!(
        avcc_to_annexb_extradata(&[1, 66, 0, 30, 0xff, 0xe1, 0, 2, 0x67]),
        Err(Error::Truncated { at: 8 })
    );
    assert_eq!(
        avcc_to_annexb_extradata(&[1, 66, 0, 30, 0xff, 0xe1, 0, 1, 0x67]),
        Err(Error::Truncated { at: 9 })
    );
    assert_eq!(
        avcc_to_annexb_extradata(&[1, 66, 0, 30, 0xff, 0xe1, 0, 1, 0x67, 1, 0]),
        Err(Error::Truncated { at: 10 })
    );
}

#[test]
fn a_codec_name_is_read_as_its_codec() {
    assert_eq!(CODECS, ["h264", "hevc", "av1"]);
    let mut hvcc = vec![1u8; 23];
    hvcc[21] = 0xfd;
    for name in ["h264", "avc1", "avc3"] {
        assert_eq!(framing_of(name, &[]), Ok(Framing::AnnexB(Codec::H264)));
        assert_eq!(
            framing_of(name, &[1, 66, 0, 30, 0xfe, 0xe1, 0]),
            Ok(Framing::LengthPrefixed { codec: Codec::H264, length_size: 3 })
        );
    }
    for name in ["hevc", "h265", "hvc1", "hev1"] {
        assert_eq!(framing_of(name, &hvcc[..22]), Ok(Framing::AnnexB(Codec::H265)));
        assert_eq!(
            framing_of(name, &hvcc),
            Ok(Framing::LengthPrefixed { codec: Codec::H265, length_size: 2 })
        );
    }
    for name in ["av1", "av01"] {
        assert_eq!(framing_of(name, &[1; 30]), Ok(Framing::Av1));
    }
    for name in ["", "h26", "h2645", "H264", "vp9"] {
        assert_eq!(framing_of(name, &[]), Err(Error::UnknownCodec));
    }
}

#[test]
fn a_sample_entry_is_never_start_coded() {
    let avcc = [1u8, 66, 0, 30, 0xff, 0xe1, 0];
    let hvcc = vec![1u8; 23];
    let damaged = Error::Malformed {
        what: "a configuration record that is not of version 1",
        at: 0,
    };
    for kind in ["avc1", "avc3"] {
        assert_eq!(
            framing_of_entry(kind, &avcc),
            Ok(Framing::LengthPrefixed { codec: Codec::H264, length_size: 4 })
        );
        assert_eq!(framing_of_entry(kind, &avcc[..6]), Err(Error::Truncated { at: 0 }));
        assert_eq!(framing_of_entry(kind, &[0; 7]), Err(damaged));
    }
    for kind in ["hvc1", "hev1"] {
        assert_eq!(
            framing_of_entry(kind, &hvcc),
            Ok(Framing::LengthPrefixed { codec: Codec::H265, length_size: 2 })
        );
        assert_eq!(framing_of_entry(kind, &hvcc[..22]), Err(Error::Truncated { at: 0 }));
        assert_eq!(framing_of_entry(kind, &[2; 23]), Err(damaged));
    }
    assert_eq!(framing_of_entry("av01", &[]), Ok(Framing::Av1));
    for kind in ["h264", "av1", "mp4a", ""] {
        assert_eq!(framing_of_entry(kind, &avcc), Err(Error::UnknownCodec));
    }
}

#[test]
fn reframing_only_changes_a_length_prefixed_packet() {
    let au = [0u8, 0, 1, 0x65, 0x88];
    assert_eq!(Framing::AnnexB(Codec::H264).reframe(&au), Ok(au.to_vec()));
    assert_eq!(Framing::Av1.reframe(&au), Ok(au.to_vec()));
    let framing = Framing::LengthPrefixed { codec: Codec::H264, length_size: 3 };
    assert_eq!(framing.reframe(&au), Ok(vec![0, 0, 2, 0x65, 0x88]));
}

#[test]
fn an_insert_fails_as_its_packet_does() {
    let select = Select::new([7; 16], 25);
    assert!(Framing::AnnexB(Codec::H265).insert(&[], &[7; 16], select).is_err());
    let framing = Framing::LengthPrefixed { codec: Codec::H264, length_size: 4 };
    assert_eq!(
        framing.insert(&[0, 0, 0], &[7; 16], select),
        Err(Error::Malformed { what: "the sample ends inside a NAL length", at: 0 })
    );
    assert_eq!(Framing::Av1.insert(&[0x12], &[7; 16], select), Err(Error::Truncated { at: 1 }));
    // An empty sample has no slice and takes the SEI all the same.
    let woven = framing.insert(&[], &[7; 16], select).expect("woven");
    assert_eq!(framing.payloads(&woven, select), vec![vec![7; 16]]);
}

#[test]
fn an_hevc_insert_repeats_the_temporal_id_of_the_slice() {
    let select = Select::new([7; 16], 25);
    let packet = [0u8, 0, 0, 1, 0x02, 0x05, 0x80];
    let woven = Framing::AnnexB(Codec::H265).insert(&packet, &[7; 16], select).expect("woven");
    assert_eq!(&woven[..6], &[0, 0, 0, 1, 0x4e, 0x05]);
    let framing = Framing::LengthPrefixed { codec: Codec::H265, length_size: 1 };
    let woven = framing.insert(&[3, 0x02, 0x05, 0x80], &[7; 16], select).expect("woven");
    assert_eq!(&woven[1..3], &[0x4e, 0x05]);
}

#[test]
fn exp_golomb_values_are_exact() {
    // 00000 1 00110: 31 and 6 more.
    let mut bits = BitReader::new(&[0b0000_0100, 0b1100_0000]);
    assert_eq!(bits.ue(), Some(37));
    assert_eq!(bits.bit(), Some(0));
    // 31 zeroes and 31 ones behind the set bit.
    let mut widest = vec![0u8, 0, 0, 1];
    widest.extend_from_slice(&[0xff, 0xff, 0xff, 0xfe]);
    assert_eq!(BitReader::new(&widest).ue(), Some(u32::MAX - 1));
    // 32 zeroes are too many, and leave the reader behind them.
    let mut bits = BitReader::new(&[0, 0, 0, 0, 0x80]);
    assert_eq!(bits.ue(), None);
    assert_eq!(bits.bit(), Some(1));
}

#[test]
fn a_skip_past_the_end_moves_nothing() {
    let mut bits = BitReader::new(&[0x40, 0x00]);
    assert_eq!(bits.skip(1), Some(()));
    assert_eq!(bits.skip(usize::MAX), None);
    assert_eq!(bits.skip(16), None);
    assert_eq!(bits.bit(), Some(1));
    assert_eq!(bits.skip(14), Some(()));
    assert_eq!(bits.bit(), None);
    assert_eq!(bits.skip(0), Some(()));
}

#[test]
fn formats_of_a_444_sps_skip_the_colour_plane_flag() {
    // id 0, chroma format 3, the flag, depths 2 and 1.
    let sps = [0x67u8, 244, 0, 31, 0b1001_0000, 0b1101_0000];
    assert_eq!(
        formats(&sps),
        Some(Formats {
            chroma_format_idc: 3,
            bit_depth_luma_minus8: 2,
            bit_depth_chroma_minus8: 1
        })
    );
    assert_eq!(formats(&sps[..5]), None);
    assert_eq!(formats(&[]), None);
}

#[test]
fn a_header_with_no_sps_has_no_profile() {
    assert_eq!(profile_level(&[]), None);
    assert_eq!(profile_level(&[1, 66, 0]), None);
    assert_eq!(profile_level(&[0, 0, 1, 0x68, 1, 2, 3]), None);
    assert_eq!(profile_level(&[0, 0, 1, 0x67, 66]), None);
    assert_eq!(profile_level(&[0, 0, 1, 0x68, 0, 0, 1, 0x67, 66, 0, 30]), Some((66, 30)));
}

#[test]
fn types_and_boundaries_of_each_codec() {
    assert_eq!(Codec::H264.nal_type(&[]), None);
    assert_eq!(Codec::H265.nal_type(&[0x40]), None);
    assert!(Codec::H264.is_keyframe_type(5) && !Codec::H264.is_keyframe_type(1));
    assert!(Codec::H265.is_keyframe_type(16) && Codec::H265.is_keyframe_type(23));
    assert!(!Codec::H265.is_keyframe_type(15) && !Codec::H265.is_keyframe_type(24));
    for kind in 0..64u8 {
        assert_eq!(Codec::H264.is_vcl_type(kind), (1..=5).contains(&kind));
        assert_eq!(Codec::H265.is_vcl_type(kind), kind <= 31);
    }
    assert!(!first_slice_of_picture(Codec::H264, &[0x65]));
    assert!(first_slice_of_picture(Codec::H264, &[0x65, 0x80]));
    assert_eq!(Codec::H265.temporal_id_plus1(&[0x02]), 1);
    assert_eq!(Codec::H265.temporal_id_plus1(&[0x02, 0x08]), 1);
    assert!(access_units(&[0, 0, 1], Codec::H264).is_empty());
}

#[test]
fn a_feed_begins_empty_and_refuses_a_broken_stream() {
    let select = Select::new([7; 16], 25);
    let mut feed = Feed::new(StreamKind::Av1, select);
    assert_eq!(DEFAULT_LIMIT, 8 << 20);
    assert_eq!((feed.count(), feed.footprint(), feed.dropped()), (0, 0, 0));
    // A whole delimiter, and then a broken byte: the error takes what
    // was held with it.
    assert!(feed.push(&[0x12, 0x00]).expect("a push").is_empty());
    assert_eq!(
        feed.push(&[0x92]),
        Err(Error::Malformed { what: "an OBU with its forbidden bit set", at: 2 })
    );
    assert_eq!((feed.count(), feed.footprint(), feed.dropped()), (0, 0, 1));
    // A number that is too long is held, not refused.
    assert!(feed.push(&[0x12, 0xff, 0xff, 0xff, 0xff, 0xff, 0xff, 0xff, 0xff, 0xff]).is_ok());
    assert_eq!((feed.footprint(), feed.dropped()), (10, 1));
    assert_eq!(feed.finish().expect("what is left").len(), 1);
}
