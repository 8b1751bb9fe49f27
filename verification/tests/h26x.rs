use ffrwd_nal::annexb::{scan_nals, split_nals, START_CODE};
use ffrwd_nal::h26x::{
    access_units, first_slice_of_picture, Codec, H264_SEI, H265_PREFIX_SEI, H265_SUFFIX_SEI,
};

/// A short Annex B stream shaped like what x264 writes: parameter
/// sets, an encoder SEI, an IDR, then two more pictures.
fn a_stream() -> Vec<u8> {
    let mut out = Vec::new();
    let mut nal = |payload: &[u8], four: bool| {
        out.extend_from_slice(if four { &START_CODE[..] } else { &[0, 0, 1] });
        out.extend_from_slice(payload);
    };
    nal(&[0x67, 0x64, 0x00, 0x1f, 0xac], true); // SPS
    nal(&[0x68, 0xeb, 0xec, 0xb2], true); // PPS
    nal(&[0x06, 0x05, 0x02, 0xaa, 0xbb, 0x80], false); // an SEI
    nal(&[0x65, 0x88, 0x84, 0x00], false); // IDR slice
    nal(&[0x41, 0x9a, 0x01], false); // a P slice
    nal(&[0x41, 0x9a, 0x02], false); // another picture
    out
}

#[test]
fn a_header_says_the_type_in_either_spelling() {
    assert_eq!(Codec::H264.nal_type(&[0x65]), Some(5));
    assert_eq!(Codec::H264.nal_type(&[]), None);
    assert_eq!(Codec::H265.nal_type(&[0x26, 0x01]), Some(19));
    assert_eq!(Codec::H265.nal_type(&[0x26]), None, "the header is 2 bytes");
    assert!(Codec::H264.is_vcl(&[0x65]));
    assert!(!Codec::H264.is_vcl(&[0x67]));
    assert!(Codec::H264.is_keyframe_type(5));
    assert!(Codec::H265.is_keyframe_type(19));
    assert!(!Codec::H265.is_keyframe_type(1));
    assert_eq!(Codec::H264.temporal_id_plus1(&[0x65, 0x88]), 1);
    assert_eq!(Codec::H265.temporal_id_plus1(&[0x02, 0x03]), 3);
    assert_eq!(Codec::H265.temporal_id_plus1(&[0x02]), 1);
    assert!(Codec::H264.is_prefix_sei(&[0x06]));
    assert!(Codec::H265.is_prefix_sei(&[H265_PREFIX_SEI << 1, 1]));
    assert!(!Codec::H265.is_prefix_sei(&[H265_SUFFIX_SEI << 1, 1]));
}

#[test]
fn access_units_cut_where_the_pictures_do() {
    let stream = a_stream();
    let units = access_units(&stream, Codec::H264);
    assert_eq!(units.len(), 3, "three pictures");
    assert!(units[0].keyframe, "the first is an IDR");
    assert!(!units[1].keyframe);
    assert_eq!(units[0].start, 0);
    assert_eq!(units.last().expect("a unit").end, stream.len());
    for pair in units.windows(2) {
        assert_eq!(pair[0].end, pair[1].start, "the units tile the stream");
    }
    // The first access unit inserts before its IDR slice, which is
    // after the parameter sets and after the encoder's own SEI.
    let nals = scan_nals(&stream);
    let idr = nals
        .iter()
        .find(|nal| Codec::H264.nal_type(nal.bytes) == Some(5))
        .expect("an IDR");
    assert_eq!(units[0].insert_at, idr.code);
}

#[test]
fn a_slice_that_does_not_open_a_picture_stays_in_its_access_unit() {
    // Two slices of one picture: the second says first_mb_in_slice
    // is not zero, so its leading bit is clear.
    let mut stream = Vec::new();
    stream.extend_from_slice(&START_CODE);
    stream.extend_from_slice(&[0x65, 0x88, 0x84, 0x00]);
    stream.extend_from_slice(&START_CODE);
    stream.extend_from_slice(&[0x65, 0x11, 0x84, 0x00]);
    assert_eq!(access_units(&stream, Codec::H264).len(), 1);
    assert!(first_slice_of_picture(Codec::H264, &[0x65, 0x88]));
    assert!(!first_slice_of_picture(Codec::H264, &[0x65, 0x11]));
    assert!(!first_slice_of_picture(Codec::H264, &[0x65]));
}

#[test]
fn an_hevc_access_unit_carries_its_temporal_id() {
    let mut stream = Vec::new();
    for (kind, temporal_id_plus1) in [(19u8, 1u8), (1, 3)] {
        stream.extend_from_slice(&START_CODE);
        stream.extend_from_slice(&[kind << 1, temporal_id_plus1, 0x80, 0x00]);
    }
    let units = access_units(&stream, Codec::H265);
    assert_eq!(units.len(), 2);
    assert_eq!(units[0].temporal_id_plus1, 1);
    assert_eq!(units[1].temporal_id_plus1, 3);
    assert!(units[0].keyframe, "type 19 is an IDR");
    assert_eq!(
        Codec::H265.sei_header(3),
        vec![H265_PREFIX_SEI << 1, 3],
        "an SEI repeats the sub-layer"
    );
    assert_eq!(Codec::H265.sei_header(0), vec![H265_PREFIX_SEI << 1, 1]);
    assert_eq!(Codec::H264.sei_header(3), vec![H264_SEI]);
}

#[test]
fn a_stream_of_no_slices_is_still_one_access_unit() {
    let mut stream = Vec::new();
    stream.extend_from_slice(&START_CODE);
    stream.extend_from_slice(&[0x67, 0x64, 0x00]);
    let units = access_units(&stream, Codec::H264);
    assert_eq!(units.len(), 1);
    assert_eq!(units[0].insert_at, units[0].end);
    assert!(access_units(&[], Codec::H264).is_empty());
    assert!(split_nals(&[]).is_empty());
}
