use ffrwd_nal::codec_string::{avc_codec, avc_codec_from};

#[test]
fn the_codec_string_is_the_avcc_profile_and_level() {
    // avcC: configurationVersion, profile 0x64, compat 0x00, level 0x1f.
    assert_eq!(avc_codec(&[1, 0x64, 0x00, 0x1f, 0xff]), "avc1.64001f");
}

#[test]
fn an_unreadable_avcc_still_names_the_codec() {
    assert_eq!(avc_codec(&[1, 0x64]), "avc1");
    assert_eq!(avc_codec(&[]), "avc1");
}

#[test]
fn the_streams_own_profile_and_level_agree_with_the_avcc() {
    // An intact avcC and the stream's numbers spell the same string;
    // the middle byte is the avcC's, the outer two the stream's.
    let avcc = [1u8, 0x64, 0x00, 0x1f, 0xff];
    assert_eq!(avc_codec_from(0x64, 0x1f, &avcc), avc_codec(&avcc));
    assert_eq!(avc_codec_from(0x64, 0x1f, &avcc), "avc1.64001f");
    // Constrained baseline: the constraint flags come off the avcC.
    assert_eq!(
        avc_codec_from(66, 30, &[1, 0x42, 0xc0, 0x1e]),
        "avc1.42c01e"
    );
}

#[test]
fn without_an_avcc_the_constraint_flags_read_zero() {
    assert_eq!(avc_codec_from(0x64, 0x28, &[]), "avc1.640028");
}
