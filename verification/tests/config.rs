use ffrwd_nal::annexb::{split_length_prefixed, START_CODE};
use ffrwd_nal::config::{
    avcc_length_size, avcc_to_annexb_extradata, build_avcc, framing_of, hvcc_length_size,
    parse_parameter_sets, Framing,
};
use ffrwd_nal::{Codec, Error, Select};

const UUID: [u8; 16] = [
    0x04, 0x1f, 0x74, 0xa3, 0x80, 0x90, 0x5e, 0x08, 0xbc, 0xfc, 0x76, 0x4d, 0xf2, 0xdc, 0xd4,
    0x66,
];

fn select() -> Select {
    Select::new(UUID, 25)
}

fn payload() -> Vec<u8> {
    let mut payload = UUID.to_vec();
    payload.extend_from_slice(b"a record of somebody's own");
    payload
}

/// A one-slice H.264 access unit in Annex B: an SPS, a PPS and an
/// IDR slice whose first bit says it opens the picture.
fn annexb_h264() -> Vec<u8> {
    let mut out = Vec::new();
    for nal in [
        vec![0x67u8, 0x42, 0x00, 0x0a, 0x96],
        vec![0x68, 0xce, 0x3c, 0x80],
        vec![0x65, 0x88, 0x84, 0x00, 0x21],
    ] {
        out.extend_from_slice(&START_CODE);
        out.extend_from_slice(&nal);
    }
    out
}

#[test]
fn extradata_round_trips_through_the_avcc() {
    // The parameter sets go in Annex B, come back out Annex B, and
    // the record between them declares 4-byte NAL lengths.
    let annexb: &[u8] = &[
        0, 0, 0, 1, 0x67, 66, 0xc0, 30, 0xab, 0xcd, // SPS
        0, 0, 0, 1, 0x68, 0xee, 0x06, 0xf2, // PPS
    ];
    let (sps, pps) = parse_parameter_sets(annexb);
    let avcc = build_avcc(&sps, &pps).expect("an avcC");
    assert_eq!(avcc_length_size(&avcc), 4);
    assert_eq!(avcc_to_annexb_extradata(&avcc).expect("extradata"), annexb);
}

#[test]
fn a_high_profile_record_keeps_its_sets_past_the_extension_bytes() {
    // A High-profile avcC carries three extension bytes after the
    // PPS; the sets read back from before them either way.
    let annexb: &[u8] = &[
        0, 0, 0, 1, 0x67, 0x64, 0x00, 0x1f, 0xac, 0xd9, 0x40, 0x50, 0x05, 0xbb, 0, 0, 0, 1,
        0x68, 0xeb, 0xec, 0xb2, 0x2c,
    ];
    let (sps, pps) = parse_parameter_sets(annexb);
    let avcc = build_avcc(&sps, &pps).expect("an avcC");
    assert_eq!(avcc_to_annexb_extradata(&avcc).expect("extradata"), annexb);
    assert_eq!(&avcc[avcc.len() - 4..], &[0xfd, 0xf8, 0xf8, 0x00]);
}

#[test]
fn a_record_that_names_no_set_is_refused() {
    assert_eq!(
        avcc_to_annexb_extradata(&[1, 0x64, 0, 0x1f]),
        Err(Error::Malformed {
            what: "an avcC too short to name a parameter set",
            at: 0
        })
    );
    assert_eq!(
        avcc_to_annexb_extradata(&[1, 0x64, 0, 0x1f, 0xff, 0xe0, 0x00]),
        Err(Error::Malformed {
            what: "an avcC that carries no parameter set",
            at: 0
        })
    );
    assert!(build_avcc(&[], &[vec![0x68, 0xee]]).is_err());
    assert!(build_avcc(&[vec![0x67, 66, 0xc0, 30]], &[]).is_err());
    assert!(build_avcc(&[vec![0x67, 66]], &[vec![0x68]]).is_err());
    // More sets than the record's counts can spell.
    assert_eq!(
        build_avcc(&vec![vec![0x67, 66, 0xc0, 30]; 32], &[vec![0x68]]),
        Err(Error::TooLarge { at: 0 })
    );
    assert_eq!(
        build_avcc(&[vec![0x67, 66, 0xc0, 30]], &vec![vec![0x68]; 256]),
        Err(Error::TooLarge { at: 0 })
    );
    // And a set longer than its own length field.
    let huge = vec![0x67; 0x1_0000];
    assert_eq!(
        build_avcc(&[huge], &[vec![0x68]]),
        Err(Error::TooLarge { at: 0x1_0000 })
    );
}

#[test]
fn a_truncated_record_is_refused_not_panicked() {
    let annexb: &[u8] = &[
        0, 0, 0, 1, 0x67, 66, 0xc0, 30, 0xab, 0xcd, 0, 0, 0, 1, 0x68, 0xee, 0x06, 0xf2,
    ];
    let (sps, pps) = parse_parameter_sets(annexb);
    let avcc = build_avcc(&sps, &pps).expect("an avcC");
    for cut in 0..avcc.len() {
        let _ = avcc_to_annexb_extradata(&avcc[..cut]);
        let _ = avcc_length_size(&avcc[..cut]);
        let _ = hvcc_length_size(&avcc[..cut]);
    }
    let mut seed = 0x51ed_2c93_7f10_ab44u64;
    for _ in 0..3000 {
        let mut bytes = Vec::new();
        seed = seed.wrapping_mul(6364136223846793005).wrapping_add(1);
        for _ in 0..(seed >> 40) % 48 {
            seed = seed.wrapping_mul(6364136223846793005).wrapping_add(1);
            bytes.push((seed >> 33) as u8);
        }
        let _ = avcc_to_annexb_extradata(&bytes);
        let (sps, pps) = parse_parameter_sets(&bytes);
        let _ = build_avcc(&sps, &pps);
        let _ = framing_of("h264", &bytes);
        let _ = framing_of("hevc", &bytes);
    }
}

#[test]
fn extradata_tells_the_framing_and_the_length_width() {
    assert_eq!(
        framing_of("h264", &[]).expect("a framing"),
        Framing::AnnexB(Codec::H264)
    );
    assert_eq!(
        framing_of("h264", &[0, 0, 0, 1, 0x67, 0x42, 0x00]).expect("a framing"),
        Framing::AnnexB(Codec::H264)
    );
    // An avcC: version, profile, compatibility, level, then the
    // length size less one in the low two bits.
    let avcc = [1u8, 0x42, 0x00, 0x0a, 0xff, 0xe1, 0x00];
    assert_eq!(
        framing_of("h264", &avcc).expect("a framing"),
        Framing::LengthPrefixed {
            codec: Codec::H264,
            length_size: 4
        }
    );
    let two_byte = [1u8, 0x42, 0x00, 0x0a, 0xfd, 0xe1, 0x00];
    assert_eq!(
        framing_of("h264", &two_byte).expect("a framing"),
        Framing::LengthPrefixed {
            codec: Codec::H264,
            length_size: 2
        }
    );
    // An hvcC is longer, and its length size sits at byte 21.
    let mut hvcc = vec![1u8; 23];
    hvcc[21] = 0xf3;
    assert_eq!(
        framing_of("hevc", &hvcc).expect("a framing"),
        Framing::LengthPrefixed {
            codec: Codec::H265,
            length_size: 4
        }
    );
    assert_eq!(
        framing_of("av1", &[0x81, 0x05]).expect("a framing"),
        Framing::Av1
    );
    assert_eq!(framing_of("vp9", &[]), Err(Error::UnknownCodec));
    // A record too short to be one is read as Annex B, which is
    // what a stream with no header at all is.
    assert_eq!(
        framing_of("h264", &[1, 0x42, 0x00]).expect("a framing"),
        Framing::AnnexB(Codec::H264)
    );
}

#[test]
fn the_defaults_on_a_short_record_are_four_bytes() {
    assert_eq!(avcc_length_size(&[1, 0x64, 0, 0x1f, 0xff]), 4);
    assert_eq!(avcc_length_size(&[]), 4);
    assert_eq!(avcc_length_size(&[1, 0x64, 0, 0x1f, 0xfd]), 2);
    assert_eq!(hvcc_length_size(&[0; 22]), 1);
    assert_eq!(hvcc_length_size(&[]), 4);
}

#[test]
fn what_goes_in_comes_back_out_of_every_framing() {
    let packet = annexb_h264();
    let annexb = Framing::AnnexB(Codec::H264);
    let woven = annexb.insert(&packet, &payload(), select()).expect("woven");
    assert_eq!(annexb.payloads(&woven, select()), vec![payload()]);
    assert!(
        annexb.payloads(&packet, select()).is_empty(),
        "a payload came from nowhere"
    );

    let prefixed = Framing::LengthPrefixed {
        codec: Codec::H264,
        length_size: 4,
    };
    let sample = prefixed.reframe(&packet).expect("a sample");
    let woven = prefixed
        .insert(&sample, &payload(), select())
        .expect("woven");
    assert_eq!(prefixed.payloads(&woven, select()), vec![payload()]);
    let nals = split_length_prefixed(&woven, 4).expect("the NALs");
    assert_eq!(nals.len(), 4, "three NALs and the SEI");
    assert_eq!(nals[2][0] & 0x1f, 6, "the SEI is before the slice");
    assert_eq!(
        prefixed.payloads_in_nal(nals[2], select()),
        vec![payload()],
        "and one NAL of it is enough to read"
    );

    // A temporal delimiter, a sequence header and a frame.
    let obus = vec![0x12u8, 0x00, 0x0a, 0x01, 0x00, 0x32, 0x02, 0x00, 0x00];
    let woven = Framing::Av1
        .insert(&obus, &payload(), select())
        .expect("woven");
    assert!(woven.len() > obus.len());
    assert_eq!(Framing::Av1.payloads(&woven, select()), vec![payload()]);

    // Bytes that are not the framing they were said to be answer
    // nothing rather than stopping a read.
    assert!(prefixed
        .payloads(&[0xff, 0xff, 0xff, 0xff, 1], select())
        .is_empty());
}

#[test]
fn a_payload_goes_in_before_the_first_slice_and_moves_nothing() {
    let packet = annexb_h264();
    let framing = Framing::AnnexB(Codec::H264);
    let woven = framing
        .insert(&packet, &payload(), select())
        .expect("woven");
    assert!(woven.len() > packet.len());
    // The parameter sets are still first, the slice still last, and
    // the bytes of both are the bytes that arrived.
    assert!(woven.starts_with(&packet[..packet.len() - 9]));
    assert!(woven.ends_with(&packet[packet.len() - 9..]));
    let read = framing.payloads(&woven, select());
    assert_eq!(read, vec![payload()], "one payload, and it is ours");
}
