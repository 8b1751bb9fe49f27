use ffrwd_nal::annexb::{
    annexb_to_length_prefixed, length_prefixed_to_annexb, split_nals, START_CODE,
};
use ffrwd_nal::h26x::{access_units, Codec, H265_PREFIX_SEI, H265_SUFFIX_SEI};
use ffrwd_nal::sei::{
    insert_sei_annexb, insert_sei_length_prefixed, parse_sei, parse_sei_rbsp, user_data_annexb,
    user_data_in_nal, user_data_length_prefixed, write_sei, write_user_data, write_user_data_at,
    SeiMessage, USER_DATA_UNREGISTERED,
};
use ffrwd_nal::Error;

/// A UUID of this test's own, standing in for a carried format's.
const UUID: [u8; 16] = [
    0x04, 0x1f, 0x74, 0xa3, 0x80, 0x90, 0x5e, 0x08, 0xbc, 0xfc, 0x76, 0x4d, 0xf2, 0xdc, 0xd4,
    0x66,
];

/// A short Annex B stream shaped like what x264 writes: parameter
/// sets, the encoder's own SEI, an IDR, then two more pictures.
fn a_stream() -> Vec<u8> {
    let mut out = Vec::new();
    let mut nal = |payload: &[u8], four: bool| {
        out.extend_from_slice(if four { &START_CODE[..] } else { &[0, 0, 1] });
        out.extend_from_slice(payload);
    };
    nal(&[0x67, 0x64, 0x00, 0x1f, 0xac], true); // SPS
    nal(&[0x68, 0xeb, 0xec, 0xb2], true); // PPS
    nal(&x264_sei(), false); // the encoder's settings
    nal(&[0x65, 0x88, 0x84, 0x00], false); // IDR slice
    nal(&[0x41, 0x9a, 0x01], false); // a P slice
    nal(&[0x41, 0x9a, 0x02], false); // another picture
    out
}

/// An SEI of payload type 5 with somebody else's UUID, which is
/// what an x264 stream opens with.
fn x264_sei() -> Vec<u8> {
    let mut payload = vec![0xdcu8, 0x45, 0xe9, 0xbd, 0xe6, 0xd9, 0x48, 0xb7];
    payload.extend_from_slice(&[0x96, 0x2c, 0xd8, 0x20, 0xd9, 0x23, 0xee, 0xef]);
    payload.extend_from_slice(b"x264 - core 164 - options: cabac=1");
    write_sei(&[SeiMessage::user_data(&payload)], Codec::H264, 1)
}

fn a_payload() -> Vec<u8> {
    let mut payload = UUID.to_vec();
    payload.push(1);
    payload.extend_from_slice(&[0x02, 0x04, 0x01, 0x00, 0x00, 0x00]);
    payload
}

#[test]
fn a_payload_full_of_start_codes_survives_the_wrap() {
    let mut payload = UUID.to_vec();
    payload.push(1);
    for _ in 0..40 {
        payload.extend_from_slice(&[0, 0, 0, 0, 1, 0, 0, 3, 0, 0, 2]);
    }
    let nal = write_user_data(&payload, Codec::H264);
    assert!(
        !nal.windows(3).any(|w| w == [0, 0, 1]),
        "the SEI NAL holds a start code"
    );
    assert_eq!(user_data_in_nal(&nal, Codec::H264, &UUID), vec![payload]);
}

#[test]
fn a_payload_of_every_size_around_the_ff_boundary_round_trips() {
    for size in [0usize, 1, 254, 255, 256, 509, 510, 511, 1000] {
        let mut payload = UUID.to_vec();
        payload.push(1);
        payload.resize(17 + size, 0x5a);
        for codec in [Codec::H264, Codec::H265] {
            let nal = write_user_data(&payload, codec);
            assert_eq!(
                user_data_in_nal(&nal, codec, &UUID),
                vec![payload.clone()],
                "{size}"
            );
            let messages = parse_sei(&nal, codec).expect("messages");
            assert_eq!(messages.len(), 1);
            assert_eq!(messages[0].payload.len(), payload.len());
            assert_eq!(
                messages[0].user_data_body(&UUID),
                Some(&payload[16..]),
                "{size}"
            );
        }
    }
}

#[test]
fn an_sei_that_is_not_ours_is_left_alone() {
    let nal = x264_sei();
    assert!(user_data_in_nal(&nal, Codec::H264, &UUID).is_empty());
    let messages = parse_sei(&nal, Codec::H264).expect("messages");
    assert_eq!(messages.len(), 1);
    assert_eq!(messages[0].payload_type, USER_DATA_UNREGISTERED);
    assert!(messages[0].payload.starts_with(&[0xdc, 0x45]));
    assert_eq!(messages[0].user_data_body(&UUID), None);
}

#[test]
fn other_sei_types_in_the_same_nal_are_kept_and_ours_is_found() {
    let nal = write_sei(
        &[
            SeiMessage {
                payload_type: 1,
                payload: vec![0x11, 0x22],
            },
            SeiMessage::user_data(&a_payload()),
            SeiMessage {
                payload_type: 137,
                payload: vec![0x33],
            },
        ],
        Codec::H264,
        1,
    );
    let messages = parse_sei(&nal, Codec::H264).expect("messages");
    assert_eq!(
        messages.iter().map(|m| m.payload_type).collect::<Vec<_>>(),
        vec![1, 5, 137]
    );
    assert_eq!(
        user_data_in_nal(&nal, Codec::H264, &UUID),
        vec![a_payload()]
    );
}

#[test]
fn the_hevc_header_is_the_two_bytes_of_a_prefix_sei() {
    let nal = write_user_data(&a_payload(), Codec::H265);
    assert_eq!(&nal[..2], &[0x4e, 0x01]);
    assert_eq!(Codec::H265.nal_type(&nal), Some(H265_PREFIX_SEI));
    assert!(Codec::H265.is_prefix_sei(&nal));
    // The same bytes read as H.264 are a different type entirely,
    // so a reader that has the codec wrong finds nothing.
    assert!(user_data_in_nal(&nal, Codec::H264, &UUID).is_empty());
}

#[test]
fn an_hevc_sei_repeats_its_access_units_temporal_id() {
    let sei = write_user_data_at(&a_payload(), Codec::H265, 3);
    assert_eq!(sei[0] >> 1 & 0x3f, H265_PREFIX_SEI);
    assert_eq!(sei[1] & 0x07, 3, "the SEI is on the same sub-layer");
    assert_eq!(
        user_data_in_nal(&sei, Codec::H265, &UUID),
        vec![a_payload()]
    );
    // The base layer is what a stream without sub-layers gets.
    assert_eq!(write_user_data(&a_payload(), Codec::H265)[1], 1);
}

#[test]
fn a_suffix_sei_is_not_where_a_payload_lives() {
    let mut nal = write_user_data(&a_payload(), Codec::H265);
    nal[0] = H265_SUFFIX_SEI << 1;
    assert!(user_data_in_nal(&nal, Codec::H265, &UUID).is_empty());
    assert!(parse_sei(&nal, Codec::H265).is_err());
}

#[test]
fn a_written_stream_differs_only_by_the_sei() {
    let stream = a_stream();
    let sei = write_user_data(&a_payload(), Codec::H264);
    let units = access_units(&stream, Codec::H264);
    let mut woven = Vec::new();
    let mut at = 0usize;
    for unit in &units {
        woven.extend_from_slice(&stream[at..unit.insert_at]);
        woven.extend_from_slice(&START_CODE);
        woven.extend_from_slice(&sei);
        at = unit.insert_at;
    }
    woven.extend_from_slice(&stream[at..]);

    assert_eq!(
        user_data_annexb(&woven, Codec::H264, &UUID),
        vec![a_payload(); 3]
    );
    // Every NAL that was there still is, in order.
    let original: Vec<&[u8]> = split_nals(&stream);
    let after: Vec<&[u8]> = split_nals(&woven);
    let kept: Vec<&[u8]> = after
        .into_iter()
        .filter(|nal| user_data_in_nal(nal, Codec::H264, &UUID).is_empty())
        .collect();
    assert_eq!(kept, original);
    assert_eq!(access_units(&woven, Codec::H264).len(), units.len());
}

#[test]
fn an_sei_goes_in_before_the_first_slice_either_framing() {
    let stream = a_stream();
    let au = &stream[..access_units(&stream, Codec::H264)[0].end];
    let sei = write_user_data(&a_payload(), Codec::H264);

    let woven = insert_sei_annexb(au, &sei, Codec::H264).expect("a woven access unit");
    let kinds: Vec<Option<u8>> = split_nals(&woven)
        .iter()
        .map(|nal| Codec::H264.nal_type(nal))
        .collect();
    assert_eq!(
        kinds,
        vec![Some(7), Some(8), Some(6), Some(6), Some(5)],
        "ours goes last of the non-slices"
    );
    assert_eq!(
        user_data_annexb(&woven, Codec::H264, &UUID),
        vec![a_payload()]
    );

    for length_size in 1..=4usize {
        let sample = annexb_to_length_prefixed(au, length_size).expect("a sample");
        let woven =
            insert_sei_length_prefixed(&sample, &sei, length_size, Codec::H264).expect("woven");
        assert_eq!(
            user_data_length_prefixed(&woven, length_size, Codec::H264, &UUID).expect("found"),
            vec![a_payload()]
        );
        let back = length_prefixed_to_annexb(&woven, length_size).expect("annex b");
        assert_eq!(
            user_data_annexb(&back, Codec::H264, &UUID),
            vec![a_payload()]
        );
        let kinds: Vec<Option<u8>> = split_nals(&back)
            .iter()
            .map(|nal| Codec::H264.nal_type(nal))
            .collect();
        assert_eq!(kinds, vec![Some(7), Some(8), Some(6), Some(6), Some(5)]);
    }
}

#[test]
fn a_sample_of_no_slices_takes_the_sei_at_the_end() {
    let sei = write_user_data(&a_payload(), Codec::H264);
    let sample = annexb_to_length_prefixed(&[&START_CODE[..], &[0x67, 0x64, 0x00]].concat(), 4)
        .expect("a sample");
    let woven = insert_sei_length_prefixed(&sample, &sei, 4, Codec::H264).expect("woven");
    assert_eq!(
        user_data_length_prefixed(&woven, 4, Codec::H264, &UUID).expect("found"),
        vec![a_payload()]
    );
    assert!(woven.starts_with(&sample), "the SPS is still first");
}

#[test]
fn a_stream_with_no_slices_still_takes_an_sei() {
    let mut stream = Vec::new();
    stream.extend_from_slice(&START_CODE);
    stream.extend_from_slice(&[0x67, 0x64, 0x00]);
    let sei = write_user_data(&a_payload(), Codec::H264);
    let woven = insert_sei_annexb(&stream, &sei, Codec::H264).expect("woven");
    assert_eq!(
        user_data_annexb(&woven, Codec::H264, &UUID),
        vec![a_payload()]
    );
    assert_eq!(
        insert_sei_annexb(&[], &sei, Codec::H264),
        Err(Error::Malformed {
            what: "the bytes hold no access unit",
            at: 0
        })
    );
}

#[test]
fn an_sei_whose_size_overruns_the_nal_gives_up_quietly() {
    // A payload size of 200 with ten bytes behind it. What parsed
    // before it would stand; here nothing did.
    let mut rbsp = vec![5u8, 200];
    rbsp.extend_from_slice(&[0xaa; 10]);
    rbsp.push(0x80);
    let mut nal = vec![0x06u8];
    nal.extend_from_slice(&rbsp);
    assert!(parse_sei(&nal, Codec::H264).expect("messages").is_empty());
    assert!(user_data_in_nal(&nal, Codec::H264, &UUID).is_empty());

    // And with a whole message in front of the broken one, that one
    // is kept.
    let mut rbsp = vec![1u8, 2, 0x11, 0x22, 5, 200];
    rbsp.extend_from_slice(&[0xaa; 10]);
    rbsp.push(0x80);
    let mut nal = vec![0x06u8];
    nal.extend_from_slice(&rbsp);
    let messages = parse_sei(&nal, Codec::H264).expect("messages");
    assert_eq!(messages.len(), 1);
    assert_eq!(messages[0].payload_type, 1);
}

#[test]
fn an_escape_free_payload_is_written_exactly_as_it_would_be_by_hand() {
    // The sei packet filter writes its NAL without escaping it,
    // because its UUID has no zero byte and its notes are ASCII.
    // This is that NAL, built by hand the way that filter builds
    // it, and the escaping writer here gives the same bytes: the
    // reason there is no unescaped spelling of a write.
    const THEIRS: [u8; 16] = [
        0x66, 0x66, 0x72, 0x77, 0x64, 0x2d, 0x73, 0x65, 0x69, 0x2d, 0x74, 0x65, 0x73, 0x74,
        0x21, 0x21,
    ];
    for text in ["a note", &"long note ".repeat(40)] {
        let mut by_hand = vec![0x06u8, 0x05];
        let mut left = THEIRS.len() + text.len();
        while left >= 255 {
            by_hand.push(0xff);
            left -= 255;
        }
        by_hand.push(left as u8);
        by_hand.extend_from_slice(&THEIRS);
        by_hand.extend_from_slice(text.as_bytes());
        by_hand.push(0x80);

        let mut payload = THEIRS.to_vec();
        payload.extend_from_slice(text.as_bytes());
        assert_eq!(write_user_data(&payload, Codec::H264), by_hand);
        assert_eq!(
            user_data_in_nal(&by_hand, Codec::H264, &THEIRS),
            vec![payload]
        );
    }
}

#[test]
fn truncated_and_random_nals_never_panic() {
    let nal = write_user_data(&a_payload(), Codec::H264);
    for cut in 0..nal.len() {
        for codec in [Codec::H264, Codec::H265] {
            let _ = user_data_in_nal(&nal[..cut], codec, &UUID);
            let _ = parse_sei(&nal[..cut], codec);
            let _ = access_units(&nal[..cut], codec);
        }
    }
    let mut seed = 0x9e37_79b9_7f4a_7c15u64;
    for _ in 0..3000 {
        let mut bytes = Vec::new();
        seed = seed.wrapping_mul(6364136223846793005).wrapping_add(1);
        for _ in 0..(seed >> 40) % 48 {
            seed = seed.wrapping_mul(6364136223846793005).wrapping_add(1);
            bytes.push((seed >> 33) as u8);
        }
        for codec in [Codec::H264, Codec::H265] {
            let _ = user_data_in_nal(&bytes, codec, &UUID);
            let _ = user_data_annexb(&bytes, codec, &UUID);
            let _ = access_units(&bytes, codec);
            let _ = insert_sei_annexb(&bytes, &nal, codec);
            for length_size in 1..=4 {
                let _ = user_data_length_prefixed(&bytes, length_size, codec, &UUID);
                let _ = insert_sei_length_prefixed(&bytes, &nal, length_size, codec);
            }
        }
        let _ = parse_sei_rbsp(&bytes);
    }
}
