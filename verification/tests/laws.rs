//! The laws of the crate on concrete values.

use ffrwd_nal::annexb::{
    annexb_to_length_prefixed, length_prefixed_to_annexb, scan_nals, split_length_prefixed,
    split_nals, START_CODE,
};
use ffrwd_nal::codec_string::{avc_codec, avc_codec_from};
use ffrwd_nal::config::{
    avcc_length_size, avcc_to_annexb_extradata, build_avcc, framing_of, parse_parameter_sets,
    Framing,
};
use ffrwd_nal::ep::{insert_emulation_prevention, remove_emulation_prevention};
use ffrwd_nal::feed::{Carried, Feed, StreamKind};
use ffrwd_nal::h26x::{access_units, Codec};
use ffrwd_nal::obu;
use ffrwd_nal::sei::{
    insert_sei_length_prefixed, parse_sei, parse_sei_rbsp, user_data_annexb, user_data_in_nal,
    write_sei, write_user_data, write_user_data_at, SeiMessage,
};
use ffrwd_nal::sps::profile_level;
use ffrwd_nal::Select;

const UUID: [u8; 16] = [
    0x9c, 0x00, 0x00, 0x01, 0x00, 0x00, 0x03, 0x55, 0x21, 0x7e, 0x10, 0x44, 0x6b, 0x00, 0x00, 0x02,
];

fn select() -> Select {
    Select::new(UUID, 25)
}

/// A payload full of what an escape has to take care of.
fn payload(id: u8) -> Vec<u8> {
    let mut out = UUID.to_vec();
    out.extend_from_slice(&[id, 0, 0, 0, 1, 0, 0, 3, 0, 0]);
    out
}

fn start_coded(nals: &[&[u8]]) -> Vec<u8> {
    let mut out = Vec::new();
    for nal in nals {
        out.extend_from_slice(&START_CODE);
        out.extend_from_slice(nal);
    }
    out
}

/// Three H.264 pictures: parameter sets and an IDR, a slice behind a
/// three byte start code, and a slice behind padding.
fn h264() -> Vec<u8> {
    let mut out = start_coded(&[&[0x67, 0x64, 0x00, 0x1f], &[0x68, 0xee], &[0x65, 0x88, 0x84]]);
    out.extend_from_slice(&[0, 0, 1, 0x41, 0x9a, 0x02]);
    out.extend_from_slice(&[0, 0, 0, 0, 0, 1, 0x41, 0x9a, 0x04, 0x80]);
    out
}

/// Two HEVC pictures, the second of a higher temporal layer.
fn h265() -> Vec<u8> {
    start_coded(&[
        &[0x40, 0x01, 0x0c],
        &[0x26, 0x01, 0x80, 0x11],
        &[0x02, 0x03, 0x80, 0x22],
    ])
}

/// Three temporal units: a sequence header on the first only, and no
/// frame in the second.
fn av1() -> Vec<u8> {
    vec![
        0x12, 0x00, 0x0a, 0x02, 0xaa, 0xbb, 0x32, 0x01, 0x01, // delimiter, header, frame
        0x12, 0x00, // a delimiter alone
        0x12, 0x00, 0x1a, 0x01, 0x05, 0x22, 0x01, 0x06, // delimiter, frame header, tiles
    ]
}

#[test]
fn unescaping_undoes_escaping_and_leaves_no_start_code() {
    let bytes = [0u8, 0, 0, 0, 0, 1, 0, 0, 2, 0, 0, 3, 0, 0, 4, 0, 0];
    let escaped = insert_emulation_prevention(&bytes);
    assert_eq!(
        escaped,
        vec![0, 0, 3, 0, 0, 3, 0, 1, 0, 0, 3, 2, 0, 0, 3, 3, 0, 0, 4, 0, 0]
    );
    assert_eq!(remove_emulation_prevention(&escaped), bytes);
    assert!(escaped.windows(3).all(|w| !(w[0] == 0 && w[1] == 0 && w[2] <= 2)));
    let plain = [0u8, 0, 4, 0, 1, 0, 0, 5];
    assert_eq!(insert_emulation_prevention(&plain), plain);
}

#[test]
fn nals_tile_a_stream_from_pad_to_end() {
    let stream = h264();
    let nals = scan_nals(&stream);
    assert_eq!(nals.len(), 5);
    assert_eq!(nals[0].pad, 0);
    for pair in nals.windows(2) {
        assert_eq!(pair[0].end, pair[1].pad);
    }
    assert_eq!(nals[4].end, stream.len());
    // Two zeroes of padding, and the zero byte of the code.
    assert_eq!((nals[4].pad, nals[4].code, nals[4].start), (27, 29, 33));
}

#[test]
fn one_nal_spliced_in_is_one_nal_more() {
    let stream = h264();
    let at = scan_nals(&stream)[3].code;
    let nal = [0x06u8, 0x01, 0x80];
    let mut woven = stream[..at].to_vec();
    woven.extend_from_slice(&START_CODE);
    woven.extend_from_slice(&nal);
    woven.extend_from_slice(&stream[at..]);
    let mut want = split_nals(&stream);
    want.insert(3, &nal);
    assert_eq!(split_nals(&woven), want);
}

#[test]
fn both_framings_come_back_at_every_width() {
    let stream = h264();
    for width in 1..=4usize {
        let sample = annexb_to_length_prefixed(&stream, width).expect("a sample");
        assert_eq!(split_length_prefixed(&sample, width).expect("NALs"), split_nals(&stream));
        let coded = length_prefixed_to_annexb(&sample, width).expect("start codes");
        assert_eq!(split_nals(&coded), split_nals(&stream));
        assert_eq!(annexb_to_length_prefixed(&coded, width).expect("again"), sample);
    }
}

#[test]
fn what_is_written_is_what_is_read() {
    let messages = vec![
        SeiMessage { payload_type: 0, payload: vec![] },
        SeiMessage { payload_type: 254, payload: vec![0; 255] },
        SeiMessage { payload_type: 255, payload: vec![0x80; 254] },
        SeiMessage { payload_type: 70_000, payload: vec![0xff; 510] },
        SeiMessage::user_data(&payload(9)),
    ];
    for codec in [Codec::H264, Codec::H265] {
        for id in [0u8, 1, 2, 7] {
            let nal = write_sei(&messages, codec, id);
            assert_eq!(parse_sei(&nal, codec).expect("messages"), messages);
            assert_eq!(split_nals(&start_coded(&[&nal])), vec![&nal[..]]);
        }
    }
}

#[test]
fn the_messages_before_a_broken_one_stand() {
    // One whole message, and then one whose size overruns.
    let rbsp = [5u8, 2, 0xaa, 0xbb, 6, 9, 0xcc, 0x80];
    assert_eq!(
        parse_sei_rbsp(&rbsp),
        vec![SeiMessage { payload_type: 5, payload: vec![0xaa, 0xbb] }]
    );
    // A type that does not end, and one too large for its number.
    assert_eq!(parse_sei_rbsp(&[5, 1, 0x11, 0xff, 0xff]).len(), 1);
}

#[test]
fn a_payload_rides_in_every_framing_and_is_all_that_is_added() {
    let held = payload(1);
    let new = payload(2);
    let sei = write_user_data(&held, Codec::H264);
    let packet = start_coded(&[&[0x67, 0x64, 0x00, 0x1f], &sei, &[0x65, 0x88, 0x84]]);
    let annexb = Framing::AnnexB(Codec::H264);
    let woven = annexb.insert(&packet, &new, select()).expect("woven");
    assert_eq!(annexb.payloads(&packet, select()), vec![held.clone()]);
    assert_eq!(annexb.payloads(&woven, select()), vec![held.clone(), new.clone()]);
    for length_size in 2..=4usize {
        let framing = Framing::LengthPrefixed { codec: Codec::H264, length_size };
        let sample = framing.reframe(&packet).expect("a sample");
        assert_eq!(framing.payloads(&sample, select()), vec![held.clone()]);
        let woven = framing.insert(&sample, &new, select()).expect("woven");
        assert_eq!(framing.payloads(&woven, select()), vec![held.clone(), new.clone()]);
    }
    let mut packet = vec![0x12u8, 0x00];
    packet.extend_from_slice(&obu::write_metadata(25, &held));
    packet.extend_from_slice(&[0x32, 0x01, 0x07]);
    let woven = Framing::Av1.insert(&packet, &new, select()).expect("woven");
    assert_eq!(Framing::Av1.payloads(&woven, select()), vec![held, new]);
}

#[test]
fn a_sample_takes_an_sei_as_a_splice() {
    let sample = [0u8, 2, 0x67, 0x64, 0, 3, 0x65, 0x88, 0x84];
    let sei = [0x06u8, 0x80];
    assert_eq!(
        insert_sei_length_prefixed(&sample, &sei, 2, Codec::H264).expect("woven"),
        vec![0, 2, 0x67, 0x64, 0, 2, 0x06, 0x80, 0, 3, 0x65, 0x88, 0x84]
    );
}

#[test]
fn leb128_takes_as_few_bytes_as_it_needs() {
    for (value, bytes) in [
        (0u64, vec![0u8]),
        (127, vec![0x7f]),
        (128, vec![0x80, 0x01]),
        (300, vec![0xac, 0x02]),
        ((1 << 56) - 1, vec![0xff, 0xff, 0xff, 0xff, 0xff, 0xff, 0xff, 0x7f]),
    ] {
        let mut out = Vec::new();
        obu::put_leb128(&mut out, value);
        assert_eq!(out, bytes);
        out.push(0x55);
        assert_eq!(obu::leb128(&out, 0), Ok((value, bytes.len())));
    }
    // Another spelling of the same number takes more.
    assert_eq!(obu::leb128(&[0xff, 0x00], 0), Ok((127, 2)));
}

#[test]
fn metadata_comes_back_whatever_it_ends_in() {
    for body in [vec![], vec![0x80], vec![0, 0], vec![0x80, 0, 0x80], vec![7]] {
        let bytes = obu::write_metadata(300, &body);
        assert_eq!(obu::metadata_of_type(&bytes, 300), vec![body]);
        assert!(obu::metadata_of_type(&bytes, 301).is_empty());
    }
    // Without its trailing bits, a payload that ends in its own byte,
    // zero or not.
    assert_eq!(obu::metadata_of_type(&[0x2a, 0x03, 25, 0xaa, 0xbb], 25), vec![vec![0xaa, 0xbb]]);
    assert_eq!(obu::metadata_of_type(&[0x2a, 0x03, 25, 1, 0], 25), vec![vec![1, 0]]);
    assert_eq!(obu::metadata_of_type(&[0x2a, 0x03, 25, 0, 0], 25), vec![vec![0, 0]]);
    // One that ends in the stop byte is read as the one it closes.
    assert_eq!(obu::metadata_of_type(&[0x2a, 0x04, 25, 1, 0x80, 0], 25), vec![vec![1]]);
}

#[test]
fn obus_and_temporal_units_tile_a_stream() {
    let stream = av1();
    let obus = obu::scan_obus(&stream).expect("OBUs");
    assert_eq!(obus[0].start, 0);
    assert_eq!(obus[obus.len() - 1].end, stream.len());
    for pair in obus.windows(2) {
        assert_eq!(pair[0].end, pair[1].start);
    }
    let units = obu::temporal_units(&stream).expect("temporal units");
    let places: Vec<(usize, usize, usize, bool)> = units
        .iter()
        .map(|u| (u.start, u.end, u.insert_at, u.has_sequence_header))
        .collect();
    assert_eq!(places, vec![(0, 9, 6, true), (9, 11, 11, false), (11, 19, 13, false)]);
}

#[test]
fn what_is_put_behind_an_obu_without_a_size_is_swallowed() {
    // One delimiter with no size field: it runs to the end, and the
    // place behind it is inside it.
    let packet = [0x10u8];
    let woven = Framing::Av1.insert(&packet, &payload(1), select()).expect("woven");
    assert!(Framing::Av1.payloads(&woven, select()).is_empty());
}

#[test]
fn a_record_gives_back_what_it_was_built_from() {
    let sps = vec![vec![0x67u8, 66, 0xc0, 30, 0xab], vec![0x67, 66, 0xc0, 31, 0xcd]];
    let pps = vec![vec![0x68u8, 0xee], vec![0x68, 0x01, 0x02]];
    let avcc = build_avcc(&sps, &pps).expect("a record");
    assert_eq!(
        avcc,
        vec![
            1, 66, 0xc0, 30, 0xff, 0xe2, 0, 5, 0x67, 66, 0xc0, 30, 0xab, 0, 5, 0x67, 66, 0xc0, 31,
            0xcd, 2, 0, 2, 0x68, 0xee, 0, 3, 0x68, 0x01, 0x02
        ]
    );
    assert_eq!(avcc_length_size(&avcc), 4);
    assert_eq!(profile_level(&avcc), Some((66, 30)));
    assert_eq!(
        framing_of("h264", &avcc),
        Ok(Framing::LengthPrefixed { codec: Codec::H264, length_size: 4 })
    );
    let extradata = avcc_to_annexb_extradata(&avcc).expect("extradata");
    assert_eq!(
        extradata,
        start_coded(&[&sps[0], &sps[1], &pps[0], &pps[1]])
    );
    assert_eq!(parse_parameter_sets(&extradata), (sps, pps));
}

#[test]
fn a_record_and_its_stream_have_one_name() {
    let avcc = [1u8, 0x4d, 0x40, 0x28, 0xff];
    let (profile, level) = profile_level(&avcc).expect("a profile and a level");
    assert_eq!(avc_codec(&avcc), "avc1.4d4028");
    assert_eq!(avc_codec_from(profile, level, &avcc), avc_codec(&avcc));
}

/// What a feed makes of a stream in chunks of `step` bytes.
fn fed(kind: StreamKind, stream: &[u8], step: usize) -> Vec<Carried> {
    let mut feed = Feed::new(kind, select());
    let mut out = Vec::new();
    for chunk in stream.chunks(step) {
        out.extend(feed.push(chunk).expect("a push"));
        assert_eq!(feed.count(), out.len() as u64);
    }
    out.extend(feed.finish().expect("the last carrier"));
    assert_eq!((feed.count(), feed.footprint()), (out.len() as u64, 0));
    out
}

#[test]
fn a_feed_hands_out_the_carriers_of_the_stream_in_any_chunks() {
    for (codec, stream) in [(Codec::H264, h264()), (Codec::H265, h265())] {
        let want: Vec<Carried> = access_units(&stream, codec)
            .iter()
            .enumerate()
            .map(|(index, unit)| Carried {
                index: index as u64,
                keyframe: unit.keyframe,
                payloads: user_data_annexb(&stream[unit.start..unit.end], codec, &UUID),
            })
            .collect();
        for step in 1..=stream.len() {
            assert_eq!(fed(StreamKind::Nal(codec), &stream, step), want);
        }
    }
    let stream = av1();
    let want: Vec<Carried> = obu::temporal_units(&stream)
        .expect("temporal units")
        .iter()
        .enumerate()
        .map(|(index, unit)| Carried {
            index: index as u64,
            keyframe: unit.has_sequence_header,
            payloads: obu::user_data(&stream[unit.start..unit.end], 25, &UUID),
        })
        .collect();
    assert_eq!(want.len(), 3);
    for step in 1..=stream.len() {
        assert_eq!(fed(StreamKind::Av1, &stream, step), want);
    }
}

#[test]
fn the_bytes_before_a_carrier_bring_out_all_but_the_one_before_it() {
    let stream = h264();
    let units = access_units(&stream, Codec::H264);
    let mut feed = Feed::new(StreamKind::Nal(Codec::H264), select());
    assert_eq!(feed.push(&stream[..units[2].start]).expect("a push").len(), 1);
    let stream = av1();
    let units = obu::temporal_units(&stream).expect("temporal units");
    let mut feed = Feed::new(StreamKind::Av1, select());
    assert_eq!(feed.push(&stream[..units[2].start]).expect("a push").len(), 1);
}

#[test]
fn bytes_with_no_access_unit_are_one_carrier_at_the_end() {
    let mut feed = Feed::new(StreamKind::Nal(Codec::H264), select());
    assert!(feed.push(&[1, 2, 3]).expect("a push").is_empty());
    assert_eq!(
        feed.finish().expect("what is left"),
        vec![Carried { index: 0, keyframe: false, payloads: vec![] }]
    );
    assert!(feed.finish().expect("nothing").is_empty());
}

#[test]
fn a_delimiter_without_a_size_opens_no_carrier_of_its_own() {
    let stream = [0x12u8, 0x00, 0x32, 0x01, 0x01, 0x10];
    assert_eq!(obu::temporal_units(&stream).expect("temporal units").len(), 2);
    assert_eq!(fed(StreamKind::Av1, &stream, 6).len(), 1);
}

#[test]
fn a_short_stream_is_never_dropped_and_a_long_one_keeps_three_bytes() {
    let mut feed = Feed::with_limit(StreamKind::Nal(Codec::H264), select(), 64);
    let mut flood = vec![0, 0, 0, 1, 0x65, 0x88];
    flood.resize(64, 0x42);
    assert!(feed.push(&flood).expect("a push").is_empty());
    assert_eq!((feed.footprint(), feed.dropped()), (64, 0));
    assert!(feed.push(&[0, 0]).expect("a push").is_empty());
    assert_eq!((feed.footprint(), feed.dropped()), (3, 1));
    // The two zeroes are still there for the code that begins with them.
    assert!(feed.push(&[1, 0x65, 0x88, 0, 0, 1, 0x65, 0x88]).expect("a push").len() == 1);
}

#[test]
fn a_feed_gives_up_past_the_limit_it_was_given() {
    let kind = StreamKind::Nal(Codec::H264);
    for (limit, left) in [(10usize, 3usize), (3, 3), (2, 2), (0, 0)] {
        let mut feed = Feed::with_limit(kind, select(), limit);
        assert_eq!(feed.push(&[0x42; 20]), Ok(vec![]));
        assert_eq!((feed.footprint(), feed.dropped()), (left, 1));
    }
    // As many as the limit are held.
    let mut feed = Feed::with_limit(kind, select(), 10);
    assert_eq!(feed.push(&[0x42; 10]), Ok(vec![]));
    assert_eq!((feed.footprint(), feed.dropped()), (10, 0));
}

#[test]
fn a_feed_that_gave_up_goes_on_at_the_next_start_code() {
    let stream = woven(&h264(), Codec::H264);
    let want = fed(StreamKind::Nal(Codec::H264), &stream, stream.len());
    for end in [&[0x42u8, 0x42, 0x42][..], &[0, 0, 0], &[0, 0, 1], &[0x42, 0, 0]] {
        let mut feed = Feed::with_limit(StreamKind::Nal(Codec::H264), select(), 1000);
        let mut flood = vec![0x42; 2000];
        flood.extend_from_slice(end);
        assert!(feed.push(&flood).expect("a push").is_empty());
        assert_eq!((feed.footprint(), feed.dropped()), (3, 1));
        let mut out = feed.push(&stream).expect("a push");
        out.extend(feed.finish().expect("the last carrier"));
        assert_eq!(out, want);
    }
}

#[test]
fn an_av1_feed_that_gave_up_goes_on_at_the_next_obu() {
    let two = [0x12u8, 0x00, 0x12, 0x00];
    // A frame whose size has come: the rest of it is let go of, in any
    // chunks.
    let mut frame = vec![0x32u8, 30];
    frame.resize(32, 0x07);
    for step in [1usize, 2, 9] {
        let mut feed = Feed::with_limit(StreamKind::Av1, select(), 20);
        assert!(feed.push(&frame[..27]).expect("a push").is_empty());
        assert_eq!((feed.footprint(), feed.dropped()), (3, 1));
        let mut rest = frame[27..].to_vec();
        rest.extend_from_slice(&two);
        let mut out = Vec::new();
        for chunk in rest.chunks(step) {
            out.extend(feed.push(chunk).expect("a push"));
        }
        assert_eq!((out.len(), feed.footprint(), feed.dropped()), (1, 2, 1));
    }
    // Whole OBUs past the limit: the next one is right behind them.
    let mut long = vec![0x12u8, 0x00, 0x0a, 8];
    long.resize(12, 0x07);
    let mut feed = Feed::with_limit(StreamKind::Av1, select(), 10);
    assert!(feed.push(&long).expect("a push").is_empty());
    assert_eq!((feed.footprint(), feed.dropped()), (3, 1));
    assert_eq!(feed.push(&two).expect("a push").len(), 1);
    assert_eq!(feed.footprint(), 2);
    // An OBU whose size has not come is kept from its first byte.
    let mut feed = Feed::with_limit(StreamKind::Av1, select(), 10);
    let mut bytes = long.clone();
    bytes.push(0x32);
    assert!(feed.push(&bytes).expect("a push").is_empty());
    assert_eq!((feed.footprint(), feed.dropped()), (3, 1));
    assert!(feed.push(&[0x01]).expect("a push").is_empty());
    assert_eq!(feed.footprint(), 2);
    assert_eq!(feed.push(&[0x07, 0x12, 0x00]).expect("a push").len(), 1);
    let mut feed = Feed::with_limit(StreamKind::Av1, select(), 10);
    bytes.extend_from_slice(&[0x81, 0x80, 0x80, 0x80]);
    assert!(feed.push(&bytes).expect("a push").is_empty());
    assert_eq!((feed.footprint(), feed.dropped()), (5, 1));
    assert_eq!(feed.push(&[0x00, 0x07, 0x12, 0x00]).expect("a push").len(), 1);
}

#[test]
fn the_end_of_a_stream_ends_what_is_owed() {
    let mut frame = vec![0x32u8, 100];
    frame.resize(40, 0x07);
    let mut feed = Feed::with_limit(StreamKind::Av1, select(), 20);
    assert!(feed.push(&frame).expect("a push").is_empty());
    assert_eq!((feed.footprint(), feed.dropped()), (3, 1));
    assert_eq!(feed.finish().expect("what is left").len(), 1);
    assert_eq!(feed.push(&[0x12, 0x00, 0x12, 0x00]).expect("a push").len(), 1);
    assert_eq!(feed.count(), 2);
}

#[test]
fn carriers_are_numbered_over_refusals_and_ends() {
    let mut feed = Feed::new(StreamKind::Av1, select());
    let mut out = feed.push(&av1()).expect("a push");
    assert!(feed.push(&[0x80]).is_err());
    assert_eq!((feed.count(), feed.footprint(), feed.dropped()), (2, 0, 1));
    out.extend(feed.push(&av1()).expect("a push"));
    out.extend(feed.finish().expect("the last carrier"));
    assert!(feed.finish().expect("nothing").is_empty());
    out.extend(feed.push(&[0x12, 0x00]).expect("a push"));
    out.extend(feed.finish().expect("the last carrier"));
    let numbers: Vec<u64> = out.iter().map(|carried| carried.index).collect();
    assert_eq!(numbers, vec![0, 1, 2, 3, 4, 5]);
    assert_eq!(feed.count(), 6);
}

#[test]
fn an_obu_that_has_arrived_by_half_is_waited_for() {
    let stream = av1();
    let one = obu::write_metadata(25, &payload(1));
    for cut in 0..one.len() {
        let mut bytes = stream.clone();
        bytes.extend_from_slice(&one[..cut]);
        let mut feed = Feed::new(StreamKind::Av1, select());
        let out = feed.push(&bytes).expect("a push");
        assert_eq!(out.len(), 2);
        assert_eq!(feed.footprint(), bytes.len() - 11);
    }
}

/// A stream with one NAL more in each access unit.
fn woven(stream: &[u8], codec: Codec) -> Vec<u8> {
    let mut out = Vec::new();
    let mut at = 0usize;
    for (index, unit) in access_units(stream, codec).iter().enumerate() {
        out.extend_from_slice(&stream[at..unit.insert_at]);
        out.extend_from_slice(&START_CODE);
        out.extend_from_slice(&write_user_data_at(
            &payload(index as u8),
            codec,
            unit.temporal_id_plus1,
        ));
        at = unit.insert_at;
    }
    out.extend_from_slice(&stream[at..]);
    out
}

#[test]
fn access_units_that_took_payloads_are_the_access_units_they_were() {
    for (codec, stream) in [(Codec::H264, h264()), (Codec::H265, h265())] {
        let out = woven(&stream, codec);
        let before = access_units(&stream, codec);
        let after = access_units(&out, codec);
        assert_eq!(after.len(), before.len());
        for (index, (now, was)) in after.iter().zip(&before).enumerate() {
            assert_eq!(now.keyframe, was.keyframe);
            assert_eq!(now.temporal_id_plus1, was.temporal_id_plus1);
            assert_eq!(
                user_data_annexb(&out[now.start..now.end], codec, &UUID),
                vec![payload(index as u8)]
            );
        }
        let kept: Vec<&[u8]> = split_nals(&out)
            .into_iter()
            .filter(|nal| user_data_in_nal(nal, codec, &UUID).is_empty())
            .collect();
        assert_eq!(kept, split_nals(&stream));
    }
}

#[test]
fn carriers_hold_all_the_payloads_there_are() {
    let stream = woven(&h264(), Codec::H264);
    let by_unit: Vec<Vec<u8>> = access_units(&stream, Codec::H264)
        .iter()
        .flat_map(|unit| user_data_annexb(&stream[unit.start..unit.end], Codec::H264, &UUID))
        .collect();
    assert_eq!(by_unit, vec![payload(0), payload(1), payload(2)]);
    assert_eq!(by_unit, user_data_annexb(&stream, Codec::H264, &UUID));
    let mut stream = obu::write_metadata(25, &payload(4));
    stream.extend_from_slice(&av1());
    stream.extend_from_slice(&obu::write_metadata(25, &payload(5)));
    let by_unit: Vec<Vec<u8>> = obu::temporal_units(&stream)
        .expect("temporal units")
        .iter()
        .flat_map(|unit| obu::user_data(&stream[unit.start..unit.end], 25, &UUID))
        .collect();
    assert_eq!(by_unit, vec![payload(4), payload(5)]);
    assert_eq!(by_unit, obu::user_data(&stream, 25, &UUID));
}

#[test]
fn temporal_units_that_took_payloads_are_the_temporal_units_they_were() {
    let stream = av1();
    let before = obu::temporal_units(&stream).expect("temporal units");
    let mut out = Vec::new();
    let mut at = 0usize;
    for (index, unit) in before.iter().enumerate() {
        out.extend_from_slice(&stream[at..unit.insert_at]);
        out.extend_from_slice(&obu::write_metadata(25, &payload(index as u8)));
        at = unit.insert_at;
    }
    out.extend_from_slice(&stream[at..]);
    let after = obu::temporal_units(&out).expect("temporal units");
    assert_eq!(after.len(), before.len());
    for (index, (now, was)) in after.iter().zip(&before).enumerate() {
        assert_eq!(now.has_sequence_header, was.has_sequence_header);
        assert_eq!(
            obu::user_data(&out[now.start..now.end], 25, &UUID),
            vec![payload(index as u8)]
        );
    }
    let kept: Vec<&[u8]> = obu::scan_obus(&out)
        .expect("OBUs")
        .iter()
        .filter(|o| obu::metadata_payload(o, 25).is_none())
        .map(|o| &out[o.start..o.end])
        .collect();
    let had: Vec<&[u8]> = obu::scan_obus(&stream)
        .expect("OBUs")
        .iter()
        .map(|o| &stream[o.start..o.end])
        .collect();
    assert_eq!(kept, had);
}
