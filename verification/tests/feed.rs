use ffrwd_nal::annexb::START_CODE;
use ffrwd_nal::feed::{Carried, Feed, StreamKind};
use ffrwd_nal::h26x::access_units;
use ffrwd_nal::obu;
use ffrwd_nal::sei::write_user_data;
use ffrwd_nal::{Codec, Error, Select};

const UUID: [u8; 16] = [
    0x04, 0x1f, 0x74, 0xa3, 0x80, 0x90, 0x5e, 0x08, 0xbc, 0xfc, 0x76, 0x4d, 0xf2, 0xdc, 0xd4,
    0x66,
];

fn select() -> Select {
    Select::new(UUID, 25)
}

fn payload(id: u8) -> Vec<u8> {
    let mut payload = UUID.to_vec();
    payload.extend_from_slice(&[id; 12]);
    payload
}

/// Three H.264 access units, the first an IDR, each carrying one
/// payload.
fn h264_stream() -> Vec<u8> {
    let mut out = Vec::new();
    for (index, slice) in [0x65u8, 0x41, 0x41].iter().enumerate() {
        out.extend_from_slice(&START_CODE);
        out.extend_from_slice(&[0x67, 0x64, 0x00, 0x1f]);
        out.extend_from_slice(&START_CODE);
        out.extend_from_slice(&write_user_data(&payload(index as u8 + 1), Codec::H264));
        out.extend_from_slice(&START_CODE);
        out.extend_from_slice(&[*slice, 0x88, 0x84, index as u8]);
    }
    out
}

fn av1_stream() -> Vec<u8> {
    let mut out = Vec::new();
    for index in 0..3u8 {
        out.push(obu::OBU_TEMPORAL_DELIMITER << 3 | 0x02);
        obu::put_leb128(&mut out, 0);
        if index == 0 {
            out.push(obu::OBU_SEQUENCE_HEADER << 3 | 0x02);
            obu::put_leb128(&mut out, 2);
            out.extend_from_slice(&[0x0a, 0x0b]);
        }
        out.extend_from_slice(&obu::write_metadata(25, &payload(index + 1)));
        out.push(obu::OBU_FRAME << 3 | 0x02);
        obu::put_leb128(&mut out, 8);
        out.extend_from_slice(&[index; 8]);
    }
    out
}

/// Every carrier a feed makes of `stream`, pushed `step` bytes at a
/// time, with the index each one came out after.
fn fed(kind: StreamKind, stream: &[u8], step: usize) -> Vec<(usize, Carried)> {
    let mut feed = Feed::new(kind, select());
    let mut out = Vec::new();
    let mut at = 0usize;
    while at < stream.len() {
        let end = (at + step).min(stream.len());
        for carried in feed.push(&stream[at..end]).expect("a push") {
            out.push((end, carried));
        }
        at = end;
    }
    for carried in feed.finish().expect("the last carrier") {
        out.push((stream.len(), carried));
    }
    out
}

#[test]
fn a_stream_cut_at_any_chunk_size_gives_the_same_carriers() {
    for (kind, stream) in [
        (StreamKind::Nal(Codec::H264), h264_stream()),
        (StreamKind::Av1, av1_stream()),
    ] {
        let whole = fed(kind, &stream, stream.len());
        let carriers: Vec<Carried> = whole.iter().map(|(_, c)| c.clone()).collect();
        assert_eq!(carriers.len(), 3, "{kind:?}");
        assert!(carriers[0].keyframe, "{kind:?}: the first is a key frame");
        assert!(!carriers[1].keyframe, "{kind:?}");
        for (index, carried) in carriers.iter().enumerate() {
            assert_eq!(carried.index, index as u64);
            assert_eq!(carried.payloads, vec![payload(index as u8 + 1)], "{kind:?}");
        }
        for step in [1usize, 2, 3, 5, 7, 16, 64] {
            let again: Vec<Carried> = fed(kind, &stream, step)
                .into_iter()
                .map(|(_, c)| c)
                .collect();
            assert_eq!(again, carriers, "{kind:?} at {step} bytes a chunk");
        }
    }
}

#[test]
fn a_carrier_comes_out_before_the_next_ones_bytes_are_in() {
    // This is the whole point of the feed: a watcher hears about a
    // carrier as soon as the carrier after it has begun, not when
    // the stream ends. Each carrier here is out before the bytes of
    // the one two along have been pushed.
    for (kind, stream) in [
        (StreamKind::Nal(Codec::H264), h264_stream()),
        (StreamKind::Av1, av1_stream()),
    ] {
        let starts: Vec<usize> = match kind {
            StreamKind::Nal(codec) => access_units(&stream, codec)
                .iter()
                .map(|unit| unit.start)
                .collect(),
            StreamKind::Av1 => obu::temporal_units(&stream)
                .expect("temporal units")
                .iter()
                .map(|unit| unit.start)
                .collect(),
        };
        for (fed_by, carried) in fed(kind, &stream, 4) {
            let next = carried.index as usize + 1;
            if let Some(after) = starts.get(next + 1) {
                assert!(
                    fed_by <= *after,
                    "{kind:?}: carrier {} waited for byte {fed_by}, past {after}",
                    carried.index
                );
            }
        }
    }
}

#[test]
fn what_is_held_is_one_carrier_and_no_more() {
    let stream = h264_stream();
    let mut feed = Feed::new(StreamKind::Nal(Codec::H264), select());
    let mut most = 0usize;
    for chunk in stream.chunks(3) {
        feed.push(chunk).expect("a push");
        most = most.max(feed.footprint());
    }
    assert!(most < stream.len(), "the feed held the whole stream");
    assert_eq!(feed.dropped(), 0);
}

#[test]
fn a_carrier_past_the_limit_is_given_up_on_and_the_feed_carries_on() {
    let mut feed = Feed::with_limit(StreamKind::Nal(Codec::H264), select(), 256);
    // A slice larger than the limit, and no boundary in it.
    let mut flood = vec![0, 0, 0, 1, 0x65];
    flood.extend(std::iter::repeat_n(0x42u8, 4000));
    assert!(feed.push(&flood).expect("a push").is_empty());
    assert!(feed.footprint() <= 256, "{}", feed.footprint());
    assert!(feed.dropped() > 0, "the flood was held whole");
    // And the carriers after it still read.
    let carriers = {
        let stream = h264_stream();
        let mut out = feed.push(&stream).expect("a push");
        out.extend(feed.finish().expect("the last one"));
        out
    };
    let found: Vec<Vec<Vec<u8>>> = carriers.into_iter().map(|c| c.payloads).collect();
    assert!(
        found.contains(&vec![payload(3)]),
        "the feed never resynchronised: {found:?}"
    );
}

#[test]
fn an_av1_obu_with_its_forbidden_bit_set_is_refused() {
    let mut feed = Feed::new(StreamKind::Av1, select());
    assert_eq!(
        feed.push(&[0x80]),
        Err(Error::Malformed {
            what: "an OBU with its forbidden bit set",
            at: 0
        })
    );
    // And the feed carries on from the next chunk.
    assert_eq!(feed.footprint(), 0);
    assert_eq!(feed.dropped(), 1);
}

#[test]
fn random_bytes_never_panic_and_never_grow() {
    let mut seed = 0x51ed_2c93_7f10_ab44u64;
    for kind in [
        StreamKind::Nal(Codec::H264),
        StreamKind::Nal(Codec::H265),
        StreamKind::Av1,
    ] {
        let mut feed = Feed::with_limit(kind, select(), 1024);
        for _ in 0..3000 {
            let mut bytes = Vec::new();
            seed = seed.wrapping_mul(6364136223846793005).wrapping_add(1);
            for _ in 0..(seed >> 40) % 48 {
                seed = seed.wrapping_mul(6364136223846793005).wrapping_add(1);
                bytes.push((seed >> 33) as u8);
            }
            let _ = feed.push(&bytes);
            assert!(feed.footprint() <= 1024, "{}", feed.footprint());
        }
        let _ = feed.finish();
    }
}
