use ffrwd_nal::obu::{
    insert_metadata_obu, leb128, metadata_of_type, metadata_payload, put_leb128, scan_obus,
    temporal_units, user_data, write_metadata, OBU_FRAME, OBU_METADATA, OBU_SEQUENCE_HEADER,
    OBU_TEMPORAL_DELIMITER,
};
use ffrwd_nal::Error;

/// A UUID of this test's own, standing in for a carried format's.
const UUID: [u8; 16] = [
    0x04, 0x1f, 0x74, 0xa3, 0x80, 0x90, 0x5e, 0x08, 0xbc, 0xfc, 0x76, 0x4d, 0xf2, 0xdc, 0xd4,
    0x66,
];

/// A `metadata_type` from the unregistered private range.
const MINE: u64 = 25;

fn obu(kind: u8, payload: &[u8]) -> Vec<u8> {
    let mut out = vec![kind << 3 | 0x02];
    put_leb128(&mut out, payload.len() as u64);
    out.extend_from_slice(payload);
    out
}

/// Two temporal units shaped like what an AV1 encoder writes: a
/// delimiter, a sequence header before the key frame, a frame.
fn a_stream() -> Vec<u8> {
    let mut out = Vec::new();
    out.extend_from_slice(&obu(OBU_TEMPORAL_DELIMITER, &[]));
    out.extend_from_slice(&obu(OBU_SEQUENCE_HEADER, &[0x0a, 0x0b]));
    out.extend_from_slice(&obu(OBU_FRAME, &[0x10; 20]));
    out.extend_from_slice(&obu(OBU_TEMPORAL_DELIMITER, &[]));
    out.extend_from_slice(&obu(OBU_FRAME, &[0x11; 12]));
    out
}

fn a_payload() -> Vec<u8> {
    let mut payload = UUID.to_vec();
    payload.push(1);
    payload.extend_from_slice(&[0x02, 0x03, 0x01, 0x00, 0x00]);
    payload
}

#[test]
fn leb128_round_trips() {
    for value in [0u64, 1, 127, 128, 16383, 16384, 1 << 35, u32::MAX as u64] {
        let mut out = Vec::new();
        put_leb128(&mut out, value);
        assert_eq!(leb128(&out, 0).expect("a value"), (value, out.len()));
    }
    // Nine continuation bytes is longer than the specification
    // reads, and is refused rather than read on.
    assert_eq!(
        leb128(&[0x80; 9], 0),
        Err(Error::Malformed {
            what: "a leb128 longer than eight bytes",
            at: 0
        })
    );
    assert_eq!(leb128(&[0x80], 0), Err(Error::Truncated { at: 0 }));
    assert_eq!(leb128(&[0x00, 0x80], 1), Err(Error::Truncated { at: 1 }));
}

#[test]
fn a_metadata_obu_carries_a_payload_and_reads_back() {
    let payload = a_payload();
    let bytes = write_metadata(MINE, &payload);
    assert_eq!(bytes[0] >> 3 & 0x0f, OBU_METADATA);
    assert_eq!(bytes[0] & 0x02, 0x02, "has_size_field");
    assert_eq!(bytes[0] & 0x04, 0, "no extension");
    assert_eq!(bytes[0] & 0x80, 0, "the forbidden bit is zero");
    let obus = scan_obus(&bytes).expect("obus");
    assert_eq!(obus.len(), 1);
    assert_eq!(obus[0].payload[0], MINE as u8);
    assert_eq!(
        *obus[0].payload.last().expect("trailing bits"),
        0x80,
        "the OBU ends with trailing_bits"
    );
    assert_eq!(metadata_payload(&obus[0], MINE), Some(&payload[..]));
    assert_eq!(metadata_payload(&obus[0], 26), None, "another type");
    assert_eq!(user_data(&bytes, MINE, &UUID), vec![payload]);
}

#[test]
fn a_payload_ending_in_zeroes_survives_the_trailing_bits() {
    let mut payload = UUID.to_vec();
    payload.push(1);
    payload.extend_from_slice(&[0x02, 0x05, 0x01, 0x00, 0x00, 0x00, 0x00]);
    let bytes = write_metadata(MINE, &payload);
    assert_eq!(user_data(&bytes, MINE, &UUID), vec![payload]);
}

#[test]
fn a_metadata_type_past_one_byte_reads_back() {
    // The type is a leb128, and a reader has to walk it rather than
    // read one byte.
    for kind in [0u64, 25, 127, 128, 5000] {
        let bytes = write_metadata(kind, &a_payload());
        assert_eq!(user_data(&bytes, kind, &UUID), vec![a_payload()]);
        assert!(user_data(&bytes, kind + 1, &UUID).is_empty());
    }
}

#[test]
fn another_writers_metadata_is_left_alone() {
    // Metadata of the same private type, somebody else's UUID.
    let mut payload = vec![MINE as u8];
    payload.extend_from_slice(&[0xab; 16]);
    payload.push(0x80);
    let theirs = obu(OBU_METADATA, &payload);
    assert!(user_data(&theirs, MINE, &UUID).is_empty());
    assert_eq!(metadata_of_type(&theirs, MINE).len(), 1, "theirs is read");

    // ITU-T T.35 metadata, which encoders really do write.
    let t35 = obu(OBU_METADATA, &[4, 0xb5, 0x00, 0x3c, 0x80]);
    assert!(user_data(&t35, MINE, &UUID).is_empty());
    assert!(metadata_of_type(&t35, MINE).is_empty());
}

#[test]
fn a_metadata_obu_goes_in_before_the_frame_header() {
    let stream = a_stream();
    let units = temporal_units(&stream).expect("temporal units");
    assert_eq!(units.len(), 2);
    assert!(units[0].has_sequence_header, "the key frame's unit");
    assert!(!units[1].has_sequence_header);
    assert_eq!(units[0].start, 0);
    assert_eq!(units.last().expect("a unit").end, stream.len());

    let obu_bytes = write_metadata(MINE, &a_payload());
    let first = &stream[units[0].start..units[0].end];
    let woven = insert_metadata_obu(first, &obu_bytes).expect("woven");
    let kinds: Vec<u8> = scan_obus(&woven)
        .expect("obus")
        .iter()
        .map(|obu| obu.kind)
        .collect();
    assert_eq!(
        kinds,
        vec![
            OBU_TEMPORAL_DELIMITER,
            OBU_SEQUENCE_HEADER,
            OBU_METADATA,
            OBU_FRAME
        ]
    );
    assert_eq!(user_data(&woven, MINE, &UUID), vec![a_payload()]);
}

#[test]
fn a_written_stream_keeps_every_other_obu_byte_for_byte() {
    let stream = a_stream();
    let obu_bytes = write_metadata(MINE, &a_payload());
    let mut woven = Vec::new();
    let mut at = 0usize;
    for unit in temporal_units(&stream).expect("temporal units") {
        woven.extend_from_slice(&stream[at..unit.insert_at]);
        woven.extend_from_slice(&obu_bytes);
        at = unit.insert_at;
    }
    woven.extend_from_slice(&stream[at..]);

    assert_eq!(user_data(&woven, MINE, &UUID), vec![a_payload(); 2]);
    let kept: Vec<Vec<u8>> = scan_obus(&woven)
        .expect("obus")
        .iter()
        .filter(|obu| metadata_payload(obu, MINE).is_none())
        .map(|obu| woven[obu.start..obu.end].to_vec())
        .collect();
    let original: Vec<Vec<u8>> = scan_obus(&stream)
        .expect("obus")
        .iter()
        .map(|obu| stream[obu.start..obu.end].to_vec())
        .collect();
    assert_eq!(kept, original);
    assert_eq!(temporal_units(&woven).expect("units").len(), 2);
}

#[test]
fn an_obu_without_a_size_field_runs_to_the_end() {
    let mut bytes = vec![OBU_FRAME << 3];
    bytes.extend_from_slice(&[1, 2, 3, 4]);
    let obus = scan_obus(&bytes).expect("obus");
    assert_eq!(obus.len(), 1);
    assert_eq!(obus[0].payload, &[1, 2, 3, 4]);
}

#[test]
fn an_obu_with_an_extension_byte_reads() {
    let mut bytes = vec![OBU_FRAME << 3 | 0x04 | 0x02, 0x28];
    put_leb128(&mut bytes, 3);
    bytes.extend_from_slice(&[7, 8, 9]);
    let obus = scan_obus(&bytes).expect("obus");
    assert_eq!(obus.len(), 1);
    assert!(obus[0].has_extension);
    assert_eq!(obus[0].payload, &[7, 8, 9]);
    assert_eq!(
        scan_obus(&[OBU_FRAME << 3 | 0x04]),
        Err(Error::Truncated { at: 0 })
    );
}

#[test]
fn an_obu_whose_size_overruns_is_refused_with_its_offset() {
    let mut bytes = vec![OBU_TEMPORAL_DELIMITER << 3 | 0x02, 0];
    bytes.push(OBU_FRAME << 3 | 0x02);
    put_leb128(&mut bytes, 100);
    bytes.extend_from_slice(&[1, 2, 3]);
    assert_eq!(scan_obus(&bytes), Err(Error::Truncated { at: 2 }));
    assert_eq!(
        scan_obus(&[0x80]),
        Err(Error::Malformed {
            what: "an OBU with its forbidden bit set",
            at: 0
        })
    );
}

#[test]
fn truncated_and_random_obus_never_panic() {
    let stream = {
        let mut bytes = a_stream();
        bytes.extend_from_slice(&write_metadata(MINE, &a_payload()));
        bytes
    };
    for cut in 0..stream.len() {
        let _ = scan_obus(&stream[..cut]);
        let _ = temporal_units(&stream[..cut]);
        let _ = user_data(&stream[..cut], MINE, &UUID);
        let _ = insert_metadata_obu(&stream[..cut], &[0x2a, 0x01, 0x80]);
    }
    let mut seed = 0x243f_6a88_85a3_08d3u64;
    for _ in 0..3000 {
        let mut bytes = Vec::new();
        seed = seed.wrapping_mul(6364136223846793005).wrapping_add(1);
        for _ in 0..(seed >> 40) % 40 {
            seed = seed.wrapping_mul(6364136223846793005).wrapping_add(1);
            bytes.push((seed >> 33) as u8);
        }
        let _ = scan_obus(&bytes);
        let _ = temporal_units(&bytes);
        let _ = metadata_of_type(&bytes, MINE);
        let _ = user_data(&bytes, MINE, &UUID);
        let _ = insert_metadata_obu(&bytes, &[0x2a, 0x01, 0x80]);
        let _ = leb128(&bytes, 0);
    }
}
