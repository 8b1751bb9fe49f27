use ffrwd_nal::sps::{formats, profile_level, BitReader, Formats};

/// A High profile SPS, as x264 writes one.
const HIGH_SPS: [u8; 14] = [
    0x67, 0x64, 0x00, 0x1f, 0xac, 0xd9, 0x40, 0x50, 0x05, 0xbb, 0x01, 0x6a, 0x02, 0x02,
];

#[test]
// The digits are grouped as the codes are, not in fours.
#[allow(clippy::unusual_byte_groupings)]
fn exp_golomb_reads_the_first_values() {
    // 1 -> 0; 010 -> 1; 011 -> 2; 00100 -> 3.
    let mut bits = BitReader::new(&[0b1_010_011_0, 0b0100_0000]);
    assert_eq!(bits.ue(), Some(0));
    assert_eq!(bits.ue(), Some(1));
    assert_eq!(bits.ue(), Some(2));
    assert_eq!(bits.ue(), Some(3));
}

#[test]
fn a_reader_at_the_end_of_its_bytes_says_so() {
    let mut bits = BitReader::new(&[0x80]);
    assert_eq!(bits.bit(), Some(1));
    assert_eq!(bits.skip(7), Some(()));
    assert_eq!(bits.bit(), None);
    assert_eq!(bits.skip(1), None);
    // Thirty-two zero bits are not an exp-Golomb value.
    assert_eq!(BitReader::new(&[0; 8]).ue(), None);
    assert_eq!(BitReader::new(&[]).ue(), None);
}

#[test]
fn a_high_profile_sps_gives_its_chroma_format_and_bit_depths() {
    assert_eq!(
        formats(&HIGH_SPS),
        Some(Formats {
            chroma_format_idc: 1,
            bit_depth_luma_minus8: 0,
            bit_depth_chroma_minus8: 0,
        })
    );
}

#[test]
fn an_sps_that_runs_out_reads_nothing_and_panics_at_nothing() {
    for cut in 0..HIGH_SPS.len() {
        let _ = formats(&HIGH_SPS[..cut]);
    }
    assert_eq!(formats(&[]), None);
    assert_eq!(formats(&[0x67]), None);
    assert_eq!(formats(&[0x67, 0x64, 0x00]), None);
}

#[test]
fn the_profile_and_level_read_from_either_spelling() {
    // SPS behind a 4-byte start code: profile 0x64 (High), level
    // 0x1f, then the PPS the extradata also carries.
    let extradata = [
        0u8, 0, 0, 1, 0x67, 0x64, 0x00, 0x1f, 0xab, // SPS
        0, 0, 0, 1, 0x68, 0xee, // PPS
    ];
    assert_eq!(profile_level(&extradata), Some((0x64, 0x1f)));
    // A PPS first, behind a 3-byte code, does not confuse the scan.
    let pps_first = [0u8, 0, 0, 1, 0x68, 0xee, 0, 0, 1, 0x67, 0x42, 0xc0, 0x1e];
    assert_eq!(profile_level(&pps_first), Some((0x42, 0x1e)));
    assert_eq!(profile_level(&HIGH_SPS), None, "an SPS with no start code");

    // An avcC says the same two bytes at the same two offsets.
    assert_eq!(
        profile_level(&[1, 0x64, 0x00, 0x1f, 0xff, 0xe1]),
        Some((0x64, 0x1f))
    );
    assert_eq!(profile_level(&[1, 0x64]), None);

    // And bytes that carry no SPS say nothing.
    assert_eq!(profile_level(&[]), None);
    assert_eq!(profile_level(&[0, 0, 0, 1, 0x68, 0xee]), None);
    assert_eq!(profile_level(&[0xab, 0xcd, 0xef]), None);
}
