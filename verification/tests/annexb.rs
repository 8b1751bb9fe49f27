use ffrwd_nal::annexb::{
    annexb_to_length_prefixed, length_prefixed_to_annexb, scan_nals, split_length_prefixed,
    split_nals, START_CODE,
};
use ffrwd_nal::Error;

#[test]
fn start_codes_of_both_lengths_cut() {
    let annexb = [
        0, 0, 0, 1, 0x67, 0xaa, // 4-byte code, SPS-ish
        0, 0, 1, 0x68, 0xbb, // 3-byte code
        0, 0, 0, 1, 0x65, 0xcc, 0xdd, // 4-byte code again
    ];
    let nals = split_nals(&annexb);
    assert_eq!(
        nals,
        vec![&[0x67, 0xaa][..], &[0x68, 0xbb], &[0x65, 0xcc, 0xdd]]
    );
    // Every NAL knows where its code began, which is where an
    // insertion before it goes.
    let refs = scan_nals(&annexb);
    assert_eq!(
        refs.iter().map(|nal| nal.code).collect::<Vec<_>>(),
        vec![0, 6, 11]
    );
    assert_eq!(
        refs.iter().map(|nal| nal.start).collect::<Vec<_>>(),
        vec![4, 9, 15]
    );
    // With no padding anywhere, the padding offset is the code.
    assert_eq!(
        refs.iter().map(|nal| nal.pad).collect::<Vec<_>>(),
        vec![0, 6, 11]
    );
    assert_eq!(refs.last().expect("a NAL").end, annexb.len());
}

#[test]
fn bytes_with_no_start_code_hold_no_nals() {
    assert!(scan_nals(&[]).is_empty());
    assert!(scan_nals(&[1, 2, 3, 4]).is_empty());
    assert!(scan_nals(&[0, 0, 0, 0]).is_empty());
    assert!(split_nals(&[0x67, 0x64, 0x00, 0x1f]).is_empty());
    // And a packet of them reframes to nothing rather than refusing.
    assert!(annexb_to_length_prefixed(&[1, 2, 3, 4], 4)
        .expect("a sample")
        .is_empty());
}

#[test]
fn bytes_before_the_first_start_code_are_ignored() {
    let annexb = [0xde, 0xad, 0, 0, 0, 1, 0x65, 0x88];
    assert_eq!(split_nals(&annexb), vec![&[0x65, 0x88][..]]);
    assert_eq!(scan_nals(&annexb)[0].code, 2);
}

#[test]
fn the_zeroes_before_a_start_code_belong_to_neither_nal() {
    // One zero is the four byte code's own; a second pads the way
    // to it, which is what ffmpeg writes between the parameter sets
    // of its H.264 extradata. Neither is part of a NAL unit.
    let annexb = [0, 0, 0, 1, 0x67, 0xaa, 0, 0, 0, 0, 1, 0x68, 0xbb];
    assert_eq!(split_nals(&annexb), vec![&[0x67, 0xaa][..], &[0x68, 0xbb]]);
    let refs = scan_nals(&annexb);
    // The padding is where the second NAL's bytes begin, and the
    // start code is where a splice before it goes: the byte between
    // the two is the one that padded the SPS.
    assert_eq!((refs[0].start, refs[0].end), (4, 6));
    assert_eq!((refs[1].pad, refs[1].code, refs[1].start), (6, 7, 11));
    assert_eq!(refs[0].end, refs[1].pad, "the NALs tile the stream");

    // However many zeroes there are, and wherever they fall.
    let mut padded = vec![0, 0, 0, 1, 0x67, 0xaa];
    padded.extend_from_slice(&[0; 6]);
    padded.extend_from_slice(&[0, 0, 1, 0x68, 0xbb]);
    padded.extend_from_slice(&[0; 3]);
    assert_eq!(split_nals(&padded), vec![&[0x67, 0xaa][..], &[0x68, 0xbb]]);
    let refs = scan_nals(&padded);
    assert_eq!((refs[0].end, refs[1].pad, refs[1].code), (6, 6, 11));
    assert_eq!(
        refs[1].end,
        padded.len() - 3,
        "the stream's own trailing zeroes are not the NAL's"
    );
}

#[test]
fn padding_survives_a_reframe_only_as_padding() {
    // The one thing reframing drops: the zeroes between NALs, which
    // no length-prefixed sample has anywhere to put. Every other
    // byte comes back.
    let mut padded = vec![0, 0, 0, 1, 0x67, 0xaa, 0];
    padded.extend_from_slice(&[0, 0, 0, 1, 0x68, 0xbb, 0, 0]);
    let clean: Vec<u8> = [
        &START_CODE[..],
        &[0x67, 0xaa],
        &START_CODE[..],
        &[0x68, 0xbb],
    ]
    .concat();
    for length_size in 1..=4usize {
        let framed = annexb_to_length_prefixed(&padded, length_size).expect("a sample");
        assert_eq!(
            framed,
            annexb_to_length_prefixed(&clean, length_size).expect("a sample"),
            "the padding reached the sample"
        );
        let back = length_prefixed_to_annexb(&framed, length_size).expect("annex b");
        assert_eq!(back, clean);
        assert_eq!(split_nals(&back), split_nals(&padded));
    }
}

#[test]
fn length_prefixing_puts_each_nals_own_length_in_front() {
    let annexb = [0, 0, 1, 0x06, 0x05, 0, 0, 0, 1, 0x65, 0x88];
    assert_eq!(
        annexb_to_length_prefixed(&annexb, 4).expect("a sample"),
        vec![0, 0, 0, 2, 0x06, 0x05, 0, 0, 0, 2, 0x65, 0x88]
    );
    let annexb: &[u8] = &[0, 0, 0, 1, 0x65, 1, 2, 3, 0, 0, 0, 1, 0x41, 9];
    let framed = annexb_to_length_prefixed(annexb, 4).expect("a sample");
    assert_eq!(framed, vec![0, 0, 0, 4, 0x65, 1, 2, 3, 0, 0, 0, 2, 0x41, 9]);
    assert_eq!(
        length_prefixed_to_annexb(&framed, 4).expect("annex b"),
        annexb
    );
}

#[test]
fn the_two_framings_round_trip_at_every_width() {
    let mut stream = Vec::new();
    for nal in [
        vec![0x67u8, 0x64, 0x00, 0x1f, 0xac],
        vec![0x68, 0xeb, 0xec, 0xb2],
        vec![0x65, 0x88, 0x84, 0x00],
    ] {
        stream.extend_from_slice(&START_CODE);
        stream.extend_from_slice(&nal);
    }
    for length_size in 1..=4usize {
        let framed = annexb_to_length_prefixed(&stream, length_size).expect("framed");
        let back = length_prefixed_to_annexb(&framed, length_size).expect("annex b");
        assert_eq!(split_nals(&back), split_nals(&stream));
    }
    assert!(annexb_to_length_prefixed(&stream, 0).is_err());
    assert!(annexb_to_length_prefixed(&stream, 5).is_err());
    assert!(split_length_prefixed(&stream, 5).is_err());
}

#[test]
fn a_nal_too_long_for_its_prefix_is_refused() {
    let mut annexb = vec![0, 0, 0, 1, 0x65];
    annexb.extend(std::iter::repeat_n(0x5a, 300));
    assert_eq!(
        annexb_to_length_prefixed(&annexb, 1),
        Err(Error::TooLarge { at: 4 })
    );
    assert!(annexb_to_length_prefixed(&annexb, 2).is_ok());
}

#[test]
fn a_nal_running_past_the_sample_is_refused_with_its_offset() {
    assert_eq!(
        split_length_prefixed(&[0, 0, 0, 9, 1, 2], 4),
        Err(Error::Malformed {
            what: "a NAL overruns the sample",
            at: 4
        })
    );
    assert_eq!(
        split_length_prefixed(&[0, 0, 0], 4),
        Err(Error::Malformed {
            what: "the sample ends inside a NAL length",
            at: 0
        })
    );
}

#[test]
fn a_truncated_sample_is_refused_not_panicked() {
    let mut stream = Vec::new();
    for nal in [vec![0x67u8, 0x64, 0x00], vec![0x65, 0x88, 0x84, 0x00]] {
        stream.extend_from_slice(&START_CODE);
        stream.extend_from_slice(&nal);
    }
    let sample = annexb_to_length_prefixed(&stream, 4).expect("a sample");
    for cut in 1..sample.len() {
        let _ = split_length_prefixed(&sample[..cut], 4);
        let _ = length_prefixed_to_annexb(&sample[..cut], 4);
    }
    assert!(split_length_prefixed(&sample[..3], 4).is_err());
}
