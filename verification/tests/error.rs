use ffrwd_nal::Error;

#[test]
fn an_error_says_where_it_was() {
    assert_eq!(Error::Truncated { at: 9 }.at(), Some(9));
    assert_eq!(
        Error::Malformed {
            what: "a NAL overruns the sample",
            at: 12
        }
        .at(),
        Some(12)
    );
    assert_eq!(Error::UnknownCodec.at(), None);
    assert_eq!(
        Error::Malformed {
            what: "a NAL overruns the sample",
            at: 12
        }
        .to_string(),
        "a NAL overruns the sample, at byte 12"
    );
}
