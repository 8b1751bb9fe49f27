//! The byte level of H.264, HEVC and AV1: where the NAL units and OBUs
//! of a coded stream begin and end, which of them open a picture, and
//! how to read a payload out of one or put a payload into one without
//! moving anything else.

use vstd::prelude::*;
use vstd::string::*;

pub mod annexb;
pub mod annexb_laws;
pub mod byte_laws;
pub mod bytes;
pub mod codec_string;
pub mod config;
pub mod config_laws;
pub mod ep;
pub mod feed;
pub mod feed_byte_laws;
pub mod feed_laws;
pub mod feed_state_laws;
pub mod growth;
pub mod h26x;
pub mod marks;
pub mod message_laws;
pub mod obu;
pub mod obu_byte_laws;
pub mod obu_laws;
pub mod picture_laws;
pub mod record_laws;
pub mod result_laws;
pub mod sei;
pub mod sei_laws;
pub mod sps;
pub mod sps_laws;
pub mod text;
pub mod text_laws;
pub mod weave_laws;
pub mod weave_obu_laws;

pub use h26x::Codec;

verus! {

/// What went wrong reading or building bytes of a coded stream.
///
/// One enum for the crate, and no allocation on the error path: a reader
/// that hits any of these drops what it was in the middle of and carries
/// on, and it can say where the trouble was without anyone having
/// formatted a string.
#[derive(Clone, Copy, Debug, PartialEq, Eq)]
pub enum Error {
    /// The bytes ran out before the value did. `at` is where the value
    /// began.
    Truncated { at: usize },
    /// The bytes are not the shape the standard requires. `at` is where
    /// the offending value began.
    Malformed { what: &'static str, at: usize },
    /// A value too large for the field it has to go in: a NAL longer
    /// than its length prefix can spell, or an OBU wider than memory.
    /// `at` is the offset the value belongs at, in the input when a
    /// reader found it and in the output when a writer did.
    TooLarge { at: usize },
    /// A codec name this crate has no framing for.
    UnknownCodec,
}

impl Error {
    /// Where the trouble was, when the bytes say.
    pub fn at(self) -> (offset: Option<usize>)
        ensures
            offset == (match self {
                Error::Truncated { at } => Some(at),
                Error::Malformed { what, at } => Some(at),
                Error::TooLarge { at } => Some(at),
                Error::UnknownCodec => None,
            }),
    {
        match self {
            Error::Truncated { at } => Some(at),
            Error::Malformed { what: _, at } => Some(at),
            Error::TooLarge { at } => Some(at),
            Error::UnknownCodec => None,
        }
    }

    /// What went wrong and where, in words.
    pub fn to_string(&self) -> (message: String)
        ensures
            message@ == error_text(*self),
    {
        let mut message: String = String::new();
        match *self {
            Error::Truncated { at } => {
                message.append("the bytes end inside a value at byte ");
                text::put_decimal(&mut message, at);
            },
            Error::Malformed { what, at } => {
                message.append(what);
                message.append(", at byte ");
                text::put_decimal(&mut message, at);
            },
            Error::TooLarge { at } => {
                message.append("a value at byte ");
                text::put_decimal(&mut message, at);
                message.append(" too large for the field it goes in");
            },
            Error::UnknownCodec => {
                message.append("a codec with no NAL or OBU framing here");
            },
        }
        assert(message@ =~= error_text(*self));
        message
    }
}

/// An error in words.
pub open spec fn error_text(e: Error) -> Seq<char> {
    match e {
        Error::Truncated { at } => "the bytes end inside a value at byte "@ + text::decimal(
            at as nat,
        ),
        Error::Malformed { what, at } => what@ + ", at byte "@ + text::decimal(at as nat),
        Error::TooLarge { at } => "a value at byte "@ + text::decimal(at as nat)
            + " too large for the field it goes in"@,
        Error::UnknownCodec => "a codec with no NAL or OBU framing here"@,
    }
}

/// Which of a carrier's payloads are the caller's own.
///
/// Every format that rides inside a coded stream has to tell its own
/// payloads from the encoder's, and both spellings do it the same way:
/// an H.264 or HEVC payload is a `user_data_unregistered` SEI message
/// opened by a UUID, and an AV1 payload is a metadata OBU of a chosen
/// `metadata_type` whose body opens by the same UUID. Nothing else in
/// the stream is looked at, let alone changed.
#[derive(Clone, Copy, Debug, PartialEq, Eq)]
pub struct Select {
    /// The 16 byte `uuid_iso_iec_11578` a payload opens with.
    pub uuid: [u8; 16],
    /// The AV1 `metadata_type` the payload's OBU carries. AV1 leaves 6
    /// to 31 unregistered for private use.
    pub metadata_type: u64,
}

impl Select {
    /// The payloads opened by `uuid`, carried in AV1 metadata OBUs of
    /// `metadata_type`.
    pub fn new(uuid: [u8; 16], metadata_type: u64) -> (select: Self)
        ensures
            select.uuid == uuid,
            select.metadata_type == metadata_type,
    {
        Select { uuid, metadata_type }
    }
}

} // verus!
