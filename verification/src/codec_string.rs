//! The RFC 6381 name of a coded stream, which is what a catalog, a
//! WebCodecs configuration and an HLS or DASH manifest all call a codec.
//!
//! Only the H.264 spelling is here.

use vstd::prelude::*;
use vstd::string::*;
use crate::sps;
use crate::text;

verus! {

/// The codec string of a profile, its constraint flags and a level.
pub open spec fn avc_name(profile: u8, constraints: u8, level: u8) -> Seq<char> {
    "avc1."@ + text::hex_pair(profile) + text::hex_pair(constraints) + text::hex_pair(level)
}

/// The codec string an `avcC` record spells.
pub open spec fn record_name(avcc: Seq<u8>) -> Seq<char> {
    if avcc.len() >= 4 {
        avc_name(avcc[1], avcc[2], avcc[3])
    } else {
        "avc1"@
    }
}

/// The codec string of a profile and a level, with the constraint flags
/// an `avcC` record has or zero.
pub open spec fn stream_name(profile: u8, level: u8, avcc: Seq<u8>) -> Seq<char> {
    avc_name(
        profile,
        if avcc.len() >= 3 {
            avcc[2]
        } else {
            0
        },
        level,
    )
}

/// The two sources agree: a stream whose profile and level are those of
/// its `avcC` record has the codec string the record spells.
pub proof fn both_sources_agree(avcc: Seq<u8>, profile: u8, level: u8)
    requires
        avcc.len() > 0 && avcc[0] == 1,
        sps::profile_level_of(avcc) == Some((profile, level)),
    ensures
        stream_name(profile, level, avcc) == record_name(avcc),
{
}

/// The codec string of three bytes.
fn spell(profile: u8, constraints: u8, level: u8) -> (name: String)
    ensures
        name@ == avc_name(profile, constraints, level),
{
    let mut name: String = "avc1.".to_owned();
    text::put_hex_pair(&mut name, profile);
    text::put_hex_pair(&mut name, constraints);
    text::put_hex_pair(&mut name, level);
    name
}

/// The RFC 6381 codec string an `avcC` record spells: the profile, the
/// constraint flags and the level, which are its bytes 1 through 3. The
/// fallback for a stream that names no profile or level of its own.
pub fn avc_codec(avcc: &[u8]) -> (name: String)
    ensures
        name@ == record_name(avcc@),
{
    if avcc.len() >= 4 {
        spell(avcc[1], avcc[2], avcc[3])
    } else {
        "avc1".to_owned()
    }
}

/// The same codec string from the stream's own profile and level, the
/// preferred source: a stream whose extradata is empty still names them.
/// The constraint flags are the one byte they do not carry, read off the
/// `avcC` where it has one and zero otherwise.
pub fn avc_codec_from(profile: u8, level: u8, avcc: &[u8]) -> (name: String)
    ensures
        name@ == stream_name(profile, level, avcc@),
{
    let constraints: u8 = if avcc.len() >= 3 {
        avcc[2]
    } else {
        0
    };
    spell(profile, constraints, level)
}

} // verus!
