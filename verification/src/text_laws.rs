//! What numbers are as text, character by character.

use vstd::prelude::*;
use crate::codec_string;
use crate::text;
use crate::Error;

verus! {

/// The digits of sixteen: `0` to `9` and then `a` to `f`.
pub proof fn digits_by_character(n: int)
    requires
        0 <= n < 16,
    ensures
        text::digit(n) as int == if n < 10 {
            48 + n
        } else {
            87 + n
        },
{
}

/// A byte is two digits, the sixteens first.
pub proof fn bytes_are_two_digits(byte: u8)
    ensures
        text::hex_pair(byte).len() == 2,
        text::hex_pair(byte)[0] as int == if byte / 16 < 10 {
            48 + byte / 16
        } else {
            87 + byte / 16
        },
        text::hex_pair(byte)[1] as int == if byte % 16 < 10 {
            48 + byte % 16
        } else {
            87 + byte % 16
        },
{
    digits_by_character(byte as int / 16);
    digits_by_character(byte as int % 16);
}

/// A decimal number ends in the digit of its ones, and what is before
/// that is the number of its tens, or nothing where it has none.
pub proof fn decimals_digit_by_digit(n: nat)
    ensures
        text::decimal(n).len() >= 1,
        text::decimal(n).last() as int == 48 + n % 10,
        n < 10 ==> text::decimal(n).len() == 1,
        n >= 10 ==> text::decimal(n).drop_last() == text::decimal(n / 10),
{
    digits_by_character(n as int % 10);
    if n >= 10 {
        assert(text::decimal(n).drop_last() =~= text::decimal(n / 10));
    }
}

/// A codec string is `avc1.` and then the profile, the constraint flags
/// and the level, two digits each.
pub proof fn codec_strings_by_character(profile: u8, constraints: u8, level: u8)
    ensures
        ({
            let name = codec_string::avc_name(profile, constraints, level);
            &&& name.len() == 11
            &&& name[0] == 'a' && name[1] == 'v' && name[2] == 'c' && name[3] == '1' && name[4]
                == '.'
            &&& name.subrange(5, 7) == text::hex_pair(profile)
            &&& name.subrange(7, 9) == text::hex_pair(constraints)
            &&& name.subrange(9, 11) == text::hex_pair(level)
        }),
{
    reveal_strlit("avc1.");
    let name = codec_string::avc_name(profile, constraints, level);
    assert(name.subrange(5, 7) =~= text::hex_pair(profile));
    assert(name.subrange(7, 9) =~= text::hex_pair(constraints));
    assert(name.subrange(9, 11) =~= text::hex_pair(level));
}

/// What a record is called: by its bytes 1, 2 and 3, or `avc1` where it
/// ends before them; and what a stream is called: by its own profile and
/// level, with byte 2 of the record between them, or zero where it ends
/// before that.
pub proof fn names_by_their_bytes(profile: u8, level: u8, avcc: Seq<u8>)
    ensures
        avcc.len() >= 4 ==> codec_string::record_name(avcc) == codec_string::avc_name(
            avcc[1],
            avcc[2],
            avcc[3],
        ),
        avcc.len() < 4 ==> codec_string::record_name(avcc) == seq!['a', 'v', 'c', '1'],
        avcc.len() >= 3 ==> codec_string::stream_name(profile, level, avcc)
            == codec_string::avc_name(profile, avcc[2], level),
        avcc.len() < 3 ==> codec_string::stream_name(profile, level, avcc)
            == codec_string::avc_name(profile, 0, level),
{
    reveal_strlit("avc1");
    assert("avc1"@ =~= seq!['a', 'v', 'c', '1']);
}

/// What an error says in words holds its offset in decimal, where it has
/// one, and what was wrong, where it says so.
pub proof fn errors_say_their_offset(what: &'static str, at: usize)
    ensures
        ({
            let number = text::decimal(at as nat);
            let short = crate::error_text(Error::Truncated { at });
            let wrong = crate::error_text(Error::Malformed { what, at });
            let large = crate::error_text(Error::TooLarge { at });
            &&& short == "the bytes end inside a value at byte "@ + number
            &&& wrong == what@ + ", at byte "@ + number
            &&& large == "a value at byte "@ + number + " too large for the field it goes in"@
            &&& crate::error_text(Error::UnknownCodec) == "a codec with no NAL or OBU framing here"@
        }),
{
}

} // verus!
