//! What the bits of a parameter set are, in bytes, and what is read out
//! of them.

use vstd::prelude::*;
use crate::annexb;
use crate::annexb_laws;
use crate::ep;
use crate::picture_laws;
use crate::sps;
use crate::sps::Formats;

verus! {

/// The bits of a byte come most significant first: bit 0 is what the byte
/// is divided by 128, and so on down to bit 7, which is whether it is
/// odd.
pub proof fn bits_in_bytes(data: Seq<u8>, i: int)
    ensures
        sps::bit_at(data, 8 * i) == data[i] / 128 % 2,
        sps::bit_at(data, 8 * i + 1) == data[i] / 64 % 2,
        sps::bit_at(data, 8 * i + 2) == data[i] / 32 % 2,
        sps::bit_at(data, 8 * i + 3) == data[i] / 16 % 2,
        sps::bit_at(data, 8 * i + 4) == data[i] / 8 % 2,
        sps::bit_at(data, 8 * i + 5) == data[i] / 4 % 2,
        sps::bit_at(data, 8 * i + 6) == data[i] / 2 % 2,
        sps::bit_at(data, 8 * i + 7) == data[i] % 2,
        sps::bit_len(data) == data.len() * 8,
{
    let b = data[i];
    assert(b >> 7u8 & 1 == b / 128 % 2 && b >> 6u8 & 1 == b / 64 % 2 && b >> 5u8 & 1 == b / 32 % 2
        && b >> 4u8 & 1 == b / 16 % 2 && b >> 3u8 & 1 == b / 8 % 2 && b >> 2u8 & 1 == b / 4 % 2 && b
        >> 1u8 & 1 == b / 2 % 2 && b >> 0u8 & 1 == b % 2) by (bit_vector);
}

/// The number that bits spell is twice the number that all but the last
/// spell, and the last.
pub proof fn bits_spell_a_number(data: Seq<u8>, p: int, n: nat)
    ensures
        sps::bits_value(data, p, 0) == 0,
        sps::bits_value(data, p, n + 1) == 2 * sps::bits_value(data, p, n) + sps::bit_at(
            data,
            p + n,
        ),
{
    assert((n + 1 - 1) as nat == n);
    assert(p + (n + 1) - 1 == p + n);
}

proof fn lemma_zeroes(data: Seq<u8>, p: int, most: nat, z: nat)
    requires
        z <= most,
        p + z <= sps::bit_len(data) || z == 0,
        forall|i: int| p <= i < p + z ==> #[trigger] sps::bit_at(data, i) == 0,
        z == most || p + z >= sps::bit_len(data) || sps::bit_at(data, p + z) != 0,
    ensures
        sps::zero_bits(data, p, most) == z,
    decreases most,
{
    if z > 0 {
        assert(sps::bit_at(data, p) == 0);
        lemma_zeroes(data, p + 1, (most - 1) as nat, (z - 1) as nat);
    }
}

/// Bits of zero and then others spell what the others do.
proof fn lemma_leading_zeroes(data: Seq<u8>, p: int, z: nat, n: nat)
    requires
        forall|i: int| p <= i < p + z ==> #[trigger] sps::bit_at(data, i) == 0,
    ensures
        sps::bits_value(data, p, z + n) == sps::bits_value(data, p + z, n),
    decreases z + n,
{
    if n > 0 {
        lemma_leading_zeroes(data, p, z, (n - 1) as nat);
        bits_spell_a_number(data, p, (z + n - 1) as nat);
        bits_spell_a_number(data, p + z, (n - 1) as nat);
    } else if z > 0 {
        lemma_leading_zeroes(data, p, (z - 1) as nat, 0);
        bits_spell_a_number(data, p, (z - 1) as nat);
        assert(sps::bit_at(data, p + (z - 1)) == 0);
    }
}

/// A set bit and `n` more spell two to the power `n` and what the `n`
/// spell.
proof fn lemma_leading_one(data: Seq<u8>, p: int, n: nat)
    requires
        sps::bit_at(data, p) == 1,
    ensures
        sps::bits_value(data, p, n + 1) == sps::two_to(n) + sps::bits_value(data, p + 1, n),
    decreases n,
{
    if n == 0 {
        bits_spell_a_number(data, p, 0);
    } else {
        lemma_leading_one(data, p, (n - 1) as nat);
        bits_spell_a_number(data, p, n);
        bits_spell_a_number(data, p + 1, (n - 1) as nat);
    }
}

/// What an exp-Golomb value is: behind `z` zeroes, fewer than 32, comes a
/// set bit and then `z` bits more; and the bits of the whole code, read
/// as a number, are one more than the value. A reader stops behind the
/// code, or where the bits end if they end in it.
pub proof fn an_exp_golomb_value_in_bits(data: Seq<u8>, p: int, z: nat)
    requires
        0 <= p,
        z < 32,
        p + z < sps::bit_len(data),
        forall|i: int| p <= i < p + z ==> #[trigger] sps::bit_at(data, i) == 0,
        sps::bit_at(data, p + z) == 1,
    ensures
        p + 2 * z + 1 <= sps::bit_len(data) ==> {
            &&& sps::ue_at(data, p) matches Some((value, end)) && value + 1 == sps::bits_value(
                data,
                p,
                2 * z + 1,
            ) && end == p + 2 * z + 1
            &&& sps::ue_leaves(data, p) == p + 2 * z + 1
        },
        p + 2 * z + 1 > sps::bit_len(data) ==> sps::ue_at(data, p) is None && sps::ue_leaves(
            data,
            p,
        ) == sps::bit_len(data),
{
    lemma_zeroes(data, p, 32, z);
    lemma_leading_zeroes(data, p, z, z + 1);
    lemma_leading_one(data, p + z, z);
    sps::lemma_bits_value(data, p + z + 1, z);
    assert((z + (z + 1)) as nat == (2 * z + 1) as nat);
}

/// Where there is no exp-Golomb value: 32 zeroes, behind which a reader
/// stops, or fewer and then the end.
pub proof fn no_exp_golomb_value(data: Seq<u8>, p: int, z: nat)
    requires
        0 <= p,
        z <= 32,
        p + z <= sps::bit_len(data) || z == 0,
        forall|i: int| p <= i < p + z ==> #[trigger] sps::bit_at(data, i) == 0,
        z == 32 || p + z >= sps::bit_len(data),
    ensures
        sps::ue_at(data, p) is None,
        sps::ue_leaves(data, p) == p + z,
{
    lemma_zeroes(data, p, 32, z);
}

/// The formats of an SPS are exp-Golomb values one behind another, from
/// bit 24 of what is behind its header byte with the escapes off: the id,
/// the chroma format, and then the two bit depths, with one bit before
/// them where the chroma format is 3.
pub proof fn formats_are_values_one_behind_another(
    nal: Seq<u8>,
    id: u32,
    a: int,
    chroma: u32,
    b: int,
    luma_depth: u32,
    c: int,
    chroma_depth: u32,
    d: int,
)
    requires
        nal.len() >= 1,
        ({
            let rbsp = ep::unescape(nal.skip(1));
            let depths = if chroma == 3 {
                b + 1
            } else {
                b
            };
            &&& sps::bit_len(rbsp) >= 24
            &&& sps::ue_at(rbsp, 24) == Some((id, a))
            &&& sps::ue_at(rbsp, a) == Some((chroma, b))
            &&& depths <= sps::bit_len(rbsp)
            &&& sps::ue_at(rbsp, depths) == Some((luma_depth, c))
            &&& sps::ue_at(rbsp, c) == Some((chroma_depth, d))
        }),
    ensures
        sps::formats_of(nal) == Some(
            Formats {
                chroma_format_idc: chroma as u8,
                bit_depth_luma_minus8: luma_depth as u8,
                bit_depth_chroma_minus8: chroma_depth as u8,
            },
        ),
{
}

/// An SPS that ends before its formats do has none.
pub proof fn a_short_sps_has_no_formats(nal: Seq<u8>)
    ensures
        nal.len() == 0 ==> sps::formats_of(nal) is None,
        nal.len() >= 1 ==> ({
            let rbsp = ep::unescape(nal.skip(1));
            &&& sps::bit_len(rbsp) < 24 ==> sps::formats_of(nal) is None
            &&& sps::ue_at(rbsp, 24) is None ==> sps::formats_of(nal) is None
            &&& sps::ue_at(rbsp, 24) matches Some((id, a)) ==> {
                &&& sps::ue_at(rbsp, a) is None ==> sps::formats_of(nal) is None
                &&& sps::ue_at(rbsp, a) matches Some((chroma, b)) ==> {
                    let depths = if chroma == 3 {
                        b + 1
                    } else {
                        b
                    };
                    &&& depths > sps::bit_len(rbsp) ==> sps::formats_of(nal) is None
                    &&& sps::ue_at(rbsp, depths) is None ==> sps::formats_of(nal) is None
                    &&& sps::ue_at(rbsp, depths) matches Some((luma_depth, c)) ==> (sps::ue_at(
                        rbsp,
                        c,
                    ) is None ==> sps::formats_of(nal) is None)
                }
            }
        }),
{
}

/// Where the profile and level are, in bytes: at 1 and 3 of a record,
/// which opens with 1, and at 1 and 3 of the first SPS of a stream, which
/// is the first NAL unit whose header byte is 7 above a multiple of 32.
pub proof fn profile_and_level_in_bytes(extradata: Seq<u8>, k: int)
    ensures
        extradata.len() >= 4 && extradata[0] == 1 ==> sps::profile_level_of(extradata) == Some(
            (extradata[1], extradata[3]),
        ),
        0 < extradata.len() < 4 && extradata[0] == 1 ==> sps::profile_level_of(extradata) is None,
        ({
            let nals = annexb::split(extradata);
            (extradata.len() == 0 || extradata[0] != 1) ==> {
                &&& 0 <= k < nals.len() && nals[k].len() >= 1 && nals[k][0] % 32 == 7 && (
                forall|j: int|
                    0 <= j < k ==> (#[trigger] nals[j]).len() == 0 || nals[j][0] % 32 != 7)
                    ==> sps::profile_level_of(extradata) == if nals[k].len() >= 4 {
                    Some((nals[k][1], nals[k][3]))
                } else {
                    None
                }
                &&& (forall|j: int|
                    0 <= j < nals.len() ==> (#[trigger] nals[j]).len() == 0 || nals[j][0] % 32
                        != 7) ==> sps::profile_level_of(extradata) is None
            }
        }),
{
    let nals = annexb::split(extradata);
    if 0 <= k < nals.len() && nals[k].len() >= 1 && nals[k][0] % 32 == 7 && (forall|j: int|
        0 <= j < k ==> (#[trigger] nals[j]).len() == 0 || nals[j][0] % 32 != 7) {
        lemma_first_sps(nals, 0, k);
    }
    if forall|j: int| 0 <= j < nals.len() ==> (#[trigger] nals[j]).len() == 0 || nals[j][0] % 32
        != 7 {
        lemma_first_sps(nals, 0, nals.len() as int);
    }
}

proof fn lemma_first_sps(nals: Seq<Seq<u8>>, i: int, k: int)
    requires
        0 <= i <= k <= nals.len(),
        forall|j: int| i <= j < k ==> (#[trigger] nals[j]).len() == 0 || nals[j][0] % 32 != 7,
        k < nals.len() ==> nals[k].len() >= 1 && nals[k][0] % 32 == 7,
    ensures
        sps::first_sps(nals, i) == if k < nals.len() {
            Some(nals[k])
        } else {
            None
        },
    decreases k - i,
{
    if i < nals.len() {
        picture_laws::types_in_bytes(nals[i]);
    }
    if i < k {
        assert(nals[i].len() == 0 || nals[i][0] % 32 != 7);
        lemma_first_sps(nals, i + 1, k);
    }
}

/// An SPS by itself behind a start code gives the profile and level it
/// holds.
pub proof fn a_coded_sps_gives_its_profile_and_level(nal: Seq<u8>)
    requires
        annexb::clean(nal),
        nal.len() >= 4,
        nal[0] % 32 == 7,
    ensures
        sps::profile_level_of(seq![0u8, 0, 0, 1] + nal) == Some((nal[1], nal[3])),
{
    let s = seq![0u8, 0, 0, 1] + nal;
    assert(annexb::START_CODE@ + nal =~= s);
    annexb_laws::lemma_split_one(nal);
    assert(s[0] == 0);
    profile_and_level_in_bytes(s, 0);
}

} // verus!
