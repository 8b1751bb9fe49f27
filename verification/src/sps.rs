//! The bits inside a sequence parameter set: the exp-Golomb reader of
//! ISO/IEC 14496-10 section 9.1, and the few fields an `avcC` record
//! repeats out of the SPS, section 7.3.2.1.
//!
//! Only those fields are read. Resolution, the VUI, the HRD and the AV1
//! sequence header are not parsed here: the geometry a muxer writes
//! comes from the stream's own header out of band, which is where ffmpeg
//! already put it.

use vstd::prelude::*;
use vstd::slice::slice_subrange;
use crate::annexb;
use crate::annexb::{scan_nals, NalRef};
use crate::ep;
use crate::ep::remove_emulation_prevention;
use crate::h26x;
use crate::h26x::{Codec, H264_SPS};

verus! {

/// The bits of a byte string and a place among them.
pub struct Bits {
    pub data: Seq<u8>,
    pub pos: int,
}

/// Bit `p` of `data`, the most significant bit of each byte first.
pub open spec fn bit_at(data: Seq<u8>, p: int) -> u8 {
    data[p / 8] >> ((7 - p % 8) as u8) & 1
}

/// How many bits `data` has.
pub open spec fn bit_len(data: Seq<u8>) -> int {
    8 * data.len() as int
}

/// How many zero bits stand in a row from bit `p` on, looking at `most`
/// bits and no further than the end.
pub open spec fn zero_bits(data: Seq<u8>, p: int, most: nat) -> nat
    decreases most,
{
    if most == 0 || p >= bit_len(data) || bit_at(data, p) != 0 {
        0
    } else {
        1 + zero_bits(data, p + 1, (most - 1) as nat)
    }
}

/// The number that the `n` bits from bit `p` on spell.
pub open spec fn bits_value(data: Seq<u8>, p: int, n: nat) -> nat
    decreases n,
{
    if n == 0 {
        0
    } else {
        2 * bits_value(data, p, (n - 1) as nat) + bit_at(data, p + n - 1) as nat
    }
}

/// `2` to the power `n`.
pub open spec fn two_to(n: nat) -> nat
    decreases n,
{
    if n == 0 {
        1
    } else {
        2 * two_to((n - 1) as nat)
    }
}

/// The `ue(v)` value at bit `p` and where it ends: `z` zeroes, a set
/// bit, and `z` bits more, which spell how far the value is past
/// `2^z - 1`. None has 32 zeroes or more, and none runs out.
pub open spec fn ue_at(data: Seq<u8>, p: int) -> Option<(u32, int)> {
    let z = zero_bits(data, p, 32);
    if z < 32 && p + 2 * z + 1 <= bit_len(data) {
        Some(((two_to(z) - 1 + bits_value(data, p + z + 1, z)) as u32, p + 2 * z + 1))
    } else {
        None
    }
}

/// Where a reader that looked for a `ue(v)` value at bit `p` stops:
/// behind the value, behind 32 zeroes, or where the bits ran out.
pub open spec fn ue_leaves(data: Seq<u8>, p: int) -> int {
    let z = zero_bits(data, p, 32);
    if z >= 32 {
        p + 32
    } else if p + 2 * z + 1 <= bit_len(data) {
        p + 2 * z + 1
    } else if p >= bit_len(data) {
        p
    } else {
        bit_len(data)
    }
}

/// A run of zero bits is as long as it says, and ends before it has to
/// only at a set bit or at the end.
proof fn lemma_zero_bits(data: Seq<u8>, p: int, most: nat)
    ensures
        zero_bits(data, p, most) <= most,
        zero_bits(data, p, most) > 0 ==> p + zero_bits(data, p, most) <= bit_len(data),
    decreases most,
{
    if !(most == 0 || p >= bit_len(data) || bit_at(data, p) != 0) {
        lemma_zero_bits(data, p + 1, (most - 1) as nat);
    }
}

/// `n` bits spell a number below `2^n`.
pub proof fn lemma_bits_value(data: Seq<u8>, p: int, n: nat)
    requires
        n <= 31,
    ensures
        bits_value(data, p, n) < two_to(n) <= 0x8000_0000,
    decreases n,
{
    lemma_two_to(n);
    if n > 0 {
        lemma_bits_value(data, p, (n - 1) as nat);
        lemma_bit(data, p + n - 1);
    }
}

proof fn lemma_two_to(n: nat)
    requires
        n <= 31,
    ensures
        1 <= two_to(n) <= 0x8000_0000,
{
    reveal_with_fuel(two_to, 32);
}

/// The zeroes before a `ue(v)` value say how large it is: with `z` of
/// them it is at least `2^z - 1` and less than twice that and one.
pub proof fn zeroes_say_how_large_a_value_is(data: Seq<u8>, p: int)
    ensures
        ue_at(data, p) matches Some((value, end)) ==> {
            let z = zero_bits(data, p, 32);
            &&& end == p + 2 * z + 1
            &&& two_to(z) <= value + 1 < 2 * two_to(z)
        },
{
    let z = zero_bits(data, p, 32);
    if ue_at(data, p) is Some {
        lemma_bits_value(data, p + z + 1, z);
    }
}

/// A bit is zero or one.
proof fn lemma_bit(data: Seq<u8>, p: int)
    ensures
        bit_at(data, p) <= 1,
{
    let byte = data[p / 8];
    let shift = (7 - p % 8) as u8;
    assert(byte >> shift & 1 <= 1) by (bit_vector);
}

/// A most-significant-bit-first reader over a byte slice, which is how
/// every field of a parameter set is spelled.
pub struct BitReader<'a> {
    data: &'a [u8],
    /// The bit it is at, wide enough to count the bits of any slice.
    pos: u128,
}

impl<'a> View for BitReader<'a> {
    type V = Bits;

    closed spec fn view(&self) -> Bits {
        Bits { data: self.data@, pos: self.pos as int }
    }
}

impl<'a> BitReader<'a> {
    /// A reader at the first bit of `data`, which is an RBSP: the
    /// escapes are expected to be off already.
    pub fn new(data: &'a [u8]) -> (reader: Self)
        ensures
            reader@ == (Bits { data: data@, pos: 0 }),
    {
        BitReader { data, pos: 0 }
    }

    /// The next bit, or `None` at the end of the bytes.
    pub fn bit(&mut self) -> (out: Option<u32>)
        ensures
            final(self)@.data == old(self)@.data,
            match out {
                Some(bit) => {
                    &&& old(self)@.pos < bit_len(old(self)@.data)
                    &&& bit == bit_at(old(self)@.data, old(self)@.pos)
                    &&& final(self)@.pos == old(self)@.pos + 1
                },
                None => {
                    &&& old(self)@.pos >= bit_len(old(self)@.data)
                    &&& final(self)@.pos == old(self)@.pos
                },
            },
    {
        let total: u128 = self.data.len() as u128 * 8;
        if self.pos >= total {
            return None;
        }
        let byte: u8 = self.data[(self.pos / 8) as usize];
        let shift: u8 = 7 - (self.pos % 8) as u8;
        self.pos = self.pos + 1;
        Some((byte >> shift & 1) as u32)
    }

    /// Steps `n` bits on, or `None` when there are not that many left.
    pub fn skip(&mut self, n: usize) -> (out: Option<()>)
        ensures
            out is Some <==> old(self)@.pos + n <= bit_len(old(self)@.data),
            final(self)@ == (if out is Some {
                Bits { pos: old(self)@.pos + n, ..old(self)@ }
            } else {
                old(self)@
            }),
    {
        let total: u128 = self.data.len() as u128 * 8;
        if self.pos > total || n as u128 > total - self.pos {
            return None;
        }
        self.pos = self.pos + n as u128;
        Some(())
    }

    /// One unsigned exp-Golomb value, `ue(v)`: the zeroes say how many
    /// bits follow the set bit.
    pub fn ue(&mut self) -> (out: Option<u32>)
        ensures
            out == (match ue_at(old(self)@.data, old(self)@.pos) {
                Some((value, _)) => Some(value),
                None => None,
            }),
            final(self)@ == (Bits {
                pos: ue_leaves(old(self)@.data, old(self)@.pos),
                ..old(self)@
            }),
    {
        let ghost data = self@.data;
        let ghost p = self@.pos;
        let mut zeros: u32 = 0;
        proof {
            lemma_zero_bits(data, p, 32);
        }
        loop
            invariant_except_break
                zeros <= 31,
                self@.data == data,
                self@.pos == p + zeros,
                zero_bits(data, p, 32) == zeros + zero_bits(
                    data,
                    p + zeros,
                    (32 - zeros) as nat,
                ),
                zeros > 0 ==> p + zeros <= bit_len(data),
                data == old(self)@.data,
                p == old(self)@.pos,
            ensures
                zeros <= 31,
                zeros == zero_bits(data, p, 32),
                p + zeros < bit_len(data),
                self@.data == data,
                self@.pos == p + zeros + 1,
            decreases 32 - zeros,
        {
            let bit: u32 = match self.bit() {
                Some(bit) => bit,
                None => {
                    return None;
                },
            };
            if bit != 0 {
                break;
            }
            zeros += 1;
            if zeros > 31 {
                return None;
            }
        }
        let mut value: u32 = 0;
        let mut scale: u32 = 1;
        let mut k: u32 = 0;
        while k < zeros
            invariant
                k <= zeros <= 31,
                zeros == zero_bits(data, p, 32),
                p + zeros < bit_len(data),
                self@.data == data,
                self@.pos == p + zeros + 1 + k,
                self@.pos <= bit_len(data),
                value == bits_value(data, p + zeros + 1, k as nat),
                scale == two_to(k as nat),
                data == old(self)@.data,
                p == old(self)@.pos,
            decreases zeros - k,
        {
            proof {
                lemma_bits_value(data, p + zeros + 1, k as nat);
                lemma_bits_value(data, p + zeros + 1, (k + 1) as nat);
            }
            let bit: u32 = match self.bit() {
                Some(bit) => bit,
                None => {
                    return None;
                },
            };
            value = 2 * value + bit;
            scale = 2 * scale;
            k += 1;
        }
        proof {
            lemma_bits_value(data, p + zeros + 1, zeros as nat);
        }
        Some(scale - 1 + value)
    }
}

/// The formats an `avcC` extension carries, read out of an SPS.
#[derive(Clone, Copy, Debug, PartialEq, Eq)]
pub struct Formats {
    pub chroma_format_idc: u8,
    pub bit_depth_luma_minus8: u8,
    pub bit_depth_chroma_minus8: u8,
}

/// Where the bit depths of an SPS begin: behind the chroma format, and
/// behind `separate_colour_plane_flag` where the format has one.
pub open spec fn depths_at(chroma_format_idc: u32, behind: int) -> int {
    if chroma_format_idc == 3 {
        behind + 1
    } else {
        behind
    }
}

/// The formats in the RBSP of an SPS: profile, constraint flags and
/// level take 24 bits, and then come the SPS id, the chroma format and
/// the two bit depths.
pub open spec fn formats_in(rbsp: Seq<u8>) -> Option<Formats> {
    if bit_len(rbsp) < 24 {
        None
    } else {
        match ue_at(rbsp, 24) {
            Some((_, a)) => match ue_at(rbsp, a) {
                Some((chroma, b)) => if depths_at(chroma, b) > bit_len(rbsp) {
                    None
                } else {
                    match ue_at(rbsp, depths_at(chroma, b)) {
                        Some((luma_depth, c)) => match ue_at(rbsp, c) {
                            Some((chroma_depth, _)) => Some(
                                Formats {
                                    chroma_format_idc: chroma as u8,
                                    bit_depth_luma_minus8: luma_depth as u8,
                                    bit_depth_chroma_minus8: chroma_depth as u8,
                                },
                            ),
                            None => None,
                        },
                        None => None,
                    }
                },
                None => None,
            },
            None => None,
        }
    }
}

/// The formats of an SPS NAL unit.
pub open spec fn formats_of(nal: Seq<u8>) -> Option<Formats> {
    if nal.len() == 0 {
        None
    } else {
        formats_in(ep::unescape(nal.skip(1)))
    }
}

/// Reads chroma format and bit depths from an H.264 SPS NAL, header
/// byte and escapes included. `None` when the SPS runs out before they
/// are read.
pub fn formats(nal: &[u8]) -> (out: Option<Formats>)
    ensures
        out == formats_of(nal@),
{
    if nal.len() == 0 {
        return None;
    }
    let rbsp: Vec<u8> = remove_emulation_prevention(slice_subrange(nal, 1, nal.len()));
    assert(nal@.subrange(1, nal@.len() as int) =~= nal@.skip(1));
    let mut bits: BitReader<'_> = BitReader::new(rbsp.as_slice());
    // profile_idc, constraint flags, level_idc
    if bits.skip(24).is_none() {
        return None;
    }
    // seq_parameter_set_id
    if bits.ue().is_none() {
        return None;
    }
    let chroma_format_idc: u32 = match bits.ue() {
        Some(value) => value,
        None => {
            return None;
        },
    };
    if chroma_format_idc == 3 {
        // separate_colour_plane_flag
        if bits.skip(1).is_none() {
            return None;
        }
    }
    let bit_depth_luma_minus8: u32 = match bits.ue() {
        Some(value) => value,
        None => {
            return None;
        },
    };
    let bit_depth_chroma_minus8: u32 = match bits.ue() {
        Some(value) => value,
        None => {
            return None;
        },
    };
    Some(
        Formats {
            chroma_format_idc: chroma_format_idc as u8,
            bit_depth_luma_minus8: bit_depth_luma_minus8 as u8,
            bit_depth_chroma_minus8: bit_depth_chroma_minus8 as u8,
        },
    )
}

/// The profile and level that stand at bytes 1 and 3 of an SPS and of an
/// `avcC` record alike.
pub open spec fn profile_level_in(s: Seq<u8>) -> Option<(u8, u8)> {
    if s.len() >= 4 {
        Some((s[1], s[3]))
    } else {
        None
    }
}

/// The first SPS of a list of NAL units from NAL `k` on.
pub open spec fn first_sps(nals: Seq<Seq<u8>>, k: int) -> Option<Seq<u8>>
    decreases nals.len() - k,
{
    if k >= nals.len() {
        None
    } else if h26x::type_of(Codec::H264, nals[k]) == Some(H264_SPS) {
        Some(nals[k])
    } else {
        first_sps(nals, k + 1)
    }
}

/// The profile and level of a stream, from its out-of-band header.
pub open spec fn profile_level_of(extradata: Seq<u8>) -> Option<(u8, u8)> {
    if extradata.len() > 0 && extradata[0] == 1 {
        profile_level_in(extradata)
    } else {
        match first_sps(annexb::split(extradata), 0) {
            Some(nal) => profile_level_in(nal),
            None => None,
        }
    }
}

/// The H.264 profile and level of a stream, from its out-of-band header
/// in either spelling.
///
/// They are bytes 1 and 3 of the SPS payload, the same two an `avcC`
/// copies into its own header. Annex B extradata carries the SPS behind
/// a start code; a record carries them at the same offsets behind its
/// configuration version of 1, which no Annex B stream begins with.
pub fn profile_level(extradata: &[u8]) -> (out: Option<(u8, u8)>)
    ensures
        out == profile_level_of(extradata@),
{
    if extradata.len() > 0 && extradata[0] == 1 {
        return if extradata.len() >= 4 {
            Some((extradata[1], extradata[3]))
        } else {
            None
        };
    }
    let nals: Vec<NalRef<'_>> = scan_nals(extradata);
    let ghost list = annexb::split(extradata@);
    let mut k: usize = 0;
    assert(annexb::scan(extradata@).len() == nals@.len());
    while k < nals.len()
        invariant
            k <= nals@.len(),
            annexb::places(nals@) == annexb::scan(extradata@),
            list == annexb::split(extradata@),
            list.len() == nals@.len(),
            first_sps(list, 0) == first_sps(list, k as int),
            !(extradata@.len() > 0 && extradata@[0] == 1),
        decreases nals.len() - k,
    {
        let nal: &[u8] = nals[k].bytes;
        assert(annexb::scan(extradata@)[k as int] == nals@[k as int]@);
        assert(list[k as int] == nal@);
        if Codec::H264.nal_type(nal) == Some(H264_SPS) {
            return if nal.len() >= 4 {
                Some((nal[1], nal[3]))
            } else {
                None
            };
        }
        k += 1;
    }
    None
}

} // verus!
