//! What a NAL unit's header says and where an access unit begins:
//! ISO/IEC 14496-10 sections 7.3.1 and 7.4.1.2 for H.264, ISO/IEC
//! 23008-2 sections 7.3.1.2 and 7.4.2.4 for HEVC.
//!
//! The two codecs differ in the width of the header, the numbering of
//! the types and where the temporal id lives, and in nothing else that
//! matters at this level, so one [`Codec`] value carries the difference
//! and the rest of the crate takes it as an argument.

use vstd::prelude::*;
use crate::annexb;
use crate::annexb::{scan_nals, NalRef};
use crate::annexb_laws;
use crate::marks;

verus! {

/// Which of the two codecs a NAL belongs to.
#[derive(Clone, Copy, Debug, PartialEq, Eq, Structural)]
pub enum Codec {
    H264,
    H265,
}

/// The H.264 NAL unit type of a sequence parameter set.
pub const H264_SPS: u8 = 7;

/// The H.264 NAL unit type of a picture parameter set.
pub const H264_PPS: u8 = 8;

/// The H.264 NAL unit type of an SEI.
pub const H264_SEI: u8 = 6;

/// The HEVC NAL unit type of a prefix SEI.
pub const H265_PREFIX_SEI: u8 = 39;

/// The HEVC NAL unit type of a suffix SEI, which nothing here writes
/// and nothing here reads a payload out of.
pub const H265_SUFFIX_SEI: u8 = 40;

/// How many bytes the NAL header takes.
pub open spec fn header_len_of(codec: Codec) -> nat {
    match codec {
        Codec::H264 => 1,
        Codec::H265 => 2,
    }
}

/// A NAL unit's type: the low five bits of its one header byte in H.264,
/// bits 1 to 6 of the first of its two header bytes in HEVC. A NAL
/// shorter than its header has none.
pub open spec fn type_of(codec: Codec, nal: Seq<u8>) -> Option<u8> {
    if nal.len() < header_len_of(codec) {
        None
    } else {
        match codec {
            Codec::H264 => Some(nal[0] & 0x1f),
            Codec::H265 => Some(nal[0] >> 1 & 0x3f),
        }
    }
}

/// Whether a type is a coded slice.
pub open spec fn vcl_type(codec: Codec, kind: u8) -> bool {
    match codec {
        Codec::H264 => 1 <= kind <= 5,
        Codec::H265 => kind <= 31,
    }
}

/// Whether a NAL is a coded slice.
pub open spec fn is_slice(codec: Codec, nal: Seq<u8>) -> bool {
    type_of(codec, nal) matches Some(kind) && vcl_type(codec, kind)
}

/// Whether a slice type starts a random access point.
pub open spec fn keyframe_type(codec: Codec, kind: u8) -> bool {
    match codec {
        Codec::H264 => kind == 5,
        Codec::H265 => 16 <= kind <= 23,
    }
}

/// Whether a NAL is a slice of a random access point.
pub open spec fn is_key_slice(codec: Codec, nal: Seq<u8>) -> bool {
    type_of(codec, nal) matches Some(kind) && vcl_type(codec, kind) && keyframe_type(codec, kind)
}

/// Whether a non-slice type opens a new access unit when it turns up
/// after a slice.
pub open spec fn opening_type(codec: Codec, kind: u8) -> bool {
    match codec {
        Codec::H264 => 6 <= kind <= 9 || 13 <= kind <= 18,
        Codec::H265 => 32 <= kind <= 35 || 39 <= kind <= 47,
    }
}

/// The NAL header of a prefix SEI for an access unit at
/// `temporal_id_plus1`, which has three bits and is never zero in a
/// conforming stream.
pub open spec fn sei_header_of(codec: Codec, temporal_id_plus1: u8) -> Seq<u8> {
    match codec {
        Codec::H264 => seq![H264_SEI],
        Codec::H265 => seq![
            78u8,
            (if temporal_id_plus1 == 0 {
                1u8
            } else {
                temporal_id_plus1
            }) & 0x07,
        ],
    }
}

/// The `nuh_temporal_id_plus1` of a NAL: 1 for H.264, where the field
/// does not exist, and for a NAL that ends before it or says zero.
pub open spec fn temporal_id_of(codec: Codec, nal: Seq<u8>) -> u8 {
    match codec {
        Codec::H264 => 1,
        Codec::H265 => if nal.len() < 2 || nal[1] & 0x07 == 0 {
            1
        } else {
            nal[1] & 0x07
        },
    }
}

/// Whether a NAL is a prefix SEI.
pub open spec fn is_sei(codec: Codec, nal: Seq<u8>) -> bool {
    type_of(codec, nal) == Some(
        match codec {
            Codec::H264 => H264_SEI,
            Codec::H265 => H265_PREFIX_SEI,
        },
    )
}

/// Whether the first bit after a NAL's header is set.
pub open spec fn first_bit_set(codec: Codec, nal: Seq<u8>) -> bool {
    nal.len() > header_len_of(codec) && nal[header_len_of(codec) as int] & 0x80 != 0
}

impl Codec {
    /// How many bytes the NAL header takes: one for H.264's
    /// `nal_unit_header`, two for HEVC's.
    pub fn header_len(self) -> (n: usize)
        ensures
            n == header_len_of(self),
    {
        match self {
            Codec::H264 => 1,
            Codec::H265 => 2,
        }
    }

    /// A NAL unit's type, or `None` when the NAL is too short to have
    /// one.
    pub fn nal_type(self, nal: &[u8]) -> (kind: Option<u8>)
        ensures
            kind == type_of(self, nal@),
    {
        match self {
            Codec::H264 => {
                if nal.len() < 1 {
                    None
                } else {
                    Some(nal[0] & 0x1f)
                }
            },
            Codec::H265 => {
                if nal.len() < 2 {
                    None
                } else {
                    Some(nal[0] >> 1 & 0x3f)
                }
            },
        }
    }

    /// Whether a type is a coded slice: the NALs an access unit is
    /// built around.
    ///
    /// In H.264 1 to 5 are the slices. 19 and 20 are the auxiliary and
    /// extension slices, which never open an access unit on their own.
    pub fn is_vcl_type(self, kind: u8) -> (r: bool)
        ensures
            r == vcl_type(self, kind),
    {
        match self {
            Codec::H264 => 1 <= kind && kind <= 5,
            Codec::H265 => kind <= 31,
        }
    }

    /// Whether a NAL is a coded slice.
    pub fn is_vcl(self, nal: &[u8]) -> (r: bool)
        ensures
            r == is_slice(self, nal@),
    {
        match self.nal_type(nal) {
            Some(kind) => self.is_vcl_type(kind),
            None => false,
        }
    }

    /// Whether a slice type starts a random access point: the frames a
    /// file's sync samples are cut at. In HEVC that is the IRAP range,
    /// BLA, IDR and CRA.
    pub fn is_keyframe_type(self, kind: u8) -> (r: bool)
        ensures
            r == keyframe_type(self, kind),
    {
        match self {
            Codec::H264 => kind == 5,
            Codec::H265 => 16 <= kind && kind <= 23,
        }
    }

    /// Whether a non-slice type opens a new access unit when it turns
    /// up after one.
    ///
    /// The types left out are the ones that belong to the access unit
    /// they follow: filler data, and the end of sequence and end of
    /// stream markers.
    pub fn starts_access_unit(self, kind: u8) -> (r: bool)
        ensures
            r == opening_type(self, kind),
    {
        match self {
            Codec::H264 => (6 <= kind && kind <= 9) || (13 <= kind && kind <= 18),
            Codec::H265 => (32 <= kind && kind <= 35) || (39 <= kind && kind <= 47),
        }
    }

    /// The NAL header of a prefix SEI, for an access unit at
    /// `temporal_id_plus1`.
    ///
    /// HEVC requires a prefix SEI to carry the temporal id of the
    /// access unit it sits in, so the header is not a constant: a
    /// stream with temporal sub-layers would be non-conforming with one
    /// that always said zero. H.264 keeps its temporal id somewhere
    /// else entirely and its header is the same byte every time.
    pub fn sei_header(self, temporal_id_plus1: u8) -> (header: Vec<u8>)
        ensures
            header@ == sei_header_of(self, temporal_id_plus1),
    {
        let mut header: Vec<u8> = Vec::new();
        match self {
            Codec::H264 => {
                header.push(H264_SEI);
            },
            Codec::H265 => {
                let id: u8 = if temporal_id_plus1 == 0 {
                    1
                } else {
                    temporal_id_plus1
                };
                header.push(H265_PREFIX_SEI * 2);
                header.push(id & 0x07);
            },
        }
        assert(header@ =~= sei_header_of(self, temporal_id_plus1));
        header
    }

    /// The `nuh_temporal_id_plus1` of a NAL, which is 1 for H.264,
    /// where the field does not exist.
    pub fn temporal_id_plus1(self, nal: &[u8]) -> (id: u8)
        ensures
            id == temporal_id_of(self, nal@),
    {
        match self {
            Codec::H264 => 1,
            Codec::H265 => {
                if nal.len() < 2 || nal[1] & 0x07 == 0 {
                    1
                } else {
                    nal[1] & 0x07
                }
            },
        }
    }

    /// Whether a NAL is a prefix SEI, which is the one an SEI message
    /// of a writer's own may sit in.
    pub fn is_prefix_sei(self, nal: &[u8]) -> (r: bool)
        ensures
            r == is_sei(self, nal@),
    {
        match self.nal_type(nal) {
            Some(kind) => match self {
                Codec::H264 => kind == H264_SEI,
                Codec::H265 => kind == H265_PREFIX_SEI,
            },
            None => false,
        }
    }
}

/// Whether a slice NAL says it opens a picture.
///
/// `first_mb_in_slice` in H.264 and `first_slice_segment_in_pic_flag`
/// in HEVC are both the first bit after the header, and both are one
/// for the first slice: an exp-Golomb zero is a single set bit. No
/// emulation prevention byte can land that early, because the header
/// byte before it is never zero.
pub fn first_slice_of_picture(codec: Codec, nal: &[u8]) -> (r: bool)
    ensures
        r == first_bit_set(codec, nal@),
{
    let at: usize = codec.header_len();
    if at < nal.len() {
        nal[at] & 0x80 != 0
    } else {
        false
    }
}

/// One access unit of an Annex B stream.
#[derive(Clone, Copy, Debug, PartialEq, Eq)]
pub struct AccessUnit {
    /// Where the access unit starts: at the first byte the picture's
    /// own NALs need, which is any zero padding before its first start
    /// code and then that start code.
    pub start: usize,
    /// Where it ends, at the same point in the next access unit, so the
    /// units tile the stream with nothing left over.
    pub end: usize,
    /// Where an SEI NAL goes: at the start code of the first coded
    /// slice, which is after the delimiter, the parameter sets, any SEI
    /// already there, and any padding, so a splice here leaves every
    /// byte of the stream where it was. An access unit with no slice at
    /// all takes its own end.
    pub insert_at: usize,
    /// Whether the access unit is a random access point.
    pub keyframe: bool,
    /// The `nuh_temporal_id_plus1` of its first coded slice, which an
    /// SEI put in this access unit has to repeat.
    pub temporal_id_plus1: u8,
}

/// An access unit's place in a byte stream, as numbers.
pub struct Unit {
    pub start: int,
    pub end: int,
    pub insert_at: int,
    pub keyframe: bool,
    pub temporal_id_plus1: u8,
}

impl View for AccessUnit {
    type V = Unit;

    open spec fn view(&self) -> Unit {
        Unit {
            start: self.start as int,
            end: self.end as int,
            insert_at: self.insert_at as int,
            keyframe: self.keyframe,
            temporal_id_plus1: self.temporal_id_plus1,
        }
    }
}

/// The places of a list of access units.
pub open spec fn unit_places(list: Seq<AccessUnit>) -> Seq<Unit> {
    Seq::new(list.len(), |i: int| list[i]@)
}

/// Whether a NAL that turns up after a slice opens a new access unit: a
/// slice that says it is the first of a picture, or a parameter set,
/// delimiter or SEI.
pub open spec fn breaks(codec: Codec, nal: Seq<u8>) -> bool {
    type_of(codec, nal) matches Some(kind) && if vcl_type(codec, kind) {
        first_bit_set(codec, nal)
    } else {
        opening_type(codec, kind)
    }
}

/// Whether NAL `i` opens an access unit: it is the first that has a type
/// at all, or a slice of the access unit before has turned up and it
/// breaks from that one.
pub open spec fn opens(codec: Codec, nals: Seq<Seq<u8>>, i: int) -> bool
    decreases i, 1int,
{
    &&& type_of(codec, nals[i]) is Some
    &&& {
        ||| forall|j: int| 0 <= j < i ==> type_of(codec, #[trigger] nals[j]) is None
        ||| breaks(codec, nals[i]) && slice_pending(codec, nals, i)
    }
}

/// Whether the access unit that NAL `i` finds open holds a slice.
pub open spec fn slice_pending(codec: Codec, nals: Seq<Seq<u8>>, i: int) -> bool
    decreases i, 0int,
{
    i > 0 && (is_slice(codec, nals[i - 1]) || (!opens(codec, nals, i - 1) && slice_pending(
        codec,
        nals,
        i - 1,
    )))
}

/// [`opens`] as a test of one index.
pub open spec fn is_opening(codec: Codec, nals: Seq<Seq<u8>>) -> spec_fn(int) -> bool {
    |i: int| opens(codec, nals, i)
}

/// The NALs that open an access unit, in order.
pub open spec fn openings(codec: Codec, nals: Seq<Seq<u8>>) -> Seq<int> {
    marks::marks(is_opening(codec, nals), nals.len() as int)
}

/// The first slice from NAL `i` on and before NAL `j`, or `j`.
pub open spec fn first_slice(codec: Codec, nals: Seq<Seq<u8>>, i: int, j: int) -> int
    decreases j - i,
{
    if i >= j || is_slice(codec, nals[i]) {
        if i < j {
            i
        } else {
            j
        }
    } else {
        first_slice(codec, nals, i + 1, j)
    }
}

/// The access unit made of the NALs from `i` to `j` of a stream.
pub open spec fn unit_between(s: Seq<u8>, codec: Codec, i: int, j: int) -> Unit {
    let placed = annexb::scan(s);
    let nals = annexb::split(s);
    let slice = first_slice(codec, nals, i, j);
    let end = if j < nals.len() {
        placed[j].pad
    } else {
        s.len() as int
    };
    Unit {
        start: placed[i].pad,
        end,
        insert_at: if slice < j {
            placed[slice].code
        } else {
            end
        },
        keyframe: exists|k: int| i <= k < j && is_key_slice(codec, #[trigger] nals[k]),
        temporal_id_plus1: if slice < j {
            temporal_id_of(codec, nals[slice])
        } else {
            1
        },
    }
}

/// The access units of an Annex B stream.
pub open spec fn units(s: Seq<u8>, codec: Codec) -> Seq<Unit> {
    let nals = annexb::split(s);
    let open = openings(codec, nals);
    Seq::new(
        open.len(),
        |k: int| unit_between(s, codec, open[k], marks::next_of(open, k, nals.len() as int)),
    )
}

/// The first slice found is a slice, and no NAL before it is one.
pub proof fn lemma_first_slice(codec: Codec, nals: Seq<Seq<u8>>, i: int, j: int)
    requires
        i <= j,
    ensures
        i <= first_slice(codec, nals, i, j) <= j,
        forall|k: int|
            i <= k < first_slice(codec, nals, i, j) ==> !is_slice(codec, #[trigger] nals[k]),
        first_slice(codec, nals, i, j) < j ==> is_slice(
            codec,
            nals[first_slice(codec, nals, i, j)],
        ),
    decreases j - i,
{
    if i < j && !is_slice(codec, nals[i]) {
        lemma_first_slice(codec, nals, i + 1, j);
    }
}

/// Whether access units lie one behind the other to the end of a stream
/// of `to` bytes, each with its place for an SEI inside it.
pub open spec fn units_tiled(list: Seq<Unit>, to: int) -> bool {
    &&& list.len() > 0 ==> list.last().end == to
    &&& forall|k: int|
        0 <= k < list.len() ==> 0 <= (#[trigger] list[k]).start < list[k].end <= to
            && list[k].start <= list[k].insert_at <= list[k].end
    &&& forall|j: int, k: int|
        #![trigger list[j], list[k]]
        0 <= j && k == j + 1 && k < list.len() ==> list[j].end == list[k].start
}

/// Access units are in range and in order: each starts at its first
/// NAL's padding, takes an SEI inside itself, and ends where the next
/// starts or the stream ends.
pub proof fn lemma_units(s: Seq<u8>, codec: Codec)
    ensures
        units_tiled(units(s, codec), s.len() as int),
{
    let nals = annexb::split(s);
    let open = openings(codec, nals);
    let n = nals.len() as int;
    marks::lemma_marks(is_opening(codec, nals), n);
    let found = units(s, codec);
    assert forall|k: int| 0 <= k < found.len() implies 0 <= (#[trigger] found[k]).start
        < found[k].end <= s.len() && found[k].start <= found[k].insert_at <= found[k].end by {
        let i = open[k];
        let j = marks::next_of(open, k, n);
        let f = first_slice(codec, nals, i, j);
        assert(0 <= i < n);
        assert(i < j <= n);
        lemma_first_slice(codec, nals, i, j);
        annexb::lemma_nal(s, i);
        if j < n {
            annexb_laws::lemma_nals_in_order(s, i, j);
            annexb::lemma_nal(s, j);
        }
        if f < j {
            annexb::lemma_nal(s, f);
            if i < f {
                annexb_laws::lemma_nals_in_order(s, i, f);
            }
            if j < n {
                annexb_laws::lemma_nals_in_order(s, f, j);
            }
        }
    }
}

/// The NALs that open an access unit.
fn find_openings(nals: &Vec<NalRef<'_>>, codec: Codec) -> (out: Vec<usize>)
    ensures
        marks::as_ints(out@) == openings(
            codec,
            Seq::new(nals@.len(), |k: int| nals@[k].bytes@),
        ),
{
    let ghost units = Seq::new(nals@.len(), |k: int| nals@[k].bytes@);
    let mut out: Vec<usize> = Vec::new();
    let mut any_typed = false;
    let mut seen_slice = false;
    let mut i: usize = 0;
    assert(marks::as_ints(out@) =~= marks::marks(is_opening(codec, units), 0));
    while i < nals.len()
        invariant
            i <= nals.len(),
            units == Seq::new(nals@.len(), |k: int| nals@[k].bytes@),
            !any_typed == (forall|j: int|
                0 <= j < i ==> type_of(codec, #[trigger] units[j]) is None),
            seen_slice == slice_pending(codec, units, i as int),
            marks::as_ints(out@) == marks::marks(is_opening(codec, units), i as int),
        decreases nals.len() - i,
    {
        let nal: &[u8] = nals[i].bytes;
        let ghost before = out@;
        assert(units[i as int] == nal@);
        let mut opening = false;
        let mut slice = false;
        match codec.nal_type(nal) {
            Some(kind) => {
                slice = codec.is_vcl_type(kind);
                let boundary = if slice {
                    first_slice_of_picture(codec, nal)
                } else {
                    codec.starts_access_unit(kind)
                };
                opening = !any_typed || (boundary && seen_slice);
                any_typed = true;
            },
            None => {},
        }
        assert(opening == is_opening(codec, units)(i as int));
        assert(slice == is_slice(codec, units[i as int]));
        if opening {
            out.push(i);
            assert(marks::as_ints(out@) =~= marks::as_ints(before).push(i as int));
        }
        seen_slice = slice || (!opening && seen_slice);
        i += 1;
    }
    out
}

/// The access unit made of the NALs from `i` to `j`.
fn build_unit(annexb: &[u8], nals: &Vec<NalRef<'_>>, codec: Codec, i: usize, j: usize) -> (unit:
    AccessUnit)
    requires
        annexb::places(nals@) == annexb::scan(annexb@),
        i < j <= nals@.len(),
    ensures
        unit@ == unit_between(annexb@, codec, i as int, j as int),
{
    let ghost units = annexb::split(annexb@);
    let ghost placed = annexb::scan(annexb@);
    assert(placed.len() == nals@.len());
    let end: usize = if j < nals.len() {
        assert(placed[j as int] == nals@[j as int]@);
        nals[j].pad
    } else {
        annexb.len()
    };
    let mut insert_at: usize = end;
    let mut keyframe = false;
    let mut temporal_id_plus1: u8 = 1;
    let mut found = false;
    let mut k: usize = i;
    while k < j
        invariant
            i <= k <= j <= nals@.len(),
            annexb::places(nals@) == annexb::scan(annexb@),
            units == annexb::split(annexb@),
            placed == annexb::scan(annexb@),
            placed.len() == nals@.len(),
            keyframe == (exists|m: int| i <= m < k && is_key_slice(codec, #[trigger] units[m])),
            found ==> first_slice(codec, units, i as int, j as int) < k && insert_at
                == placed[first_slice(codec, units, i as int, j as int)].code
                && temporal_id_plus1 == temporal_id_of(
                codec,
                units[first_slice(codec, units, i as int, j as int)],
            ),
            !found ==> insert_at == end && temporal_id_plus1 == 1 && first_slice(
                codec,
                units,
                i as int,
                j as int,
            ) == first_slice(codec, units, k as int, j as int),
        decreases j - k,
    {
        let nal: NalRef<'_> = nals[k];
        assert(placed[k as int] == nal@);
        assert(units[k as int] == nal.bytes@);
        match codec.nal_type(nal.bytes) {
            Some(kind) => {
                if codec.is_vcl_type(kind) {
                    if !found {
                        found = true;
                        insert_at = nal.code;
                        temporal_id_plus1 = codec.temporal_id_plus1(nal.bytes);
                    }
                    if codec.is_keyframe_type(kind) {
                        assert(is_key_slice(codec, units[k as int]));
                        keyframe = true;
                    }
                }
            },
            None => {},
        }
        k += 1;
    }
    assert(placed[i as int] == nals@[i as int]@);
    AccessUnit { start: nals[i].pad, end, insert_at, keyframe, temporal_id_plus1 }
}

/// The access units of an Annex B stream.
///
/// The boundary rule is the one a writer needs and no more: a new
/// access unit begins at a slice that says it is the first of a
/// picture, and at any parameter set, delimiter or SEI that turns up
/// after a slice. That is enough to place an SEI correctly in every
/// stream an encoder writes, which is what section 7.4.1.2 asks for.
pub fn access_units(annexb: &[u8], codec: Codec) -> (out: Vec<AccessUnit>)
    ensures
        unit_places(out@) == units(annexb@, codec),
        units_tiled(unit_places(out@), annexb@.len() as int),
{
    let nals: Vec<NalRef<'_>> = scan_nals(annexb);
    let ghost split = annexb::split(annexb@);
    proof {
        assert(annexb::scan(annexb@).len() == nals@.len());
        let bytes = Seq::new(nals@.len(), |k: int| nals@[k].bytes@);
        assert forall|k: int| 0 <= k < nals@.len() implies bytes[k] == split[k] by {
            assert(annexb::scan(annexb@)[k] == nals@[k]@);
        }
        assert(bytes =~= split);
    }
    let found: Vec<usize> = find_openings(&nals, codec);
    let ghost open = openings(codec, split);
    let mut out: Vec<AccessUnit> = Vec::with_capacity(found.len());
    let mut k: usize = 0;
    proof {
        marks::lemma_marks(is_opening(codec, split), split.len() as int);
        assert(open.len() == found@.len());
        assert forall|m: int| 0 <= m < found@.len() implies #[trigger] found@[m] == open[m] by {
            assert(marks::as_ints(found@)[m] == found@[m]);
        }
    }
    while k < found.len()
        invariant
            k <= found.len(),
            annexb::places(nals@) == annexb::scan(annexb@),
            split == annexb::split(annexb@),
            split.len() == nals@.len(),
            open == openings(codec, split),
            open.len() == found@.len(),
            forall|m: int| 0 <= m < found@.len() ==> #[trigger] found@[m] == open[m],
            forall|m: int| 0 <= m < open.len() ==> 0 <= #[trigger] open[m] < split.len(),
            forall|a: int, b: int| 0 <= a < b < open.len() ==> open[a] < open[b],
            out@.len() == k,
            forall|m: int|
                0 <= m < k ==> #[trigger] out@[m]@ == unit_between(
                    annexb@,
                    codec,
                    open[m],
                    marks::next_of(open, m, split.len() as int),
                ),
        decreases found.len() - k,
    {
        let stop: usize = if k + 1 < found.len() {
            found[k + 1]
        } else {
            nals.len()
        };
        assert(found@[k as int] == open[k as int]);
        assert(stop == marks::next_of(open, k as int, split.len() as int));
        let unit: AccessUnit = build_unit(annexb, &nals, codec, found[k], stop);
        out.push(unit);
        k += 1;
    }
    proof {
        assert(unit_places(out@) =~= units(annexb@, codec));
        lemma_units(annexb@, codec);
    }
    out
}

} // verus!
