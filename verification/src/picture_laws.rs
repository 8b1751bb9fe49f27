//! What NAL headers say and where pictures begin, in bytes.

use vstd::prelude::*;
use crate::annexb;
use crate::annexb_laws;
use crate::bytes;
use crate::h26x;
use crate::h26x::{AccessUnit, Codec};
use crate::marks;
use crate::sei_laws;
use crate::weave_laws;

verus! {

/// The bits of a byte that a NAL header is made of, as arithmetic.
proof fn lemma_bits(b: u8)
    ensures
        b & 0x1f == b % 32,
        b >> 1 & 0x3f == b / 2 % 64,
        b & 0x07 == b % 8,
        (b & 0x80 != 0) == (b >= 0x80),
{
    assert(b & 0x1f == b % 32) by (bit_vector);
    assert(b >> 1 & 0x3f == b / 2 % 64) by (bit_vector);
    assert(b & 0x07 == b % 8) by (bit_vector);
    assert((b & 0x80 != 0) == (b >= 0x80)) by (bit_vector);
}

/// Where a NAL unit's type is: in H.264 the remainder of its one header
/// byte by 32, in HEVC half of the first of its two, less what is above
/// six bits. A NAL unit shorter than its header has none.
pub proof fn types_in_bytes(nal: Seq<u8>)
    ensures
        h26x::type_of(Codec::H264, nal) == if nal.len() >= 1 {
            Some(nal[0] % 32)
        } else {
            None
        },
        h26x::type_of(Codec::H265, nal) == if nal.len() >= 2 {
            Some((nal[0] / 2 % 64) as u8)
        } else {
            None
        },
        h26x::header_len_of(Codec::H264) == 1,
        h26x::header_len_of(Codec::H265) == 2,
{
    lemma_bits(nal[0]);
}

/// The types that have a name, by number.
pub proof fn named_types_by_number()
    ensures
        h26x::H264_SPS == 7,
        h26x::H264_PPS == 8,
        h26x::H264_SEI == 6,
        h26x::H265_PREFIX_SEI == 39,
        h26x::H265_SUFFIX_SEI == 40,
{
}

/// Which types are which, by number.
pub proof fn types_by_number(kind: u8)
    ensures
        h26x::vcl_type(Codec::H264, kind) <==> 1 <= kind <= 5,
        h26x::vcl_type(Codec::H265, kind) <==> kind <= 31,
        h26x::keyframe_type(Codec::H264, kind) <==> kind == 5,
        h26x::keyframe_type(Codec::H265, kind) <==> 16 <= kind <= 23,
        h26x::opening_type(Codec::H264, kind) <==> 6 <= kind <= 9 || 13 <= kind <= 18,
        h26x::opening_type(Codec::H265, kind) <==> 32 <= kind <= 35 || 39 <= kind <= 47,
{
}

/// What a NAL unit is, in bytes: a slice, a slice of a random access
/// point, a prefix SEI; whether its first bit behind the header is set,
/// which a byte of at least 128 there is; and its temporal id.
pub proof fn nal_units_by_their_bytes(nal: Seq<u8>)
    ensures
        h26x::is_slice(Codec::H264, nal) <==> nal.len() >= 1 && 1 <= nal[0] % 32 <= 5,
        h26x::is_slice(Codec::H265, nal) <==> nal.len() >= 2 && nal[0] / 2 % 64 <= 31,
        h26x::is_key_slice(Codec::H264, nal) <==> nal.len() >= 1 && nal[0] % 32 == 5,
        h26x::is_key_slice(Codec::H265, nal) <==> nal.len() >= 2 && 16 <= nal[0] / 2 % 64 <= 23,
        h26x::is_sei(Codec::H264, nal) <==> nal.len() >= 1 && nal[0] % 32 == 6,
        h26x::is_sei(Codec::H265, nal) <==> nal.len() >= 2 && nal[0] / 2 % 64 == 39,
        h26x::first_bit_set(Codec::H264, nal) <==> nal.len() >= 2 && nal[1] >= 0x80,
        h26x::first_bit_set(Codec::H265, nal) <==> nal.len() >= 3 && nal[2] >= 0x80,
        h26x::temporal_id_of(Codec::H264, nal) == 1,
        nal.len() < 2 || nal[1] % 8 == 0 ==> h26x::temporal_id_of(Codec::H265, nal) == 1,
        nal.len() >= 2 && nal[1] % 8 != 0 ==> h26x::temporal_id_of(Codec::H265, nal) == nal[1] % 8,
{
    types_in_bytes(nal);
    lemma_bits(nal[0]);
    lemma_bits(nal[1]);
    lemma_bits(nal[2]);
}

/// Which NAL units behind a slice break from its picture, in bytes: a
/// slice whose first bit behind the header is set, and of the others the
/// types that come before a picture.
pub proof fn breaks_in_bytes(nal: Seq<u8>)
    ensures
        h26x::breaks(Codec::H264, nal) <==> nal.len() >= 1 && {
            let kind = nal[0] % 32;
            ||| 1 <= kind <= 5 && nal.len() >= 2 && nal[1] >= 0x80
            ||| 6 <= kind <= 9
            ||| 13 <= kind <= 18
        },
        h26x::breaks(Codec::H265, nal) <==> nal.len() >= 2 && {
            let kind = nal[0] / 2 % 64;
            ||| kind <= 31 && nal.len() >= 3 && nal[2] >= 0x80
            ||| 32 <= kind <= 35
            ||| 39 <= kind <= 47
        },
{
    nal_units_by_their_bytes(nal);
    types_in_bytes(nal);
}

/// The header of a prefix SEI, in bytes: `06` in H.264; in HEVC `4e` and
/// then the temporal id, of three bits and 1 where none is given.
pub proof fn sei_headers_in_bytes(temporal_id_plus1: u8)
    ensures
        h26x::sei_header_of(Codec::H264, temporal_id_plus1) == seq![6u8],
        temporal_id_plus1 == 0 ==> h26x::sei_header_of(Codec::H265, temporal_id_plus1) == seq![
            0x4eu8,
            1u8,
        ],
        temporal_id_plus1 > 0 ==> h26x::sei_header_of(Codec::H265, temporal_id_plus1) == seq![
            0x4eu8,
            (temporal_id_plus1 % 8) as u8,
        ],
{
    lemma_bits(temporal_id_plus1);
    lemma_bits(1);
}

/// The places of the NAL units of a stream of two.
proof fn lemma_two_places(a: Seq<u8>, b: Seq<u8>)
    requires
        annexb::clean(a),
        annexb::clean(b),
        a.len() > 0,
    ensures
        ({
            let s = annexb::start_coded(seq![a, b]);
            let placed = annexb::scan(s);
            &&& s.len() == 8 + a.len() + b.len()
            &&& annexb::split(s) == seq![a, b]
            &&& placed.len() == 2
            &&& placed[0].pad == 0 && placed[0].code == 0
            &&& placed[1].pad == 4 + a.len() && placed[1].code == 4 + a.len()
        }),
{
    let x = annexb::START_CODE@ + a;
    let y = annexb::START_CODE@ + b;
    let s = annexb::start_coded(seq![a, b]);
    reveal_with_fuel(annexb::start_coded, 3);
    assert(seq![a, b].drop_first() =~= seq![b]);
    assert(seq![b].drop_first() =~= Seq::empty());
    assert(s =~= x + y);
    annexb_laws::split_undoes_start_codes(seq![a, b]);
    assert(annexb_laws::opens_at_code(y)) by {
        assert(y[0] == 0 && y[1] == 0 && y[2] == 0 && y[3] == 1);
        assert(annexb::code_at(y, 1));
    }
    annexb_laws::lemma_codes_concat(x, y);
    weave_laws::lemma_codes_one(a);
    weave_laws::lemma_codes_one(b);
    let n = x.len() as int;
    assert(annexb::codes(s) =~= seq![1int, n + 1]);
    assert(s[0] == 0);
    bytes::lemma_zero_run_is(s, 1, 0);
    assert(s[n - 1] == a.last());
    assert(s[n] == 0);
    bytes::lemma_zero_run_is(s, n + 1, n);
}

/// Two NAL units are one access unit or two: two where the first is a
/// slice and the second breaks from its picture, and one that spans both
/// otherwise. All of it in bytes, for both codecs.
#[verifier::rlimit(40)]
pub proof fn two_nal_units_are_one_picture_or_two(a: Seq<u8>, b: Seq<u8>, codec: Codec)
    requires
        annexb::clean(a),
        annexb::clean(b),
        a.len() >= if codec == Codec::H264 {
            1nat
        } else {
            2
        },
    ensures
        ({
            let s = annexb::start_coded(seq![a, b]);
            let found = h26x::units(s, codec);
            let slice = match codec {
                Codec::H264 => 1 <= a[0] % 32 <= 5,
                Codec::H265 => a[0] / 2 % 64 <= 31,
            };
            let opens = match codec {
                Codec::H264 => b.len() >= 1 && {
                    ||| 1 <= b[0] % 32 <= 5 && b.len() >= 2 && b[1] >= 0x80
                    ||| 6 <= b[0] % 32 <= 9
                    ||| 13 <= b[0] % 32 <= 18
                },
                Codec::H265 => b.len() >= 2 && {
                    ||| b[0] / 2 % 64 <= 31 && b.len() >= 3 && b[2] >= 0x80
                    ||| 32 <= b[0] / 2 % 64 <= 35
                    ||| 39 <= b[0] / 2 % 64 <= 47
                },
            };
            &&& slice && opens ==> found.len() == 2 && found[0].start == 0 && found[0].end == 4
                + a.len() && found[1].start == 4 + a.len() && found[1].end == s.len()
            &&& !(slice && opens) ==> found.len() == 1 && found[0].start == 0 && found[0].end
                == s.len()
            &&& slice ==> found[0].insert_at == 0
        }),
{
    let s = annexb::start_coded(seq![a, b]);
    let nals = seq![a, b];
    let found = h26x::units(s, codec);
    let f = h26x::is_opening(codec, nals);
    lemma_two_places(a, b);
    types_in_bytes(a);
    nal_units_by_their_bytes(a);
    breaks_in_bytes(b);
    assert(h26x::opens(codec, nals, 0));
    assert(f(0));
    reveal_with_fuel(h26x::opens, 3);
    reveal_with_fuel(h26x::slice_pending, 3);
    assert(nals[0] == a && nals[1] == b);
    assert(h26x::slice_pending(codec, nals, 1) == h26x::is_slice(codec, a));
    assert(h26x::opens(codec, nals, 1) == (h26x::breaks(codec, b) && h26x::is_slice(codec, a)));
    assert(f(1) == h26x::opens(codec, nals, 1));
    reveal_with_fuel(marks::marks, 3);
    let open = h26x::openings(codec, nals);
    if f(1) {
        assert(open =~= seq![0int, 1]);
        assert(found.len() == 2);
        reveal_with_fuel(h26x::first_slice, 3);
        assert(found[0] == h26x::unit_between(s, codec, 0, 1));
        assert(found[1] == h26x::unit_between(s, codec, 1, 2));
    } else {
        assert(open =~= seq![0int]);
        assert(found.len() == 1);
        reveal_with_fuel(h26x::first_slice, 3);
        assert(found[0] == h26x::unit_between(s, codec, 0, 2));
    }
}

/// What an access unit of one NAL unit says, in bytes: it is a random
/// access point where the slice type is one, takes an SEI before a slice
/// and behind anything else, and has the temporal id of its slice.
pub proof fn one_nal_unit_is_one_access_unit(a: Seq<u8>, codec: Codec)
    requires
        annexb::clean(a),
        a.len() >= if codec == Codec::H264 {
            1nat
        } else {
            2
        },
    ensures
        ({
            let s = seq![0u8, 0, 0, 1] + a;
            let found = h26x::units(s, codec);
            &&& found.len() == 1
            &&& found[0].start == 0 && found[0].end == 4 + a.len()
            &&& codec == Codec::H264 ==> {
                &&& found[0].keyframe <==> a[0] % 32 == 5
                &&& found[0].insert_at == if 1 <= a[0] % 32 <= 5 {
                    0
                } else {
                    4 + a.len() as int
                }
                &&& found[0].temporal_id_plus1 == 1
            }
            &&& codec == Codec::H265 ==> {
                &&& found[0].keyframe <==> 16 <= a[0] / 2 % 64 <= 23
                &&& found[0].insert_at == if a[0] / 2 % 64 <= 31 {
                    0
                } else {
                    4 + a.len() as int
                }
                &&& found[0].temporal_id_plus1 == if a[0] / 2 % 64 <= 31 && a[1] % 8 != 0 {
                    a[1] % 8
                } else {
                    1
                }
            }
        }),
{
    let s = seq![0u8, 0, 0, 1] + a;
    let nals = seq![a];
    let found = h26x::units(s, codec);
    let f = h26x::is_opening(codec, nals);
    assert(annexb::START_CODE@ + a =~= s);
    annexb_laws::lemma_split_one(a);
    weave_laws::lemma_codes_one(a);
    assert(s[0] == 0);
    bytes::lemma_zero_run_is(s, 1, 0);
    types_in_bytes(a);
    nal_units_by_their_bytes(a);
    assert(f(0));
    reveal_with_fuel(marks::marks, 2);
    assert(h26x::openings(codec, nals) =~= seq![0int]);
    reveal_with_fuel(h26x::first_slice, 2);
    assert(found[0] == h26x::unit_between(s, codec, 0, 1));
    assert(annexb::scan(s)[0].pad == 0 && annexb::scan(s)[0].code == 0);
    assert(found[0].keyframe == h26x::is_key_slice(codec, a)) by {
        assert(nals[0] == a);
    }
}

/// Whether NAL unit `i` lies in access unit `k`, by where they begin.
pub open spec fn lies_in(s: Seq<u8>, codec: Codec, i: int, k: int) -> bool {
    &&& 0 <= i < annexb::scan(s).len()
    &&& h26x::units(s, codec)[k].start <= annexb::scan(s)[i].pad < h26x::units(s, codec)[k].end
}

/// NAL units begin in order.
proof fn lemma_pads(s: Seq<u8>, i: int, j: int)
    requires
        0 <= i < j < annexb::scan(s).len(),
    ensures
        annexb::scan(s)[i].pad < annexb::scan(s)[j].pad,
{
    annexb::lemma_nal(s, i);
    annexb::lemma_nal(s, j);
    annexb_laws::lemma_nals_in_order(s, i, j);
}

/// A NAL unit lies in the access unit whose opening comes last before it.
proof fn lemma_lies_in(s: Seq<u8>, codec: Codec, i: int, k: int)
    requires
        0 <= k < h26x::units(s, codec).len(),
        0 <= i < annexb::scan(s).len(),
    ensures
        ({
            let nals = annexb::split(s);
            let open = h26x::openings(codec, nals);
            let j = marks::next_of(open, k, nals.len() as int);
            &&& 0 <= open[k] < j <= nals.len()
            &&& lies_in(s, codec, i, k) <==> open[k] <= i < j
        }),
{
    let nals = annexb::split(s);
    let n = nals.len() as int;
    let open = h26x::openings(codec, nals);
    let j = marks::next_of(open, k, n);
    marks::lemma_marks(h26x::is_opening(codec, nals), n);
    assert(0 <= open[k] < j <= n);
    assert(h26x::units(s, codec)[k] == h26x::unit_between(s, codec, open[k], j));
    annexb::lemma_nal(s, i);
    if i < open[k] {
        lemma_pads(s, i, open[k]);
    } else if i > open[k] {
        lemma_pads(s, open[k], i);
    }
    if j < n {
        if i < j {
            lemma_pads(s, i, j);
        } else if i > j {
            lemma_pads(s, j, i);
        }
    }
}

/// A slice of an access unit is pending at every NAL unit behind it in
/// the access unit.
proof fn lemma_slice_is_pending(codec: Codec, nals: Seq<Seq<u8>>, l: int, m: int)
    requires
        0 <= l < m <= nals.len(),
        h26x::is_slice(codec, nals[l]),
        forall|x: int| l < x < m ==> !h26x::opens(codec, nals, x),
    ensures
        h26x::slice_pending(codec, nals, m),
    decreases m - l,
{
    if l + 1 < m {
        assert(!h26x::opens(codec, nals, m - 1));
        lemma_slice_is_pending(codec, nals, l, m - 1);
    }
}

/// Where access unit `k` of a stream begins and what is in it. The first
/// begins with the first NAL unit that has a type, every other with one
/// that breaks from the picture before it, which has a slice. No NAL unit
/// behind a slice of an access unit breaks from its picture. An access
/// unit takes an SEI at the start code of its first slice and has the
/// temporal id of that slice, or takes it at its end where it has none;
/// and it is a random access point where one of its slices is of one.
#[verifier::rlimit(40)]
pub proof fn access_units_by_their_nal_units(s: Seq<u8>, codec: Codec, k: int)
    requires
        0 <= k < h26x::units(s, codec).len(),
    ensures
        ({
            let unit = h26x::units(s, codec)[k];
            let placed = annexb::scan(s);
            let nals = annexb::split(s);
            &&& 0 <= unit.start < unit.end
            &&& unit.end == if k + 1 < h26x::units(s, codec).len() {
                h26x::units(s, codec)[k + 1].start
            } else {
                s.len() as int
            }
            &&& exists|i: int|
                0 <= i < placed.len() && (#[trigger] placed[i]).pad == unit.start && h26x::type_of(
                    codec,
                    nals[i],
                ) is Some && if k == 0 {
                    forall|j: int| 0 <= j < i ==> h26x::type_of(codec, #[trigger] nals[j]) is None
                } else {
                    h26x::breaks(codec, nals[i])
                }
            &&& k > 0 ==> exists|l: int| #[trigger]
                lies_in(s, codec, l, k - 1) && h26x::is_slice(codec, nals[l])
            &&& forall|l: int, m: int|
                l < m && #[trigger] lies_in(s, codec, l, k) && #[trigger] lies_in(s, codec, m, k)
                    && h26x::is_slice(codec, nals[l]) ==> !h26x::breaks(codec, nals[m])
            &&& unit.keyframe <==> exists|m: int| #[trigger]
                lies_in(s, codec, m, k) && h26x::is_key_slice(codec, nals[m])
            &&& forall|l: int| #[trigger]
                lies_in(s, codec, l, k) && h26x::is_slice(codec, nals[l]) && (forall|m: int|
                    m < l && #[trigger] lies_in(s, codec, m, k) ==> !h26x::is_slice(
                        codec,
                        nals[m],
                    )) ==> unit.insert_at == placed[l].code && unit.temporal_id_plus1
                    == h26x::temporal_id_of(codec, nals[l])
            &&& (forall|l: int| #[trigger]
                lies_in(s, codec, l, k) ==> !h26x::is_slice(codec, nals[l])) ==> unit.insert_at
                == unit.end && unit.temporal_id_plus1 == 1
        }),
{
    let unit = h26x::units(s, codec)[k];
    let placed = annexb::scan(s);
    let nals = annexb::split(s);
    let n = nals.len() as int;
    let open = h26x::openings(codec, nals);
    let is_open = h26x::is_opening(codec, nals);
    let i = open[k];
    let j = marks::next_of(open, k, n);
    marks::lemma_marks(is_open, n);
    assert(0 <= i < j <= n);
    assert(is_open(open[k]));
    assert(h26x::opens(codec, nals, i));
    assert(unit == h26x::unit_between(s, codec, i, j));
    assert forall|x: int| i < x < j implies !h26x::opens(codec, nals, x) by {
        if h26x::opens(codec, nals, x) {
            assert(is_open(x));
            assert(open.contains(x));
            let z = choose|z: int| 0 <= z < open.len() && open[z] == x;
            if z <= k {
                if z < k {
                    assert(open[z] < open[k]);
                }
            } else if z > k + 1 {
                assert(open[k + 1] < open[z]);
            }
        }
    }
    assert(placed[i].pad == unit.start);
    h26x::lemma_units(s, codec);
    if k + 1 < open.len() {
        assert(open[k + 1] < n);
    }
    if k == 0 {
        assert forall|x: int| 0 <= x < i implies h26x::type_of(
            codec,
            #[trigger] nals[x],
        ) is None by {
            lemma_first_opening(codec, nals, x);
        }
    } else {
        assert(open[k - 1] < open[k]);
        assert(is_open(open[k - 1]));
        assert(h26x::type_of(codec, nals[open[k - 1]]) is Some);
        sei_laws::lemma_unit_has_slice(codec, nals, k - 1);
        let l = h26x::first_slice(codec, nals, open[k - 1], open[k]);
        h26x::lemma_first_slice(codec, nals, open[k - 1], open[k]);
        lemma_lies_in(s, codec, l, k - 1);
        assert(lies_in(s, codec, l, k - 1));
    }
    assert forall|l: int, m: int|
        l < m && #[trigger] lies_in(s, codec, l, k) && #[trigger] lies_in(s, codec, m, k)
            && h26x::is_slice(codec, nals[l]) implies !h26x::breaks(codec, nals[m]) by {
        lemma_lies_in(s, codec, l, k);
        lemma_lies_in(s, codec, m, k);
        lemma_slice_is_pending(codec, nals, l, m);
        assert(!h26x::opens(codec, nals, m));
    }
    lemma_keyframe_by_nals(s, codec, k);
    let f = h26x::first_slice(codec, nals, i, j);
    h26x::lemma_first_slice(codec, nals, i, j);
    assert forall|l: int| #[trigger]
        lies_in(s, codec, l, k) && h26x::is_slice(codec, nals[l]) && (forall|m: int|
            m < l && #[trigger] lies_in(s, codec, m, k) ==> !h26x::is_slice(
                codec,
                nals[m],
            )) implies unit.insert_at == placed[l].code && unit.temporal_id_plus1
        == h26x::temporal_id_of(codec, nals[l]) by {
        lemma_lies_in(s, codec, l, k);
        if f < l {
            lemma_lies_in(s, codec, f, k);
            assert(lies_in(s, codec, f, k));
        }
        assert(f == l);
    }
    if forall|l: int| #[trigger] lies_in(s, codec, l, k) ==> !h26x::is_slice(codec, nals[l]) {
        if f < j {
            lemma_lies_in(s, codec, f, k);
            assert(lies_in(s, codec, f, k));
        }
    }
}

proof fn lemma_keyframe_by_nals(s: Seq<u8>, codec: Codec, k: int)
    requires
        0 <= k < h26x::units(s, codec).len(),
    ensures
        h26x::units(s, codec)[k].keyframe <==> exists|m: int| #[trigger]
            lies_in(s, codec, m, k) && h26x::is_key_slice(codec, annexb::split(s)[m]),
{
    let unit = h26x::units(s, codec)[k];
    let nals = annexb::split(s);
    let open = h26x::openings(codec, nals);
    let i = open[k];
    let j = marks::next_of(open, k, nals.len() as int);
    marks::lemma_marks(h26x::is_opening(codec, nals), nals.len() as int);
    assert(unit == h26x::unit_between(s, codec, i, j));
    if unit.keyframe {
        let m = choose|m: int| i <= m < j && h26x::is_key_slice(codec, #[trigger] nals[m]);
        lemma_lies_in(s, codec, m, k);
        assert(lies_in(s, codec, m, k));
    }
    if exists|m: int| #[trigger] lies_in(s, codec, m, k) && h26x::is_key_slice(codec, nals[m]) {
        let m = choose|m: int| #[trigger]
            lies_in(s, codec, m, k) && h26x::is_key_slice(codec, nals[m]);
        lemma_lies_in(s, codec, m, k);
        assert(h26x::is_key_slice(codec, nals[m]));
    }
}

/// No NAL unit before the first opening has a type.
proof fn lemma_first_opening(codec: Codec, nals: Seq<Seq<u8>>, x: int)
    requires
        h26x::openings(codec, nals).len() > 0,
        0 <= x < h26x::openings(codec, nals)[0],
    ensures
        h26x::type_of(codec, nals[x]) is None,
    decreases x,
{
    let open = h26x::openings(codec, nals);
    let f = h26x::is_opening(codec, nals);
    marks::lemma_marks(f, nals.len() as int);
    assert forall|y: int| 0 <= y < x implies h26x::type_of(codec, #[trigger] nals[y]) is None by {
        lemma_first_opening(codec, nals, y);
    }
    if h26x::type_of(codec, nals[x]) is Some {
        assert(f(x));
        assert(open.contains(x));
        let z = choose|z: int| 0 <= z < open.len() && open[z] == x;
        if z > 0 {
            assert(open[0] < open[z]);
        }
    }
}

/// A stream has an access unit exactly where one of its NAL units has a
/// type.
pub proof fn any_typed_nal_unit_makes_an_access_unit(s: Seq<u8>, codec: Codec)
    ensures
        h26x::units(s, codec).len() > 0 <==> exists|i: int|
            0 <= i < annexb::split(s).len() && h26x::type_of(
                codec,
                #[trigger] annexb::split(s)[i],
            ) is Some,
{
    let nals = annexb::split(s);
    let open = h26x::openings(codec, nals);
    let f = h26x::is_opening(codec, nals);
    marks::lemma_marks(f, nals.len() as int);
    if open.len() > 0 {
        assert(f(open[0]));
        assert(h26x::type_of(codec, nals[open[0]]) is Some);
    }
    if exists|i: int| 0 <= i < nals.len() && h26x::type_of(codec, #[trigger] nals[i]) is Some {
        let i = choose|i: int| 0 <= i < nals.len() && h26x::type_of(codec, #[trigger] nals[i]) is Some;
        lemma_some_opening(codec, nals, i);
    }
}

proof fn lemma_some_opening(codec: Codec, nals: Seq<Seq<u8>>, i: int)
    requires
        0 <= i < nals.len(),
        h26x::type_of(codec, nals[i]) is Some,
    ensures
        h26x::openings(codec, nals).len() > 0,
    decreases i,
{
    let f = h26x::is_opening(codec, nals);
    marks::lemma_marks(f, nals.len() as int);
    if forall|j: int| 0 <= j < i ==> h26x::type_of(codec, #[trigger] nals[j]) is None {
        assert(f(i));
        assert(h26x::openings(codec, nals).contains(i));
    } else {
        let j = choose|j: int| 0 <= j < i && h26x::type_of(codec, #[trigger] nals[j]) is Some;
        lemma_some_opening(codec, nals, j);
    }
}

/// An access unit's place is the numbers it is given in.
pub proof fn access_units_are_given_in_their_fields(list: Seq<AccessUnit>, i: int)
    requires
        0 <= i < list.len(),
    ensures
        h26x::unit_places(list).len() == list.len(),
        h26x::unit_places(list)[i].start == list[i].start,
        h26x::unit_places(list)[i].end == list[i].end,
        h26x::unit_places(list)[i].insert_at == list[i].insert_at,
        h26x::unit_places(list)[i].keyframe == list[i].keyframe,
        h26x::unit_places(list)[i].temporal_id_plus1 == list[i].temporal_id_plus1,
{
}

} // verus!
