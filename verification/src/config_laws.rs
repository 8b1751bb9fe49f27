//! What holds of framings and records as a whole: a payload put into a
//! packet comes back out of it in every framing, reframing loses none,
//! and an `avcC` record gives back the parameter sets it was built from.

use vstd::prelude::*;
use crate::annexb;
use crate::annexb_laws;
use crate::bytes;
use crate::config;
use crate::config::Framing;
use crate::h26x;
use crate::h26x::{Codec, H264_PPS, H264_SPS};
use crate::marks;
use crate::obu;
use crate::obu_laws;
use crate::sei;
use crate::sei_laws;
use crate::sps;
use crate::Error;

verus! {

/// An SEI header with a temporal id of a stream's own is clean.
proof fn lemma_unit_header_is_clean(packet: Seq<u8>, codec: Codec)
    ensures
        h26x::sei_header_of(codec, config::unit_id(packet, codec)).last() != 0,
{
    let found = h26x::units(packet, codec);
    sei_laws::lemma_header_is_clean(codec, Seq::empty());
    if found.len() > 0 {
        let nals = annexb::split(packet);
        let open = h26x::openings(codec, nals);
        let j = marks::next_of(open, 0, nals.len() as int);
        let f = h26x::first_slice(codec, nals, open[0], j);
        sei_laws::lemma_header_is_clean(codec, nals[f]);
    }
}

/// Whether a payload put into a packet can come back out: it is not too
/// large for the size fields it needs, and in AV1 its place is not
/// behind a last OBU that carries no size and would swallow it.
pub open spec fn takes(
    framing: Framing,
    packet: Seq<u8>,
    payload: Seq<u8>,
    metadata_type: nat,
) -> bool {
    match framing {
        Framing::Av1 => {
            &&& metadata_type < obu::leb_capacity(8)
            &&& obu::metadata_body(metadata_type, payload).len() < obu::leb_capacity(8)
            &&& packet.len() + obu::metadata_obu(metadata_type, payload).len() <= usize::MAX
            &&& obu::units(packet) matches Ok(found) ==> found.len() > 0 ==> found[0].insert_at
                < packet.len() || obu::has_size(packet, obu::obus(packet)->Ok_0.last().start)
        },
        _ => payload.len() <= u32::MAX,
    }
}

/// What goes in comes back out, in every framing: the payloads of a
/// packet that took one are those it held, in order, with the new one
/// among them and nothing else.
pub proof fn what_goes_in_comes_back_out(
    framing: Framing,
    packet: Seq<u8>,
    payload: Seq<u8>,
    uuid: Seq<u8>,
    metadata_type: nat,
)
    requires
        config::inserted(framing, packet, payload, metadata_type) is Ok,
        bytes::opens_with(payload, uuid),
        takes(framing, packet, payload, metadata_type),
    ensures
        ({
            let held = config::payloads_of(framing, packet, uuid, metadata_type);
            let out = config::inserted(framing, packet, payload, metadata_type)->Ok_0;
            exists|i: int|
                0 <= i <= held.len() && config::payloads_of(framing, out, uuid, metadata_type)
                    == #[trigger] held.insert(i, payload)
        }),
{
    let held = config::payloads_of(framing, packet, uuid, metadata_type);
    let out = config::inserted(framing, packet, payload, metadata_type)->Ok_0;
    let now = config::payloads_of(framing, out, uuid, metadata_type);
    match framing {
        Framing::AnnexB(codec) => {
            let id = config::unit_id(packet, codec);
            lemma_unit_header_is_clean(packet, codec);
            sei_laws::inserted_payload_is_found(packet, payload, codec, id, uuid);
            let at = h26x::units(packet, codec)[0].insert_at;
            let before = sei::gathered(annexb::split(packet.take(at)), codec, uuid);
            assert(now =~= held.insert(before.len() as int, payload));
        },
        Framing::LengthPrefixed { codec, length_size } => {
            let n = length_size as int;
            let nals = annexb::sample_nals(packet, n)->Ok_0;
            let id = config::slice_id(nals, codec);
            sei_laws::inserted_payload_is_found_in_sample(packet, payload, n, codec, id, uuid);
            let k = h26x::first_slice(codec, nals, 0, nals.len() as int);
            let before = sei::gathered(nals.take(k), codec, uuid);
            assert(now =~= held.insert(before.len() as int, payload));
        },
        Framing::Av1 => {
            obu_laws::inserted_payload_is_found(packet, metadata_type, payload, uuid);
            let at = obu::units(packet)->Ok_0[0].insert_at;
            let before = obu::opened_by(obu::metadata_found(packet.take(at), metadata_type), uuid);
            assert(now =~= held.insert(before.len() as int, payload));
        },
    }
}

/// Reframing loses no payload: a packet spelled another way holds what
/// the Annex B access unit held.
pub proof fn reframing_keeps_payloads(
    codec: Codec,
    length_size: usize,
    annexb: Seq<u8>,
    uuid: Seq<u8>,
    metadata_type: nat,
)
    requires
        config::reframed(Framing::LengthPrefixed { codec, length_size }, annexb) is Ok,
    ensures
        ({
            let framing = Framing::LengthPrefixed { codec, length_size };
            config::payloads_of(
                framing,
                config::reframed(framing, annexb)->Ok_0,
                uuid,
                metadata_type,
            ) == config::payloads_of(Framing::AnnexB(codec), annexb, uuid, metadata_type)
        }),
{
    annexb_laws::framings_round_trip(annexb, length_size as int);
}

/// Sets that fit their lengths are read back from a record they stand
/// in.
proof fn lemma_sets_of_prefixed(before: Seq<u8>, sets: Seq<Seq<u8>>, behind: Seq<u8>)
    requires
        forall|i: int| 0 <= i < sets.len() ==> (#[trigger] sets[i]).len() <= 0xffff,
    ensures
        config::sets_at(
            before + annexb::prefixed(sets, 2) + behind,
            before.len() as int,
            sets.len(),
        ) == Ok::<(Seq<Seq<u8>>, int), Error>(
            (sets, (before.len() + annexb::prefixed(sets, 2).len()) as int),
        ),
    decreases sets.len(),
{
    let s = before + annexb::prefixed(sets, 2) + behind;
    let at = before.len() as int;
    if sets.len() == 0 {
        assert(sets =~= Seq::empty());
    } else {
        let set = sets[0];
        let rest = sets.drop_first();
        let head = bytes::be_bytes(set.len(), 2);
        assert(bytes::capacity(2) == 0x10000) by {
            reveal_with_fuel(bytes::capacity, 3);
        }
        bytes::lemma_be_round_trip(set.len(), 2);
        lemma_sets_of_prefixed(before + head + set, rest, behind);
        assert(before + head + set + annexb::prefixed(rest, 2) + behind =~= s);
        assert(s.subrange(at, at + 2) =~= head);
        assert(s.subrange(at + 2, at + 2 + set.len()) =~= set);
        assert(seq![set] + rest =~= sets);
    }
}

/// A record gives back the parameter sets it was built from, SPS and
/// then PPS, whatever extension its profile adds.
pub proof fn a_record_gives_back_its_sets(sps: Seq<Seq<u8>>, pps: Seq<Seq<u8>>)
    requires
        config::avcc_of(sps, pps) is Ok,
    ensures
        config::record_sets(config::avcc_of(sps, pps)->Ok_0) == Ok::<Seq<Seq<u8>>, Error>(
            sps + pps,
        ),
        config::extradata_of(config::avcc_of(sps, pps)->Ok_0) == Ok::<Seq<u8>, Error>(
            annexb::start_coded(sps + pps),
        ),
{
    let extension = config::extension_of(sps[0])->Ok_0;
    let avcc = config::avcc_of(sps, pps)->Ok_0;
    let head = seq![1u8, sps[0][1], sps[0][2], sps[0][3], 0xffu8, (0xe0 + sps.len()) as u8];
    let count = seq![pps.len() as u8];
    config::lemma_first_long(sps, 0);
    config::lemma_first_long(pps, 0);
    let first = annexb::prefixed(sps, 2);
    let second = annexb::prefixed(pps, 2);
    let n = sps.len() as u8;
    assert((0xe0 + n) as u8 & 0x1f == n) by (bit_vector)
        requires
            n <= 31,
    ;
    assert(avcc[5] & 0x1f == n);
    assert(avcc =~= head + first + (count + second + extension));
    lemma_sets_of_prefixed(head, sps, count + second + extension);
    let at = 6 + first.len();
    assert(avcc[at as int] == pps.len() as u8);
    assert(avcc =~= (head + first + count) + second + extension);
    lemma_sets_of_prefixed(head + first + count, pps, extension);
}

/// What a built record says: lengths of four bytes, the profile and
/// level of the first SPS, and length-prefixed framing for its stream.
pub proof fn a_record_says_what_it_was_built_from(sps: Seq<Seq<u8>>, pps: Seq<Seq<u8>>)
    requires
        config::avcc_of(sps, pps) is Ok,
    ensures
        ({
            let avcc = config::avcc_of(sps, pps)->Ok_0;
            &&& config::width_at(avcc, 4) == 4
            &&& sps::profile_level_of(avcc) == Some((sps[0][1], sps[0][3]))
            &&& config::framing_named("h264"@, avcc) == Ok::<Framing, Error>(
                Framing::LengthPrefixed { codec: Codec::H264, length_size: 4 },
            )
        }),
{
    let avcc = config::avcc_of(sps, pps)->Ok_0;
    let head = seq![1u8, sps[0][1], sps[0][2], sps[0][3], 0xffu8, (0xe0 + sps.len()) as u8];
    assert(0xffu8 & 0x3 == 3) by (bit_vector);
    assert(config::record_of(sps, pps).len() >= 7);
    assert forall|i: int| 0 <= i < 6 implies avcc[i] == head[i] by {}
    assert(avcc[0] == 1 && avcc[1] == sps[0][1] && avcc[3] == sps[0][3] && avcc[4] == 0xff);
}

/// NAL units that are all of one type are all there are of it.
proof fn lemma_of_type_all(nals: Seq<Seq<u8>>, kind: u8)
    requires
        forall|i: int|
            0 <= i < nals.len() ==> h26x::type_of(Codec::H264, #[trigger] nals[i]) == Some(kind),
    ensures
        config::of_type(nals, kind) == nals,
    decreases nals.len(),
{
    if nals.len() > 0 {
        lemma_of_type_all(nals.drop_last(), kind);
        assert(nals.drop_last().push(nals.last()) =~= nals);
    } else {
        assert(config::of_type(nals, kind) =~= nals);
    }
}

/// NAL units none of which is of a type hold none of it.
proof fn lemma_of_type_none(nals: Seq<Seq<u8>>, kind: u8)
    requires
        forall|i: int|
            0 <= i < nals.len() ==> h26x::type_of(Codec::H264, #[trigger] nals[i]) != Some(kind),
    ensures
        config::of_type(nals, kind) == Seq::<Seq<u8>>::empty(),
    decreases nals.len(),
{
    if nals.len() > 0 {
        lemma_of_type_none(nals.drop_last(), kind);
    }
}

/// The NAL units of a type in two runs are those in each.
pub proof fn lemma_of_type_add(a: Seq<Seq<u8>>, b: Seq<Seq<u8>>, kind: u8)
    ensures
        config::of_type(a + b, kind) == config::of_type(a, kind) + config::of_type(b, kind),
    decreases b.len(),
{
    if b.len() == 0 {
        assert(a + b =~= a);
        assert(config::of_type(a, kind) + config::of_type(b, kind) =~= config::of_type(a, kind));
    } else {
        lemma_of_type_add(a, b.drop_last(), kind);
        assert((a + b).drop_last() =~= a + b.drop_last());
        assert(config::of_type(a + b, kind) =~= config::of_type(a, kind) + config::of_type(
            b,
            kind,
        ));
    }
}

/// Parameter sets make the whole way round: into a record, out of it as
/// Annex B extradata, and apart into the same SPS and PPS. This is for
/// sets that are what they are said to be, and clean.
pub proof fn parameter_sets_round_trip(sps: Seq<Seq<u8>>, pps: Seq<Seq<u8>>)
    requires
        config::avcc_of(sps, pps) is Ok,
        forall|i: int|
            0 <= i < sps.len() ==> annexb::clean(#[trigger] sps[i]) && h26x::type_of(
                Codec::H264,
                sps[i],
            ) == Some(H264_SPS),
        forall|i: int|
            0 <= i < pps.len() ==> annexb::clean(#[trigger] pps[i]) && h26x::type_of(
                Codec::H264,
                pps[i],
            ) == Some(H264_PPS),
    ensures
        config::extradata_of(config::avcc_of(sps, pps)->Ok_0) matches Ok(extradata) && {
            &&& config::of_type(annexb::split(extradata), H264_SPS) == sps
            &&& config::of_type(annexb::split(extradata), H264_PPS) == pps
        },
{
    let sets = sps + pps;
    a_record_gives_back_its_sets(sps, pps);
    assert forall|i: int| 0 <= i < sets.len() implies annexb::clean(#[trigger] sets[i]) by {
        if i < sps.len() {
            assert(sets[i] == sps[i]);
        } else {
            assert(sets[i] == pps[i - sps.len()]);
        }
    }
    annexb_laws::split_undoes_start_codes(sets);
    lemma_of_type_add(sps, pps, H264_SPS);
    lemma_of_type_add(sps, pps, H264_PPS);
    lemma_of_type_all(sps, H264_SPS);
    lemma_of_type_all(pps, H264_PPS);
    lemma_of_type_none(sps, H264_PPS);
    lemma_of_type_none(pps, H264_SPS);
    assert(sps + Seq::<Seq<u8>>::empty() =~= sps);
    assert(Seq::<Seq<u8>>::empty() + pps =~= pps);
}

} // verus!
