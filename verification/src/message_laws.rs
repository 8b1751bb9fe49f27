//! What SEI messages are, in bytes, and which of them are whose.

use vstd::prelude::*;
use crate::annexb;
use crate::annexb_laws;
use crate::byte_laws;
use crate::bytes;
use crate::ep;
use crate::h26x;
use crate::h26x::Codec;
use crate::picture_laws;
use crate::sei;
use crate::sei::{Message, SeiMessage};
use crate::sei_laws;
use crate::Error;

verus! {

/// `n` bytes of `ff`.
spec fn ffs(n: nat) -> Seq<u8> {
    Seq::new(n, |i: int| 0xffu8)
}

proof fn lemma_ff_bytes(value: nat)
    ensures
        sei::ff_bytes(value) == ffs(value / 255).push((value % 255) as u8),
    decreases value,
{
    if value >= 255 {
        let less = (value - 255) as nat;
        lemma_ff_bytes(less);
        assert(less / 255 + 1 == value / 255 && less % 255 == value % 255);
        assert(sei::ff_bytes(value) =~= ffs(value / 255).push((value % 255) as u8));
    } else {
        assert(sei::ff_bytes(value) =~= ffs(value / 255).push((value % 255) as u8));
    }
}

/// A number is written as one `ff` for every 255 in it and then one byte
/// of what is left.
pub proof fn numbers_are_written_in_ffs(value: nat)
    ensures
        sei::ff_bytes(value).len() == value / 255 + 1,
        forall|i: int| 0 <= i < value / 255 ==> sei::ff_bytes(value)[i] == 0xff,
        sei::ff_bytes(value)[(value / 255) as int] == value % 255,
{
    lemma_ff_bytes(value);
}

/// A number is read as 255 for every `ff` and then the first byte that is
/// not one, which ends it; bytes of `ff` alone are no number, and one
/// that needs more than 32 bits is none either.
pub proof fn numbers_are_read_in_ffs(data: Seq<u8>, k: int)
    requires
        0 <= k <= data.len(),
        forall|i: int| 0 <= i < k ==> data[i] == 0xff,
        k < data.len() ==> data[k] != 0xff,
    ensures
        k < data.len() ==> sei::ff(data) == Some(((255 * k + data[k]) as nat, (k + 1) as nat)),
        k == data.len() ==> sei::ff(data) is None,
        k < data.len() && 255 * k + data[k] <= 0xffff_ffff ==> sei::ff32(data) == Some(
            ((255 * k + data[k]) as u32, (k + 1) as nat),
        ),
        k == data.len() || 255 * k + data[k] > 0xffff_ffff ==> sei::ff32(data) is None,
    decreases k,
{
    if k > 0 {
        let rest = data.drop_first();
        assert forall|i: int| 0 <= i < k - 1 implies rest[i] == 0xff by {
            assert(rest[i] == data[i + 1]);
        }
        numbers_are_read_in_ffs(rest, k - 1);
    }
}

/// What messages are: a type, a size and that many bytes, and then the
/// next. A message whose size is more than there is ends them, and so
/// does a number that does not end.
pub proof fn messages_in_bytes(kind: u32, size: u32, data: Seq<u8>)
    ensures
        ({
            let all = sei::ff_bytes(kind as nat) + sei::ff_bytes(size as nat) + data;
            &&& size <= data.len() ==> sei::messages(all) == seq![
                Message { payload_type: kind, payload: data.take(size as int) },
            ] + sei::messages(data.skip(size as int))
            &&& size > data.len() ==> sei::messages(all) == Seq::<Message>::empty()
        }),
        (forall|i: int| 0 <= i < data.len() ==> data[i] == 0xff) ==> sei::messages(data) == Seq::<
            Message,
        >::empty(),
        (forall|i: int| 0 <= i < data.len() ==> data[i] == 0xff) ==> sei::messages(
            sei::ff_bytes(kind as nat) + data,
        ) == Seq::<Message>::empty(),
{
    let a = sei::ff_bytes(kind as nat);
    let b = sei::ff_bytes(size as nat);
    let all = a + b + data;
    assert(all =~= a + (b + data));
    sei_laws::lemma_ff_round_trip(kind as nat, b + data);
    assert(all.skip(a.len() as int) =~= b + data);
    sei_laws::lemma_ff_round_trip(size as nat, data);
    if size <= data.len() {
        let from = (a.len() + b.len()) as int;
        assert(all.subrange(from, from + size) =~= data.take(size as int));
        assert(all.skip(from + size) =~= data.skip(size as int));
    }
    if forall|i: int| 0 <= i < data.len() ==> data[i] == 0xff {
        numbers_are_read_in_ffs(data, data.len() as int);
        sei_laws::lemma_ff_round_trip(kind as nat, data);
        assert((a + data).skip(a.len() as int) =~= data);
    }
}

/// A type or a size that is no number of 32 bits ends the messages.
pub proof fn messages_end_at_what_is_no_number(data: Seq<u8>)
    ensures
        sei::ff32(data) is None ==> sei::messages(data) == Seq::<Message>::empty(),
        sei::ff32(data) matches Some((kind, n)) ==> (sei::ff32(data.skip(n as int)) is None
            ==> sei::messages(data) == Seq::<Message>::empty()),
        sei::messages(Seq::empty()) == Seq::<Message>::empty(),
{
}

/// Where the messages of an SEI end: before the `80` that only zeroes
/// follow, or before the zeroes where the byte before them is neither.
pub proof fn messages_end_at_the_stop_bit(data: Seq<u8>, zeroes: nat)
    ensures
        sei::rbsp_messages(data + seq![0x80u8] + Seq::new(zeroes, |i: int| 0u8)) == sei::messages(
            data,
        ),
        data.len() > 0 && data.last() != 0 && data.last() != 0x80 ==> sei::rbsp_messages(
            data + Seq::new(zeroes, |i: int| 0u8),
        ) == sei::messages(data),
        sei::rbsp_messages(Seq::new(zeroes, |i: int| 0u8)) == Seq::<Message>::empty(),
{
    let pad = Seq::new(zeroes, |i: int| 0u8);
    let n = data.len() as int;
    let closed = data + seq![0x80u8] + pad;
    bytes::lemma_zero_run_is(closed, closed.len() as int, n + 1);
    assert(closed.take(n) =~= data);
    let open = data + pad;
    if n > 0 && data.last() != 0 && data.last() != 0x80 {
        bytes::lemma_zero_run_is(open, open.len() as int, n);
        assert(open.take(n) =~= data);
    }
    bytes::lemma_zero_run_is(pad, pad.len() as int, 0);
    assert(pad.take(0) =~= Seq::empty());
}

/// Which NAL units hold messages, in bytes, and where: type 6 in H.264,
/// behind one byte; type 39 in HEVC, behind two; with the escapes off.
pub proof fn sei_nal_units_in_bytes(nal: Seq<u8>)
    ensures
        ({
            let refused = Err::<Seq<Message>, Error>(
                Error::Malformed { what: "the NAL unit is not a prefix SEI", at: 0 },
            );
            &&& sei::nal_messages(nal, Codec::H264) == if nal.len() >= 1 && nal[0] % 32 == 6 {
                Ok(sei::rbsp_messages(ep::unescape(nal.skip(1))))
            } else {
                refused
            }
            &&& sei::nal_messages(nal, Codec::H265) == if nal.len() >= 2 && nal[0] / 2 % 64 == 39 {
                Ok(sei::rbsp_messages(ep::unescape(nal.skip(2))))
            } else {
                refused
            }
        }),
{
    picture_laws::nal_units_by_their_bytes(nal);
}

/// A message as it is written, in bytes: the type and the size as
/// numbers, the payload; the stop byte behind them all; escaped, behind
/// the header of its codec.
pub proof fn written_messages_in_bytes(m: Message, codec: Codec, temporal_id_plus1: u8)
    requires
        m.payload.len() <= u32::MAX,
    ensures
        sei::sei_nal(seq![m], codec, temporal_id_plus1) == h26x::sei_header_of(
            codec,
            temporal_id_plus1,
        ) + ep::escape(
            sei::ff_bytes(m.payload_type as nat) + sei::ff_bytes(m.payload.len()) + m.payload
                + seq![0x80u8],
        ),
        sei::sei_nal(Seq::empty(), codec, temporal_id_plus1) == h26x::sei_header_of(
            codec,
            temporal_id_plus1,
        ) + seq![0x80u8],
{
    reveal_with_fuel(sei::encoded_all, 2);
    assert(seq![m].drop_first() =~= Seq::empty());
    assert(sei::sei_rbsp(seq![m]) =~= sei::ff_bytes(m.payload_type as nat) + sei::ff_bytes(
        m.payload.len(),
    ) + m.payload + seq![0x80u8]);
    let stop = seq![0x80u8];
    assert(sei::sei_rbsp(Seq::empty()) =~= stop);
    ep::escape_changes_only_what_needs_it(stop);
    assert(ep::escape(stop) =~= stop) by {
        assert forall|i: int| !ep::zeroes_then(stop, i, 3) by {}
    }
}

/// An SEI NAL unit of any messages is its header, and then, escaped, the
/// messages one behind another and the stop byte; and a payload of one's
/// own goes out in one message of its own.
pub proof fn written_sei_nal_units(
    list: Seq<Message>,
    payload: Seq<u8>,
    codec: Codec,
    temporal_id_plus1: u8,
)
    ensures
        sei::sei_nal(list, codec, temporal_id_plus1) == h26x::sei_header_of(
            codec,
            temporal_id_plus1,
        ) + ep::escape(sei::encoded_all(list) + seq![0x80u8]),
        sei::user_nal(payload, codec, temporal_id_plus1) == sei::sei_nal(
            seq![Message { payload_type: 5, payload }],
            codec,
            temporal_id_plus1,
        ),
{
    assert(sei::sei_rbsp(list) =~= sei::encoded_all(list) + seq![0x80u8]);
}

/// Messages are written one behind another, each as it is by itself.
pub proof fn messages_are_written_one_behind_another(a: Seq<Message>, b: Seq<Message>)
    ensures
        sei::encoded_all(a + b) == sei::encoded_all(a) + sei::encoded_all(b),
        sei::encoded_all(Seq::empty()) == Seq::<u8>::empty(),
{
    sei::lemma_encoded_add(a, b);
}

/// Whose a message is: of type 5, its payload the 16 bytes of the UUID
/// and then whatever comes. A payload of one's own goes out in one.
pub proof fn messages_by_their_uuid(m: Message, uuid: Seq<u8>, payload: Seq<u8>)
    ensures
        sei::is_ours(m, uuid) ==> m.payload_type == 5 && m.payload == uuid + m.payload.skip(
            uuid.len() as int,
        ),
        m.payload_type == 5 && m.payload == uuid + payload ==> sei::is_ours(m, uuid),
        sei::USER_DATA_UNREGISTERED == 5,
        sei::user_message(payload).payload_type == 5,
        sei::user_message(payload).payload == payload,
{
    byte_laws::bytes_open_with_their_beginning(m.payload, uuid, payload);
}

/// What is chosen from two runs of messages is what is chosen from each.
proof fn lemma_chosen_add(a: Seq<Message>, b: Seq<Message>, uuid: Seq<u8>)
    ensures
        sei::chosen(a + b, uuid) == sei::chosen(a, uuid) + sei::chosen(b, uuid),
    decreases b.len(),
{
    if b.len() == 0 {
        assert(a + b =~= a);
        assert(sei::chosen(a, uuid) + sei::chosen(b, uuid) =~= sei::chosen(a, uuid));
    } else {
        lemma_chosen_add(a, b.drop_last(), uuid);
        assert((a + b).drop_last() =~= a + b.drop_last());
        assert(sei::chosen(a + b, uuid) =~= sei::chosen(a, uuid) + sei::chosen(b, uuid));
    }
}

/// What is found in messages is found in each, in order: the payload of
/// one that is ours, UUID and all, and nothing of one that is not.
pub proof fn payloads_message_by_message(
    a: Seq<Message>,
    m: Message,
    b: Seq<Message>,
    uuid: Seq<u8>,
)
    ensures
        sei::chosen(a + seq![m] + b, uuid) == sei::chosen(a, uuid) + (if sei::is_ours(m, uuid) {
            seq![m.payload]
        } else {
            Seq::empty()
        }) + sei::chosen(b, uuid),
        sei::chosen(Seq::empty(), uuid) == Seq::<Seq<u8>>::empty(),
{
    lemma_chosen_add(a + seq![m], b, uuid);
    lemma_chosen_add(a, seq![m], uuid);
    reveal_with_fuel(sei::chosen, 2);
    assert(seq![m].drop_last() =~= Seq::empty());
    assert(sei::chosen(seq![m], uuid) =~= if sei::is_ours(m, uuid) {
        seq![m.payload]
    } else {
        Seq::empty()
    });
}

/// What is found in NAL units is found in each, in order: the messages
/// that are ours of one that is an SEI, and nothing of one that is not.
pub proof fn payloads_nal_by_nal(
    a: Seq<Seq<u8>>,
    nal: Seq<u8>,
    b: Seq<Seq<u8>>,
    codec: Codec,
    uuid: Seq<u8>,
)
    ensures
        sei::gathered(a + seq![nal] + b, codec, uuid) == sei::gathered(a, codec, uuid) + (
        match sei::nal_messages(nal, codec) {
            Ok(list) => sei::chosen(list, uuid),
            Err(_) => Seq::empty(),
        }) + sei::gathered(b, codec, uuid),
        sei::gathered(Seq::empty(), codec, uuid) == Seq::<Seq<u8>>::empty(),
        sei::carried(nal, codec, uuid) == sei::gathered(seq![nal], codec, uuid),
{
    sei_laws::lemma_gathered_between(a, nal, b, codec, uuid);
    sei_laws::lemma_gathered_between(Seq::empty(), nal, Seq::empty(), codec, uuid);
    assert(Seq::<Seq<u8>>::empty() + seq![nal] + Seq::<Seq<u8>>::empty() =~= seq![nal]);
    assert(Seq::<Seq<u8>>::empty() + sei::carried(nal, codec, uuid) + Seq::<Seq<u8>>::empty()
        =~= sei::carried(nal, codec, uuid));
}

/// Where an SEI goes in a stream: behind a start code of its own, at the
/// place of the first access unit; and a stream without one is refused.
pub proof fn an_sei_goes_in_at_its_place(au: Seq<u8>, nal: Seq<u8>, codec: Codec)
    ensures
        ({
            let found = h26x::units(au, codec);
            &&& found.len() == 0 ==> sei::spliced(au, nal, codec) == Err::<Seq<u8>, Error>(
                Error::Malformed { what: "the bytes hold no access unit", at: 0 },
            )
            &&& found.len() > 0 ==> {
                let at = found[0].insert_at;
                sei::spliced(au, nal, codec) == Ok::<Seq<u8>, Error>(
                    au.take(at) + seq![0u8, 0, 0, 1] + nal + au.skip(at),
                )
            }
        }),
{
    let found = h26x::units(au, codec);
    if found.len() > 0 {
        let at = found[0].insert_at;
        assert(annexb::START_CODE@ =~= seq![0u8, 0, 0, 1]);
    }
}

/// Where an SEI goes in a sample: among its NAL units, behind those
/// before the first slice, or behind them all where there is none. One
/// too long for its length is refused with the offset where it would go,
/// and a sample that does not parse as it is refused.
pub proof fn an_sei_goes_in_before_the_first_slice(
    a: Seq<Seq<u8>>,
    b: Seq<Seq<u8>>,
    nal: Seq<u8>,
    n: int,
    codec: Codec,
)
    requires
        1 <= n <= 4,
        forall|i: int| 0 <= i < a.len() ==> (#[trigger] a[i]).len() < bytes::capacity(n as nat),
        forall|i: int| 0 <= i < b.len() ==> (#[trigger] b[i]).len() < bytes::capacity(n as nat),
        forall|i: int| 0 <= i < a.len() ==> !h26x::is_slice(codec, #[trigger] a[i]),
        b.len() > 0 ==> h26x::is_slice(codec, b[0]),
    ensures
        ({
            let sample = annexb::prefixed(a + b, n as nat);
            sei::sample_spliced(sample, nal, n, codec) == if nal.len() < bytes::capacity(
                n as nat,
            ) {
                Ok::<Seq<u8>, Error>(annexb::prefixed(a + seq![nal] + b, n as nat))
            } else {
                Err(Error::TooLarge { at: annexb::prefixed(a, n as nat).len() as usize })
            }
        }),
{
    let nals = a + b;
    let k = a.len() as int;
    assert forall|i: int| 0 <= i < nals.len() implies (#[trigger] nals[i]).len() < bytes::capacity(
        n as nat,
    ) by {
        if i < k {
            assert(nals[i] == a[i]);
        } else {
            assert(nals[i] == b[i - k]);
        }
    }
    annexb_laws::sample_undoes_length_prefixes(nals, n);
    h26x::lemma_first_slice(codec, nals, 0, nals.len() as int);
    let f = h26x::first_slice(codec, nals, 0, nals.len() as int);
    assert(f == k) by {
        if f < k {
            assert(nals[f] == a[f]);
        }
        if k < f {
            assert(nals[k] == b[0]);
        }
    }
    assert(nals.take(k) =~= a);
    assert(nals.skip(k) =~= b);
}

/// A sample that does not parse takes no SEI, and is refused as it is
/// when it is read.
pub proof fn a_broken_sample_takes_no_sei(sample: Seq<u8>, nal: Seq<u8>, n: int, codec: Codec)
    requires
        annexb::sample_nals(sample, n) is Err,
    ensures
        sei::sample_spliced(sample, nal, n, codec) == Err::<Seq<u8>, Error>(
            annexb::sample_nals(sample, n)->Err_0,
        ),
{
}

/// Messages are the numbers and bytes they are given in.
pub proof fn messages_are_given_in_their_fields(list: Seq<SeiMessage>, i: int)
    requires
        0 <= i < list.len(),
    ensures
        sei::said(list).len() == list.len(),
        sei::said(list)[i].payload_type == list[i].payload_type,
        sei::said(list)[i].payload == list[i].payload@,
{
}

} // verus!
