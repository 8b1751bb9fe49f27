//! What holds of SEI as a whole: a message written is the message read,
//! and a payload put into an access unit is found there again, with
//! everything else where it was.

use vstd::prelude::*;
use crate::annexb;
use crate::annexb_laws;
use crate::bytes;
use crate::ep;
use crate::h26x;
use crate::h26x::Codec;
use crate::marks;
use crate::sei;
use crate::sei::Message;
use crate::Error;

verus! {

/// A number written as `ff` bytes and a remainder is read back, whatever
/// follows it.
pub proof fn lemma_ff_round_trip(value: nat, tail: Seq<u8>)
    ensures
        sei::ff(sei::ff_bytes(value) + tail) == Some((value, sei::ff_bytes(value).len())),
    decreases value,
{
    let all = sei::ff_bytes(value) + tail;
    if value >= 255 {
        let less = (value - 255) as nat;
        lemma_ff_round_trip(less, tail);
        assert(all[0] == 0xff);
        assert(all.drop_first() =~= sei::ff_bytes(less) + tail);
    } else {
        assert(all[0] == value as u8);
    }
}

proof fn lemma_one_message(m: Message, tail: Seq<u8>)
    requires
        m.payload.len() <= u32::MAX,
    ensures
        sei::messages(sei::encoded(m) + tail) == seq![m] + sei::messages(tail),
{
    let kind = sei::ff_bytes(m.payload_type as nat);
    let size = sei::ff_bytes(m.payload.len());
    let all = sei::encoded(m) + tail;
    let a = kind.len();
    let b = size.len();
    let n = m.payload.len();
    assert(all =~= kind + (size + m.payload + tail));
    lemma_ff_round_trip(m.payload_type as nat, size + m.payload + tail);
    assert(all.skip(a as int) =~= size + (m.payload + tail));
    lemma_ff_round_trip(n, m.payload + tail);
    assert(all.subrange((a + b) as int, (a + b + n) as int) =~= m.payload);
    assert(all.skip((a + b + n) as int) =~= tail);
}

/// Messages written one after another are read back in order, whatever
/// comes behind them: a broken message takes none of those before it
/// with it.
pub proof fn messages_before_the_rest_stand(list: Seq<Message>, rest: Seq<u8>)
    requires
        forall|i: int| 0 <= i < list.len() ==> (#[trigger] list[i]).payload.len() <= u32::MAX,
    ensures
        sei::messages(sei::encoded_all(list) + rest) == list + sei::messages(rest),
    decreases list.len(),
{
    if list.len() == 0 {
        assert(sei::encoded_all(list) + rest =~= rest);
        assert(list + sei::messages(rest) =~= sei::messages(rest));
    } else {
        let more = list.drop_first();
        let tail = sei::encoded_all(more) + rest;
        messages_before_the_rest_stand(more, rest);
        lemma_one_message(list[0], tail);
        assert(sei::encoded_all(list) + rest =~= sei::encoded(list[0]) + tail);
        assert(seq![list[0]] + (more + sei::messages(rest)) =~= list + sei::messages(rest));
    }
}

/// The header of an SEI NAL unit, by itself.
pub proof fn lemma_header(codec: Codec, temporal_id_plus1: u8, body: Seq<u8>)
    ensures
        h26x::sei_header_of(codec, temporal_id_plus1).len() == h26x::header_len_of(codec),
        h26x::is_sei(codec, h26x::sei_header_of(codec, temporal_id_plus1) + body),
        (h26x::sei_header_of(codec, temporal_id_plus1) + body).skip(
            h26x::header_len_of(codec) as int,
        ) == body,
{
    let head = h26x::sei_header_of(codec, temporal_id_plus1);
    assert((head + body).skip(h26x::header_len_of(codec) as int) =~= body);
    assert(6u8 & 0x1f == 6 && 78u8 >> 1 & 0x3f == 39) by (bit_vector);
    assert((head + body)[0] == head[0]);
}

/// A temporal id read off a slice is one an SEI header can repeat.
pub proof fn lemma_header_is_clean(codec: Codec, nal: Seq<u8>)
    ensures
        h26x::sei_header_of(codec, h26x::temporal_id_of(codec, nal)).last() != 0,
        h26x::sei_header_of(codec, 1).last() != 0,
{
    let byte = nal[1];
    assert((byte & 0x07) & 0x07 == byte & 0x07) by (bit_vector);
    assert(1u8 & 0x07 == 1) by (bit_vector);
}

/// Reading undoes writing: the messages of an SEI NAL unit are the
/// messages it was written with.
pub proof fn reading_undoes_writing(list: Seq<Message>, codec: Codec, temporal_id_plus1: u8)
    requires
        forall|i: int| 0 <= i < list.len() ==> (#[trigger] list[i]).payload.len() <= u32::MAX,
    ensures
        sei::nal_messages(sei::sei_nal(list, codec, temporal_id_plus1), codec) == Ok::<
            Seq<Message>,
            Error,
        >(list),
{
    let rbsp = sei::sei_rbsp(list);
    lemma_header(codec, temporal_id_plus1, ep::escape(rbsp));
    ep::unescape_undoes_escape(rbsp);
    bytes::lemma_content_end_of_closed(sei::encoded_all(list));
    assert(rbsp.take(rbsp.len() - 1) =~= sei::encoded_all(list));
    messages_before_the_rest_stand(list, Seq::empty());
    assert(sei::encoded_all(list) + Seq::empty() =~= sei::encoded_all(list));
    assert(list + sei::messages(Seq::empty()) =~= list);
}

/// Messages that need no escape are written as they stand: the header,
/// the messages, the stop bit.
pub proof fn plain_messages_are_written_as_they_stand(
    list: Seq<Message>,
    codec: Codec,
    temporal_id_plus1: u8,
)
    requires
        ep::escape_free(sei::sei_rbsp(list)),
    ensures
        sei::sei_nal(list, codec, temporal_id_plus1) == h26x::sei_header_of(
            codec,
            temporal_id_plus1,
        ) + sei::encoded_all(list) + seq![0x80u8],
{
    ep::escape_changes_only_what_needs_it(sei::sei_rbsp(list));
    assert(sei::sei_nal(list, codec, temporal_id_plus1) =~= h26x::sei_header_of(
        codec,
        temporal_id_plus1,
    ) + sei::encoded_all(list) + seq![0x80u8]);
}

/// An SEI NAL unit holds no start code and ends in no zero, whatever its
/// messages hold, so it takes its place in a stream as one NAL unit.
pub proof fn written_sei_is_clean(list: Seq<Message>, codec: Codec, temporal_id_plus1: u8)
    requires
        h26x::sei_header_of(codec, temporal_id_plus1).last() != 0,
    ensures
        annexb::clean(sei::sei_nal(list, codec, temporal_id_plus1)),
{
    let head = h26x::sei_header_of(codec, temporal_id_plus1);
    let rbsp = sei::sei_rbsp(list);
    let body = ep::escape(rbsp);
    let nal = sei::sei_nal(list, codec, temporal_id_plus1);
    let h = head.len() as int;
    ep::escaped_bytes_hold_no_start_code(rbsp);
    assert(rbsp.last() == 0x80);
    assert(body.last() == 0x80);
    assert(nal.last() == 0x80);
    assert forall|p: int| !annexb::code_at(nal, p) by {
        if annexb::code_at(nal, p) {
            if p >= h {
                assert(nal[p] == body[p - h]);
                assert(nal[p + 1] == body[p + 1 - h]);
                assert(nal[p + 2] == body[p + 2 - h]);
                assert(ep::zeroes_then(body, p - h, 2));
            } else {
                assert(nal[0] == head[0]);
                assert(nal[h - 1] == head[h - 1]);
            }
        }
    }
}

/// A payload that opens with the UUID is what its SEI NAL unit carries
/// under that UUID, and all of it.
pub proof fn a_payload_is_carried(
    payload: Seq<u8>,
    codec: Codec,
    temporal_id_plus1: u8,
    uuid: Seq<u8>,
)
    requires
        payload.len() <= u32::MAX,
        bytes::opens_with(payload, uuid),
    ensures
        sei::carried(sei::user_nal(payload, codec, temporal_id_plus1), codec, uuid) == seq![
            payload,
        ],
{
    let list = seq![sei::user_message(payload)];
    reading_undoes_writing(list, codec, temporal_id_plus1);
    reveal_with_fuel(sei::chosen, 2);
    assert(list.drop_last() =~= Seq::empty());
    assert(sei::chosen(list, uuid) =~= seq![payload]);
}

/// The payloads of two runs of NAL units are the payloads of each.
pub proof fn lemma_gathered_add(
    a: Seq<Seq<u8>>,
    b: Seq<Seq<u8>>,
    codec: Codec,
    uuid: Seq<u8>,
)
    ensures
        sei::gathered(a + b, codec, uuid) == sei::gathered(a, codec, uuid) + sei::gathered(
            b,
            codec,
            uuid,
        ),
    decreases b.len(),
{
    if b.len() == 0 {
        assert(a + b =~= a);
        assert(sei::gathered(a, codec, uuid) + sei::gathered(b, codec, uuid) =~= sei::gathered(
            a,
            codec,
            uuid,
        ));
    } else {
        lemma_gathered_add(a, b.drop_last(), codec, uuid);
        assert((a + b).drop_last() =~= a + b.drop_last());
        assert(sei::gathered(a + b, codec, uuid) =~= sei::gathered(a, codec, uuid) + sei::gathered(
            b,
            codec,
            uuid,
        ));
    }
}

/// One NAL unit more among others adds what it carries, in its place.
pub proof fn lemma_gathered_between(
    a: Seq<Seq<u8>>,
    nal: Seq<u8>,
    b: Seq<Seq<u8>>,
    codec: Codec,
    uuid: Seq<u8>,
)
    ensures
        sei::gathered(a + seq![nal] + b, codec, uuid) == sei::gathered(a, codec, uuid)
            + sei::carried(nal, codec, uuid) + sei::gathered(b, codec, uuid),
{
    lemma_gathered_add(a + seq![nal], b, codec, uuid);
    lemma_gathered_add(a, seq![nal], codec, uuid);
    reveal_with_fuel(sei::gathered, 2);
    assert(seq![nal].drop_last() =~= Seq::empty());
    assert(sei::gathered(seq![nal], codec, uuid) =~= sei::carried(nal, codec, uuid));
}

/// A pending slice lies behind the last opening.
proof fn lemma_pending(codec: Codec, nals: Seq<Seq<u8>>, i: int)
    requires
        h26x::slice_pending(codec, nals, i),
    ensures
        exists|k: int|
            0 <= k < i && h26x::is_slice(codec, #[trigger] nals[k]) && forall|m: int|
                k < m < i ==> !h26x::opens(codec, nals, m),
    decreases i,
{
    if h26x::is_slice(codec, nals[i - 1]) {
    } else {
        lemma_pending(codec, nals, i - 1);
        let k = choose|k: int|
            0 <= k < i - 1 && h26x::is_slice(codec, #[trigger] nals[k]) && forall|m: int|
                k < m < i - 1 ==> !h26x::opens(codec, nals, m);
        assert(h26x::is_slice(codec, nals[k]));
    }
}

/// An access unit that another follows holds a slice.
pub proof fn lemma_unit_has_slice(codec: Codec, nals: Seq<Seq<u8>>, u: int)
    requires
        0 <= u,
        u + 1 < h26x::openings(codec, nals).len(),
    ensures
        ({
            let open = h26x::openings(codec, nals);
            h26x::first_slice(codec, nals, open[u], open[u + 1]) < open[u + 1]
        }),
{
    let open = h26x::openings(codec, nals);
    let is_open = h26x::is_opening(codec, nals);
    let i = open[u];
    let j = open[u + 1];
    marks::lemma_marks(is_open, nals.len() as int);
    assert(i < j);
    h26x::lemma_first_slice(codec, nals, i, j);
    assert(is_open(j));
    assert(is_open(i));
    assert(h26x::opens(codec, nals, j));
    assert(h26x::opens(codec, nals, i));
    assert(h26x::type_of(codec, nals[i]) is Some);
    lemma_pending(codec, nals, j);
    let k = choose|k: int|
        0 <= k < j && h26x::is_slice(codec, #[trigger] nals[k]) && forall|m: int|
            k < m < j ==> !h26x::opens(codec, nals, m);
    assert(k >= i);
}

/// What a stream holds from a NAL unit's start code on opens with it.
pub proof fn lemma_opens_at_nal(s: Seq<u8>, f: int)
    requires
        0 <= f < annexb::codes(s).len(),
    ensures
        annexb_laws::opens_at_code(s.skip(annexb::nal_at(s, f).code)),
{
    let at = annexb::nal_at(s, f).code;
    let c = annexb::codes(s)[f];
    let rest = s.skip(at);
    annexb::lemma_codes(s);
    annexb::lemma_nal(s, f);
    bytes::lemma_zero_run(s, c);
    assert(annexb::code_at(s, c));
    if at == c {
        assert(rest[0] == s[c] && rest[1] == s[c + 1] && rest[2] == s[c + 2]);
        assert(annexb::code_at(rest, 0));
    } else {
        assert(rest[0] == s[c - 1]);
        assert(rest[1] == s[c] && rest[2] == s[c + 1] && rest[3] == s[c + 2]);
        assert(annexb::code_at(rest, 1));
    }
}

/// Every access unit takes an SEI at a start code or at the end of the
/// stream.
pub proof fn lemma_insert_at_opens(s: Seq<u8>, codec: Codec, u: int)
    requires
        0 <= u < h26x::units(s, codec).len(),
    ensures
        0 <= h26x::units(s, codec)[u].insert_at <= s.len(),
        annexb_laws::opens_at_code(s.skip(h26x::units(s, codec)[u].insert_at)),
{
    let nals = annexb::split(s);
    let open = h26x::openings(codec, nals);
    let n = nals.len() as int;
    let i = open[u];
    let j = marks::next_of(open, u, n);
    let f = h26x::first_slice(codec, nals, i, j);
    let unit = h26x::units(s, codec)[u];
    h26x::lemma_units(s, codec);
    marks::lemma_marks(h26x::is_opening(codec, nals), n);
    assert(0 <= i < j <= n);
    h26x::lemma_first_slice(codec, nals, i, j);
    if u + 1 < open.len() {
        lemma_unit_has_slice(codec, nals, u);
    }
    if f < j {
        assert(unit.insert_at == annexb::nal_at(s, f).code);
        lemma_opens_at_nal(s, f);
    } else {
        assert(unit.insert_at == s.len());
    }
}

/// A payload put into an Annex B access unit is found there again: what
/// was found before its place, the payload, what was found behind.
/// Nothing else is lost, added or moved.
pub proof fn inserted_payload_is_found(
    au: Seq<u8>,
    payload: Seq<u8>,
    codec: Codec,
    temporal_id_plus1: u8,
    uuid: Seq<u8>,
)
    requires
        h26x::units(au, codec).len() > 0,
        h26x::sei_header_of(codec, temporal_id_plus1).last() != 0,
        payload.len() <= u32::MAX,
        bytes::opens_with(payload, uuid),
    ensures
        ({
            let at = h26x::units(au, codec)[0].insert_at;
            let nal = sei::user_nal(payload, codec, temporal_id_plus1);
            let before = sei::gathered(annexb::split(au.take(at)), codec, uuid);
            let behind = sei::gathered(annexb::split(au.skip(at)), codec, uuid);
            &&& sei::gathered(annexb::split(au), codec, uuid) == before + behind
            &&& sei::spliced(au, nal, codec) matches Ok(out) && sei::gathered(
                annexb::split(out),
                codec,
                uuid,
            ) == before + seq![payload] + behind
        }),
{
    let at = h26x::units(au, codec)[0].insert_at;
    let nal = sei::user_nal(payload, codec, temporal_id_plus1);
    let a = annexb::split(au.take(at));
    let b = annexb::split(au.skip(at));
    lemma_insert_at_opens(au, codec, 0);
    written_sei_is_clean(seq![sei::user_message(payload)], codec, temporal_id_plus1);
    annexb_laws::splicing_adds_one_nal(au, at, nal);
    lemma_gathered_add(a, b, codec, uuid);
    lemma_gathered_between(a, nal, b, codec, uuid);
    a_payload_is_carried(payload, codec, temporal_id_plus1, uuid);
}

/// A sample that took an SEI is the sample it was, with one length and
/// the SEI put in at one place.
pub proof fn sample_insertion_is_a_splice(sample: Seq<u8>, nal: Seq<u8>, n: int, codec: Codec)
    requires
        sei::sample_spliced(sample, nal, n, codec) is Ok,
    ensures
        ({
            let nals = annexb::sample_nals(sample, n)->Ok_0;
            let k = h26x::first_slice(codec, nals, 0, nals.len() as int);
            let at = annexb::prefixed(nals.take(k), n as nat).len() as int;
            &&& 0 <= at <= sample.len()
            &&& sei::sample_spliced(sample, nal, n, codec) == Ok::<Seq<u8>, Error>(
                sample.take(at) + bytes::be_bytes(nal.len(), n as nat) + nal + sample.skip(at),
            )
        }),
{
    let nals = annexb::sample_nals(sample, n)->Ok_0;
    let k = h26x::first_slice(codec, nals, 0, nals.len() as int);
    let a = nals.take(k);
    let b = nals.skip(k);
    let w = n as nat;
    h26x::lemma_first_slice(codec, nals, 0, nals.len() as int);
    annexb_laws::length_prefixes_undo_sample(sample, n);
    assert(a + b =~= nals);
    annexb::lemma_prefixed_add(a, b, w);
    annexb::lemma_prefixed_push(a, nal, w);
    assert(a + seq![nal] =~= a.push(nal));
    annexb::lemma_prefixed_add(a + seq![nal], b, w);
    let at = annexb::prefixed(a, w).len() as int;
    assert(sample.take(at) =~= annexb::prefixed(a, w));
    assert(sample.skip(at) =~= annexb::prefixed(b, w));
    assert(annexb::prefixed(a + seq![nal] + b, w) =~= sample.take(at) + bytes::be_bytes(
        nal.len(),
        w,
    ) + nal + sample.skip(at));
}

/// A payload put into a length-prefixed sample is found there again,
/// between what was found before its place and what was found behind.
pub proof fn inserted_payload_is_found_in_sample(
    sample: Seq<u8>,
    payload: Seq<u8>,
    n: int,
    codec: Codec,
    temporal_id_plus1: u8,
    uuid: Seq<u8>,
)
    requires
        sei::sample_spliced(
            sample,
            sei::user_nal(payload, codec, temporal_id_plus1),
            n,
            codec,
        ) is Ok,
        payload.len() <= u32::MAX,
        bytes::opens_with(payload, uuid),
    ensures
        ({
            let nals = annexb::sample_nals(sample, n)->Ok_0;
            let k = h26x::first_slice(codec, nals, 0, nals.len() as int);
            let nal = sei::user_nal(payload, codec, temporal_id_plus1);
            let out = sei::sample_spliced(sample, nal, n, codec)->Ok_0;
            let before = sei::gathered(nals.take(k), codec, uuid);
            let behind = sei::gathered(nals.skip(k), codec, uuid);
            &&& sei::gathered(nals, codec, uuid) == before + behind
            &&& annexb::sample_nals(out, n) matches Ok(now) && sei::gathered(now, codec, uuid)
                == before + seq![payload] + behind
        }),
{
    let nals = annexb::sample_nals(sample, n)->Ok_0;
    let k = h26x::first_slice(codec, nals, 0, nals.len() as int);
    let nal = sei::user_nal(payload, codec, temporal_id_plus1);
    let a = nals.take(k);
    let b = nals.skip(k);
    let now = a + seq![nal] + b;
    h26x::lemma_first_slice(codec, nals, 0, nals.len() as int);
    annexb_laws::length_prefixes_undo_sample(sample, n);
    assert forall|i: int| 0 <= i < now.len() implies (#[trigger] now[i]).len() < bytes::capacity(
        n as nat,
    ) by {
        if i < k {
            assert(now[i] == nals[i]);
        } else if i > k {
            assert(now[i] == nals[i - 1]);
        }
    }
    annexb_laws::sample_undoes_length_prefixes(now, n);
    assert(a + b =~= nals);
    lemma_gathered_add(a, b, codec, uuid);
    lemma_gathered_between(a, nal, b, codec, uuid);
    a_payload_is_carried(payload, codec, temporal_id_plus1, uuid);
}

} // verus!
