//! Supplemental enhancement information, ISO/IEC 14496-10 Annex D and
//! ISO/IEC 23008-2 Annex D: the messages an SEI NAL unit carries, and
//! putting one where the standard says it goes.
//!
//! An SEI NAL unit holds one or more messages, each a `payloadType`, a
//! `payloadSize` and that many bytes, both numbers spelled as `ff`
//! bytes and a remainder. A prefix SEI goes before the first coded
//! slice of its access unit, which puts it after the access unit
//! delimiter, the parameter sets and any SEI that was already there.
//!
//! Two rules a reader here follows. It touches nothing that is not the
//! message it came for, so an encoder's settings SEI, captions and HDR
//! metadata travel on untouched. And it gives up quietly on a message
//! whose `payloadSize` overruns the NAL: what parsed before it stands,
//! because a reader looking for its own message has no reason to drop
//! the ones it already read over a trailing byte it cannot use.

use vstd::prelude::*;
use vstd::slice::slice_subrange;
use crate::annexb;
use crate::annexb::{put_length, scan_nals, split_length_prefixed, NalRef, START_CODE};
use crate::bytes;
use crate::ep;
use crate::h26x;
use crate::h26x::{access_units, AccessUnit, Codec};
use crate::Error;

verus! {

/// `user_data_unregistered`, the payload type a format of one's own
/// travels in: 16 bytes of `uuid_iso_iec_11578` and then whatever the
/// writer of that UUID says.
pub const USER_DATA_UNREGISTERED: u32 = 5;

/// One SEI message: its type and its payload, the payload already free
/// of emulation prevention.
#[derive(Clone, Debug, PartialEq, Eq)]
pub struct SeiMessage {
    pub payload_type: u32,
    pub payload: Vec<u8>,
}

/// An SEI message as a number and a byte string.
pub struct Message {
    pub payload_type: u32,
    pub payload: Seq<u8>,
}

impl View for SeiMessage {
    type V = Message;

    open spec fn view(&self) -> Message {
        Message { payload_type: self.payload_type, payload: self.payload@ }
    }
}

/// What a list of messages says.
pub open spec fn said(list: Seq<SeiMessage>) -> Seq<Message> {
    Seq::new(list.len(), |i: int| list[i]@)
}

/// What a function that returns messages returned.
pub open spec fn messages_result(r: Result<Vec<SeiMessage>, Error>) -> Result<Seq<Message>, Error> {
    match r {
        Ok(v) => Ok(said(v@)),
        Err(e) => Err(e),
    }
}

/// What a function that returns payloads returned.
pub open spec fn payloads_result(r: Result<Vec<Vec<u8>>, Error>) -> Result<Seq<Seq<u8>>, Error> {
    match r {
        Ok(v) => Ok(bytes::contents(v@)),
        Err(e) => Err(e),
    }
}

/// Whether a message is a `user_data_unregistered` one opened by `uuid`.
pub open spec fn is_ours(m: Message, uuid: Seq<u8>) -> bool {
    m.payload_type == USER_DATA_UNREGISTERED && bytes::opens_with(m.payload, uuid)
}

/// The `ff`-extended number that `data` opens with, and how many bytes
/// it takes: 255 for every `ff`, and then the first byte that is not
/// one.
pub open spec fn ff(data: Seq<u8>) -> Option<(nat, nat)>
    decreases data.len(),
{
    if data.len() == 0 {
        None
    } else if data[0] == 0xff {
        match ff(data.drop_first()) {
            Some((value, n)) => Some((value + 255, n + 1)),
            None => None,
        }
    } else {
        Some((data[0] as nat, 1))
    }
}

/// The same, for a number of 32 bits.
pub open spec fn ff32(data: Seq<u8>) -> Option<(u32, nat)> {
    match ff(data) {
        Some((value, n)) => if value <= u32::MAX {
            Some((value as u32, n))
        } else {
            None
        },
        None => None,
    }
}

/// A number as `ff` bytes and a remainder.
pub open spec fn ff_bytes(value: nat) -> Seq<u8>
    decreases value,
{
    if value >= 255 {
        seq![0xffu8] + ff_bytes((value - 255) as nat)
    } else {
        seq![value as u8]
    }
}

/// An `ff`-extended number takes at least one byte and no more than
/// there are.
pub proof fn lemma_ff(data: Seq<u8>)
    ensures
        ff(data) matches Some((value, n)) ==> 1 <= n <= data.len(),
    decreases data.len(),
{
    if data.len() > 0 && data[0] == 0xff {
        lemma_ff(data.drop_first());
    }
}

/// The messages of `data`, up to the first that does not parse: one
/// whose type or size does not end, or whose size overruns the bytes.
pub open spec fn messages(data: Seq<u8>) -> Seq<Message>
    decreases data.len(),
{
    match ff32(data) {
        Some((payload_type, a)) => match ff32(data.skip(a as int)) {
            Some((size, b)) => if a + b + size <= data.len() {
                proof {
                    lemma_ff(data);
                }
                seq![
                    Message {
                        payload_type,
                        payload: data.subrange((a + b) as int, (a + b + size) as int),
                    },
                ] + messages(data.skip((a + b + size) as int))
            } else {
                Seq::empty()
            },
            None => Seq::empty(),
        },
        None => Seq::empty(),
    }
}

/// The messages of an SEI RBSP: those before the stop bit.
pub open spec fn rbsp_messages(rbsp: Seq<u8>) -> Seq<Message> {
    messages(rbsp.take(bytes::content_end(rbsp)))
}

/// The messages of an SEI NAL unit.
pub open spec fn nal_messages(nal: Seq<u8>, codec: Codec) -> Result<Seq<Message>, Error> {
    if h26x::is_sei(codec, nal) {
        Ok(rbsp_messages(ep::unescape(nal.skip(h26x::header_len_of(codec) as int))))
    } else {
        Err(Error::Malformed { what: "the NAL unit is not a prefix SEI", at: 0 })
    }
}

/// One message as it is written: its type, the size of its payload as a
/// 32-bit number, and the payload.
pub open spec fn encoded(m: Message) -> Seq<u8> {
    ff_bytes(m.payload_type as nat) + ff_bytes((m.payload.len() as u32) as nat) + m.payload
}

/// Messages one after another.
pub open spec fn encoded_all(list: Seq<Message>) -> Seq<u8>
    decreases list.len(),
{
    if list.len() == 0 {
        Seq::empty()
    } else {
        encoded(list[0]) + encoded_all(list.drop_first())
    }
}

/// The RBSP of an SEI NAL unit carrying `list`, closed by its stop bit.
pub open spec fn sei_rbsp(list: Seq<Message>) -> Seq<u8> {
    encoded_all(list).push(0x80)
}

/// An SEI NAL unit carrying `list`.
pub open spec fn sei_nal(list: Seq<Message>, codec: Codec, temporal_id_plus1: u8) -> Seq<u8> {
    h26x::sei_header_of(codec, temporal_id_plus1) + ep::escape(sei_rbsp(list))
}

/// The message a payload of one's own travels in.
pub open spec fn user_message(payload: Seq<u8>) -> Message {
    Message { payload_type: USER_DATA_UNREGISTERED, payload }
}

/// The SEI NAL unit a payload of one's own travels in.
pub open spec fn user_nal(payload: Seq<u8>, codec: Codec, temporal_id_plus1: u8) -> Seq<u8> {
    sei_nal(seq![user_message(payload)], codec, temporal_id_plus1)
}

/// The payloads of the messages that are ours, in order.
pub open spec fn chosen(list: Seq<Message>, uuid: Seq<u8>) -> Seq<Seq<u8>>
    decreases list.len(),
{
    if list.len() == 0 {
        Seq::empty()
    } else if is_ours(list.last(), uuid) {
        chosen(list.drop_last(), uuid).push(list.last().payload)
    } else {
        chosen(list.drop_last(), uuid)
    }
}

/// The payloads that are ours in one NAL unit.
pub open spec fn carried(nal: Seq<u8>, codec: Codec, uuid: Seq<u8>) -> Seq<Seq<u8>> {
    match nal_messages(nal, codec) {
        Ok(list) => chosen(list, uuid),
        Err(_) => Seq::empty(),
    }
}

/// The payloads that are ours in a list of NAL units.
pub open spec fn gathered(nals: Seq<Seq<u8>>, codec: Codec, uuid: Seq<u8>) -> Seq<Seq<u8>>
    decreases nals.len(),
{
    if nals.len() == 0 {
        Seq::empty()
    } else {
        gathered(nals.drop_last(), codec, uuid) + carried(nals.last(), codec, uuid)
    }
}

/// An Annex B access unit with `sei` behind a start code of its own at
/// the place the access unit takes one.
pub open spec fn spliced(au: Seq<u8>, sei: Seq<u8>, codec: Codec) -> Result<Seq<u8>, Error> {
    let found = h26x::units(au, codec);
    if found.len() == 0 {
        Err(Error::Malformed { what: "the bytes hold no access unit", at: 0 })
    } else {
        Ok(au.take(found[0].insert_at) + START_CODE@ + sei + au.skip(found[0].insert_at))
    }
}

/// The NALs of a length-prefixed sample with `sei` before the first
/// coded slice, or behind them all when there is none.
pub open spec fn sample_spliced(
    sample: Seq<u8>,
    sei: Seq<u8>,
    n: int,
    codec: Codec,
) -> Result<Seq<u8>, Error> {
    match annexb::sample_nals(sample, n) {
        Ok(nals) => {
            let k = h26x::first_slice(codec, nals, 0, nals.len() as int);
            if sei.len() >= bytes::capacity(n as nat) {
                Err(
                    Error::TooLarge {
                        at: annexb::prefixed(nals.take(k), n as nat).len() as usize,
                    },
                )
            } else {
                Ok(annexb::prefixed(nals.take(k) + seq![sei] + nals.skip(k), n as nat))
            }
        },
        Err(e) => Err(e),
    }
}

impl SeiMessage {
    /// A `user_data_unregistered` message carrying `payload`, which
    /// opens with the writer's own 16 byte UUID.
    pub fn user_data(payload: &[u8]) -> (m: Self)
        ensures
            m@ == user_message(payload@),
    {
        assert(payload@.subrange(0, payload@.len() as int) =~= payload@);
        SeiMessage {
            payload_type: USER_DATA_UNREGISTERED,
            payload: bytes::copy_range(payload, 0, payload.len()),
        }
    }

    /// Whether this is a `user_data_unregistered` message opened by
    /// `uuid`.
    pub fn is_user_data(&self, uuid: &[u8; 16]) -> (r: bool)
        ensures
            r == is_ours(self@, uuid@),
    {
        self.payload_type == USER_DATA_UNREGISTERED && bytes::starts_with_uuid(
            self.payload.as_slice(),
            uuid,
        )
    }

    /// The bytes after `uuid`, when this is a `user_data_unregistered`
    /// message opened by it.
    ///
    /// The finders below hand back the whole payload, UUID and all,
    /// because that is the unit a carried format encodes and decodes;
    /// this is for a caller that wants only what follows.
    pub fn user_data_body(&self, uuid: &[u8; 16]) -> (body: Option<&[u8]>)
        ensures
            match body {
                Some(b) => is_ours(self@, uuid@) && b@ == self@.payload.skip(16),
                None => !is_ours(self@, uuid@),
            },
    {
        if self.is_user_data(uuid) {
            Some(slice_subrange(self.payload.as_slice(), 16, self.payload.len()))
        } else {
            None
        }
    }
}

/// The SEI messages of an SEI NAL unit.
///
/// Anything the NAL holds past what parses is left behind rather than
/// refused.
pub fn parse_sei(nal: &[u8], codec: Codec) -> (out: Result<Vec<SeiMessage>, Error>)
    ensures
        messages_result(out) == nal_messages(nal@, codec),
{
    if !codec.is_prefix_sei(nal) {
        return Err(Error::Malformed { what: "the NAL unit is not a prefix SEI", at: 0 });
    }
    let body: &[u8] = slice_subrange(nal, codec.header_len(), nal.len());
    let rbsp: Vec<u8> = ep::remove_emulation_prevention(body);
    Ok(parse_sei_rbsp(rbsp.as_slice()))
}

/// The SEI messages of an SEI RBSP, header and escapes already gone.
///
/// The payload ends at the stop bit, which is the last byte that is not
/// a trailing zero, and that byte is `80` because every SEI payload is a
/// whole number of bytes.
pub fn parse_sei_rbsp(rbsp: &[u8]) -> (out: Vec<SeiMessage>)
    ensures
        said(out@) == rbsp_messages(rbsp@),
{
    let end: usize = bytes::find_content_end(rbsp);
    let data: &[u8] = slice_subrange(rbsp, 0, end);
    let mut out: Vec<SeiMessage> = Vec::new();
    let mut at: usize = 0;
    let ghost all = messages(data@);
    proof {
        assert(data@.skip(0) =~= data@);
        assert(said(out@) + messages(data@.skip(0)) =~= all);
    }
    while at < data.len()
        invariant_except_break
            at <= data@.len(),
            all == said(out@) + messages(data@.skip(at as int)),
        ensures
            all == said(out@),
        decreases data.len() - at,
    {
        let ghost rest = data@.skip(at as int);
        proof {
            lemma_ff(rest);
        }
        let (payload_type, a): (u32, usize) = match read_ff(data, at) {
            Some(found) => found,
            None => {
                assert(said(out@) + messages(rest) =~= said(out@));
                break;
            },
        };
        assert(rest.skip(a - at) =~= data@.skip(a as int));
        let (payload_size, start): (u32, usize) = match read_ff(data, a) {
            Some(found) => found,
            None => {
                assert(said(out@) + messages(rest) =~= said(out@));
                break;
            },
        };
        proof {
            lemma_ff(data@.skip(a as int));
        }
        if payload_size as u64 > (data.len() - start) as u64 {
            assert(said(out@) + messages(rest) =~= said(out@));
            break;
        }
        let stop: usize = start + payload_size as usize;
        let ghost before = out@;
        out.push(
            SeiMessage { payload_type, payload: bytes::copy_range(data, start, stop) },
        );
        proof {
            assert(rest.subrange(start - at, stop - at) =~= data@.subrange(
                start as int,
                stop as int,
            ));
            assert(rest.skip(stop - at) =~= data@.skip(stop as int));
            assert(said(before) + messages(rest) =~= said(out@) + messages(
                data@.skip(stop as int),
            ));
        }
        at = stop;
        if at == data.len() {
            assert(data@.skip(at as int) =~= Seq::empty());
            assert(said(out@) + messages(data@.skip(at as int)) =~= said(out@));
        }
    }
    out
}

/// One `ff`-extended value, and where it ended.
fn read_ff(data: &[u8], from: usize) -> (r: Option<(u32, usize)>)
    requires
        from <= data@.len(),
    ensures
        match r {
            Some((value, next)) => from < next <= data@.len() && ff32(data@.skip(from as int))
                == Some((value, (next - from) as nat)),
            None => ff32(data@.skip(from as int)) is None,
        },
{
    let mut value: u32 = 0;
    let mut at: usize = from;
    let ghost whole = ff(data@.skip(from as int));
    while at < data.len()
        invariant
            from <= at <= data@.len(),
            whole == ff(data@.skip(from as int)),
            whole == (match ff(data@.skip(at as int)) {
                Some((v, n)) => Some(((value + v) as nat, (at - from + n) as nat)),
                None => None::<(nat, nat)>,
            }),
        decreases data.len() - at,
    {
        let byte: u8 = data[at];
        let ghost rest = data@.skip(at as int);
        assert(rest.drop_first() =~= data@.skip(at + 1));
        proof {
            lemma_ff(rest);
            lemma_ff(data@.skip(at + 1));
        }
        if value > u32::MAX - byte as u32 {
            return None;
        }
        value += byte as u32;
        at += 1;
        if byte != 0xff {
            return Some((value, at));
        }
    }
    None
}

/// Appends one `ff`-extended value.
fn put_ff(out: &mut Vec<u8>, number: u32)
    ensures
        final(out)@ == old(out)@ + ff_bytes(number as nat),
{
    let mut value: u32 = number;
    let ghost before = out@;
    while value >= 255
        invariant
            before + ff_bytes(number as nat) == out@ + ff_bytes(value as nat),
        decreases value,
    {
        let ghost so_far = out@;
        out.push(0xff);
        value -= 255;
        assert(so_far + (seq![0xffu8] + ff_bytes(value as nat)) =~= out@ + ff_bytes(value as nat));
    }
    let ghost so_far = out@;
    out.push(value as u8);
    assert(so_far + ff_bytes(value as nat) =~= out@);
}

/// Messages written in two parts are written as a whole.
pub proof fn lemma_encoded_add(a: Seq<Message>, b: Seq<Message>)
    ensures
        encoded_all(a + b) == encoded_all(a) + encoded_all(b),
    decreases a.len(),
{
    if a.len() == 0 {
        assert(a + b =~= b);
        assert(encoded_all(a) + encoded_all(b) =~= encoded_all(b));
    } else {
        lemma_encoded_add(a.drop_first(), b);
        assert((a + b).drop_first() =~= a.drop_first() + b);
        assert(encoded_all(a + b) =~= encoded_all(a) + encoded_all(b));
    }
}

/// What one more message adds.
pub proof fn lemma_encoded_push(a: Seq<Message>, m: Message)
    ensures
        encoded_all(a.push(m)) == encoded_all(a) + encoded(m),
{
    let one = seq![m];
    assert(a.push(m) =~= a + one);
    lemma_encoded_add(a, one);
    reveal_with_fuel(encoded_all, 2);
    assert(one.drop_first() =~= Seq::empty());
    assert(encoded_all(one) =~= encoded(m));
}

/// An SEI NAL unit carrying `messages`, escapes and trailing bits and
/// all, for an access unit at `temporal_id_plus1`.
pub fn write_sei(messages: &[SeiMessage], codec: Codec, temporal_id_plus1: u8) -> (nal: Vec<u8>)
    ensures
        nal@ == sei_nal(said(messages@), codec, temporal_id_plus1),
{
    let ghost list = said(messages@);
    let mut rbsp: Vec<u8> = Vec::new();
    let mut k: usize = 0;
    assert(list.take(0) =~= Seq::empty());
    while k < messages.len()
        invariant
            k <= messages@.len(),
            list == said(messages@),
            rbsp@ == encoded_all(list.take(k as int)),
        decreases messages.len() - k,
    {
        let message: &SeiMessage = &messages[k];
        assert(list[k as int] == message@);
        put_ff(&mut rbsp, message.payload_type);
        put_ff(&mut rbsp, message.payload.len() as u32);
        bytes::append(&mut rbsp, message.payload.as_slice());
        proof {
            lemma_encoded_push(list.take(k as int), message@);
            assert(list.take(k + 1) =~= list.take(k as int).push(message@));
            assert(rbsp@ =~= encoded_all(list.take(k as int)) + encoded(message@));
        }
        k += 1;
    }
    assert(list.take(k as int) =~= list);
    // rbsp_trailing_bits: a one bit, then zeroes to the byte.
    rbsp.push(0x80);
    let mut nal: Vec<u8> = codec.sei_header(temporal_id_plus1);
    let escaped: Vec<u8> = ep::insert_emulation_prevention(rbsp.as_slice());
    bytes::append(&mut nal, escaped.as_slice());
    nal
}

/// A `user_data_unregistered` payload as an SEI NAL unit, ready to
/// splice into an access unit at `temporal_id_plus1`, which
/// [`crate::h26x::AccessUnit`] carries.
pub fn write_user_data_at(payload: &[u8], codec: Codec, temporal_id_plus1: u8) -> (nal: Vec<u8>)
    ensures
        nal@ == user_nal(payload@, codec, temporal_id_plus1),
{
    let message: SeiMessage = SeiMessage::user_data(payload);
    let mut list: Vec<SeiMessage> = Vec::new();
    list.push(message);
    assert(said(list@) =~= seq![user_message(payload@)]);
    write_sei(list.as_slice(), codec, temporal_id_plus1)
}

/// The same for an access unit of the base temporal layer, which is
/// every access unit of a stream without sub-layers.
pub fn write_user_data(payload: &[u8], codec: Codec) -> (nal: Vec<u8>)
    ensures
        nal@ == user_nal(payload@, codec, 1),
{
    write_user_data_at(payload, codec, 1)
}

/// The payloads in one SEI NAL unit that are opened by `uuid`, UUID and
/// all. A NAL that is not a prefix SEI carries none.
pub fn user_data_in_nal(nal: &[u8], codec: Codec, uuid: &[u8; 16]) -> (out: Vec<Vec<u8>>)
    ensures
        bytes::contents(out@) == carried(nal@, codec, uuid@),
{
    let mut out: Vec<Vec<u8>> = Vec::new();
    let messages: Vec<SeiMessage> = match parse_sei(nal, codec) {
        Ok(messages) => messages,
        Err(_) => {
            assert(bytes::contents(out@) =~= Seq::empty());
            return out;
        },
    };
    let ghost list = said(messages@);
    let mut k: usize = 0;
    assert(list.take(0) =~= Seq::empty());
    assert(bytes::contents(out@) =~= chosen(list.take(0), uuid@));
    while k < messages.len()
        invariant
            k <= messages@.len(),
            list == said(messages@),
            bytes::contents(out@) == chosen(list.take(k as int), uuid@),
        decreases messages.len() - k,
    {
        let message: &SeiMessage = &messages[k];
        let ghost before = out@;
        assert(list[k as int] == message@);
        assert(list.take(k + 1).drop_last() =~= list.take(k as int));
        if message.is_user_data(uuid) {
            out.push(bytes::copy_range(message.payload.as_slice(), 0, message.payload.len()));
            assert(message.payload@.subrange(0, message.payload@.len() as int)
                =~= message.payload@);
            assert(bytes::contents(out@) =~= bytes::contents(before).push(message.payload@));
        }
        k += 1;
    }
    assert(list.take(k as int) =~= list);
    out
}

/// Moves every payload of `more` to the end of `out`.
pub(crate) fn extend_payloads(out: &mut Vec<Vec<u8>>, more: Vec<Vec<u8>>)
    ensures
        bytes::contents(final(out)@) == bytes::contents(old(out)@) + bytes::contents(more@),
{
    let mut more: Vec<Vec<u8>> = more;
    let ghost before = out@;
    let ghost tail = more@;
    out.append(&mut more);
    assert(bytes::contents(out@) =~= bytes::contents(before) + bytes::contents(tail));
}

/// Every payload opened by `uuid` in an Annex B stream, or in one
/// access unit of one.
pub fn user_data_annexb(annexb: &[u8], codec: Codec, uuid: &[u8; 16]) -> (out: Vec<Vec<u8>>)
    ensures
        bytes::contents(out@) == gathered(annexb::split(annexb@), codec, uuid@),
{
    let nals: Vec<NalRef<'_>> = scan_nals(annexb);
    let ghost list = annexb::split(annexb@);
    let mut out: Vec<Vec<u8>> = Vec::new();
    let mut k: usize = 0;
    proof {
        assert(annexb::scan(annexb@).len() == nals@.len());
        assert(list.take(0) =~= Seq::empty());
        assert(bytes::contents(out@) =~= gathered(list.take(0), codec, uuid@));
    }
    while k < nals.len()
        invariant
            k <= nals@.len(),
            annexb::places(nals@) == annexb::scan(annexb@),
            list == annexb::split(annexb@),
            list.len() == nals@.len(),
            bytes::contents(out@) == gathered(list.take(k as int), codec, uuid@),
        decreases nals.len() - k,
    {
        proof {
            assert(annexb::scan(annexb@)[k as int] == nals@[k as int]@);
            assert(list[k as int] == nals@[k as int].bytes@);
            assert(list.take(k + 1).drop_last() =~= list.take(k as int));
        }
        extend_payloads(&mut out, user_data_in_nal(nals[k].bytes, codec, uuid));
        k += 1;
    }
    assert(list.take(k as int) =~= list);
    out
}

/// Every payload opened by `uuid` in a length-prefixed sample.
pub fn user_data_length_prefixed(
    sample: &[u8],
    length_size: usize,
    codec: Codec,
    uuid: &[u8; 16],
) -> (out: Result<Vec<Vec<u8>>, Error>)
    ensures
        payloads_result(out) == (match annexb::sample_nals(sample@, length_size as int) {
            Ok(nals) => Ok::<Seq<Seq<u8>>, Error>(gathered(nals, codec, uuid@)),
            Err(e) => Err(e),
        }),
{
    let nals: Vec<&[u8]> = match split_length_prefixed(sample, length_size) {
        Ok(nals) => nals,
        Err(e) => {
            return Err(e);
        },
    };
    let ghost list = bytes::slice_contents(nals@);
    let mut out: Vec<Vec<u8>> = Vec::new();
    let mut k: usize = 0;
    proof {
        assert(list.take(0) =~= Seq::empty());
        assert(bytes::contents(out@) =~= gathered(list.take(0), codec, uuid@));
    }
    while k < nals.len()
        invariant
            k <= nals@.len(),
            list == bytes::slice_contents(nals@),
            bytes::contents(out@) == gathered(list.take(k as int), codec, uuid@),
        decreases nals.len() - k,
    {
        assert(list[k as int] == nals@[k as int]@);
        assert(list.take(k + 1).drop_last() =~= list.take(k as int));
        extend_payloads(&mut out, user_data_in_nal(nals[k], codec, uuid));
        k += 1;
    }
    assert(list.take(k as int) =~= list);
    Ok(out)
}

/// An Annex B access unit with `sei` spliced in before its first coded
/// slice.
///
/// The bytes on either side are copied through untouched, so a stream
/// written this way differs from the one that went in only by the NALs
/// added.
pub fn insert_sei_annexb(au: &[u8], sei: &[u8], codec: Codec) -> (out: Result<Vec<u8>, Error>)
    ensures
        annexb::bytes_result(out) == spliced(au@, sei@, codec),
{
    let units: Vec<AccessUnit> = access_units(au, codec);
    let ghost found = h26x::units(au@, codec);
    assert(found.len() == units@.len());
    if units.len() == 0 {
        return Err(Error::Malformed { what: "the bytes hold no access unit", at: 0 });
    }
    assert(found[0] == units@[0]@);
    let at: usize = units[0].insert_at;
    let mut out: Vec<u8> = Vec::with_capacity(au.len());
    bytes::append(&mut out, slice_subrange(au, 0, at));
    bytes::append(&mut out, &START_CODE);
    bytes::append(&mut out, sei);
    bytes::append(&mut out, slice_subrange(au, at, au.len()));
    assert(out@ =~= au@.take(at as int) + START_CODE@ + sei@ + au@.skip(at as int));
    Ok(out)
}

/// The first coded slice of a list of NAL units, or how many there are.
pub(crate) fn find_slice(nals: &Vec<&[u8]>, codec: Codec) -> (k: usize)
    ensures
        k == h26x::first_slice(
            codec,
            bytes::slice_contents(nals@),
            0,
            nals@.len() as int,
        ),
        k <= nals@.len(),
{
    let ghost list = bytes::slice_contents(nals@);
    let mut k: usize = 0;
    while k < nals.len() && !codec.is_vcl(nals[k])
        invariant
            k <= nals@.len(),
            list == bytes::slice_contents(nals@),
            h26x::first_slice(codec, list, 0, list.len() as int) == h26x::first_slice(
                codec,
                list,
                k as int,
                list.len() as int,
            ),
        decreases nals.len() - k,
    {
        assert(list[k as int] == nals@[k as int]@);
        k += 1;
    }
    if k < nals.len() {
        assert(list[k as int] == nals@[k as int]@);
    }
    k
}

/// A length-prefixed sample with `sei` spliced in before its first
/// coded slice.
pub fn insert_sei_length_prefixed(
    sample: &[u8],
    sei: &[u8],
    length_size: usize,
    codec: Codec,
) -> (out: Result<Vec<u8>, Error>)
    ensures
        annexb::bytes_result(out) == sample_spliced(sample@, sei@, length_size as int, codec),
{
    let nals: Vec<&[u8]> = match split_length_prefixed(sample, length_size) {
        Ok(nals) => nals,
        Err(e) => {
            return Err(e);
        },
    };
    let ghost n = length_size as nat;
    let ghost list = bytes::slice_contents(nals@);
    proof {
        crate::annexb_laws::length_prefixes_undo_sample(sample@, length_size as int);
    }
    let at: usize = find_slice(&nals, codec);
    let ghost woven = list.take(at as int) + seq![sei@] + list.skip(at as int);
    let mut out: Vec<u8> = Vec::with_capacity(sample.len());
    let mut k: usize = 0;
    assert(list.take(0) =~= Seq::empty());
    while k < at
        invariant
            k <= at <= nals@.len(),
            annexb::width_ok(length_size as int),
            n == length_size as nat,
            list == bytes::slice_contents(nals@),
            forall|i: int| 0 <= i < list.len() ==> (#[trigger] list[i]).len() < bytes::capacity(n),
            out@ == annexb::prefixed(list.take(k as int), n),
        decreases at - k,
    {
        let here: usize = out.len();
        assert(list[k as int] == nals@[k as int]@);
        match put_length(&mut out, nals[k].len(), length_size, here) {
            Ok(()) => {},
            Err(e) => {
                return Err(e);
            },
        }
        bytes::append(&mut out, nals[k]);
        proof {
            annexb::lemma_prefixed_push(list.take(k as int), list[k as int], n);
            assert(list.take(k + 1) =~= list.take(k as int).push(list[k as int]));
        }
        k += 1;
    }
    let here: usize = out.len();
    match put_length(&mut out, sei.len(), length_size, here) {
        Ok(()) => {},
        Err(e) => {
            return Err(e);
        },
    }
    bytes::append(&mut out, sei);
    proof {
        annexb::lemma_prefixed_push(list.take(at as int), sei@, n);
        assert(woven.take(at + 1) =~= list.take(at as int).push(sei@));
    }
    while k < nals.len()
        invariant
            at <= k <= nals@.len(),
            annexb::width_ok(length_size as int),
            n == length_size as nat,
            list == bytes::slice_contents(nals@),
            woven == list.take(at as int) + seq![sei@] + list.skip(at as int),
            forall|i: int| 0 <= i < list.len() ==> (#[trigger] list[i]).len() < bytes::capacity(n),
            out@ == annexb::prefixed(woven.take(k + 1), n),
        decreases nals.len() - k,
    {
        let here: usize = out.len();
        assert(list[k as int] == nals@[k as int]@);
        match put_length(&mut out, nals[k].len(), length_size, here) {
            Ok(()) => {},
            Err(e) => {
                return Err(e);
            },
        }
        bytes::append(&mut out, nals[k]);
        proof {
            annexb::lemma_prefixed_push(woven.take(k + 1), list[k as int], n);
            assert(woven.take(k + 2) =~= woven.take(k + 1).push(list[k as int]));
        }
        k += 1;
    }
    assert(woven.take(k + 1) =~= woven);
    Ok(out)
}

} // verus!
