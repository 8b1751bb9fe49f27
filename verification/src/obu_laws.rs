//! What holds of OBUs as a whole: numbers and metadata written are what
//! is read back, streams can be cut and joined between OBUs, and a
//! metadata OBU put into a temporal unit is found there again.

use vstd::prelude::*;
use crate::bytes;
use crate::marks;
use crate::obu;
use crate::obu::{Leb, Obu};
use crate::Error;

verus! {

/// A number that fits `room` leb128 bytes is read back from the bytes it
/// is written as, whatever follows them.
pub proof fn leb128_round_trips(value: nat, room: nat, rest: Seq<u8>)
    requires
        room > 0,
        value < obu::leb_capacity(room),
    ensures
        obu::leb(obu::leb_bytes(value) + rest, room) == Leb::Value(
            value,
            obu::leb_bytes(value).len(),
        ),
        1 <= obu::leb_bytes(value).len() <= room,
    decreases room,
{
    let all = obu::leb_bytes(value) + rest;
    if value < 128 {
        assert(all[0] == value as u8);
    } else {
        assert(room > 1) by {
            reveal_with_fuel(obu::leb_capacity, 2);
        }
        leb128_round_trips(value / 128, (room - 1) as nat, rest);
        assert(all[0] == (128 + value % 128) as u8);
        assert(all.drop_first() =~= obu::leb_bytes(value / 128) + rest);
    }
}

/// No spelling of a number is shorter than the one that is written.
pub proof fn leb128_is_written_in_fewest_bytes(s: Seq<u8>, room: nat)
    ensures
        obu::leb(s, room) matches Leb::Value(value, n) ==> obu::leb_bytes(value).len() <= n,
    decreases room,
{
    if room > 0 && s.len() > 0 && s[0] >= 128 {
        leb128_is_written_in_fewest_bytes(s.drop_first(), (room - 1) as nat);
        if let Leb::Value(value, n) = obu::leb(s.drop_first(), (room - 1) as nat) {
            let all = (s[0] - 128 + 128 * value) as nat;
            assert(all / 128 == value);
            if all >= 128 {
                assert(obu::leb_bytes(all).len() == 1 + obu::leb_bytes(value).len());
            }
        }
    }
}

/// A number that ends in the bytes it was read from reads the same in
/// longer bytes and in any prefix that holds all of it.
pub proof fn lemma_leb_prefix(s: Seq<u8>, t: Seq<u8>, room: nat)
    requires
        obu::leb(s, room) is Value,
        obu::leb(s, room)->Value_1 <= t.len(),
        forall|i: int| 0 <= i < obu::leb(s, room)->Value_1 ==> s[i] == t[i],
    ensures
        obu::leb(t, room) == obu::leb(s, room),
    decreases room,
{
    obu::lemma_leb(s, room);
    if s[0] >= 128 {
        let a = s.drop_first();
        let b = t.drop_first();
        assert forall|i: int| 0 <= i < obu::leb(a, (room - 1) as nat)->Value_1 implies a[i]
            == b[i] by {
            assert(s[i + 1] == t[i + 1]);
        }
        lemma_leb_prefix(a, b, (room - 1) as nat);
    }
}

/// An OBU moved by `d` bytes.
pub open spec fn shifted(o: Obu, d: int) -> Obu {
    Obu { start: o.start + d, end: o.end + d, ..o }
}

/// OBUs moved by `d` bytes.
pub open spec fn all_shifted(list: Seq<Obu>, d: int) -> Seq<Obu> {
    Seq::new(list.len(), |i: int| shifted(list[i], d))
}

/// An OBU that carries its size is read the same in any bytes that agree
/// with these up to its end.
pub proof fn lemma_obu_prefix(s: Seq<u8>, t: Seq<u8>, at: int)
    requires
        0 <= at < s.len(),
        obu::obu_at(s, at) is Ok,
        obu::has_size(s, at),
        obu::obu_at(s, at)->Ok_0.end <= t.len(),
        forall|i: int| at <= i < obu::obu_at(s, at)->Ok_0.end ==> s[i] == t[i],
    ensures
        obu::obu_at(t, at) == obu::obu_at(s, at),
{
    let o = obu::obu_at(s, at)->Ok_0;
    let from = obu::header_end(s, at);
    obu::lemma_obu_at(s, at);
    obu::lemma_leb(s.skip(from), 8);
    let n = obu::leb(s.skip(from), 8)->Value_1;
    assert(s[at] == t[at]);
    assert(from + n <= o.end);
    assert forall|i: int| 0 <= i < n implies s.skip(from)[i] == t.skip(from)[i] by {
        assert(s[from + i] == t[from + i]);
    }
    lemma_leb_prefix(s.skip(from), t.skip(from), 8);
    assert(t.subrange(from + n, o.end) =~= s.subrange(from + n, o.end));
}

/// An OBU is read the same when bytes are put before it.
pub proof fn lemma_obu_shift(s: Seq<u8>, d: int, at: int)
    requires
        0 <= d,
        0 <= at,
        d + at < s.len() <= usize::MAX,
        obu::obu_at(s.skip(d), at) is Ok || obu::obu_at(s, d + at) is Ok,
    ensures
        obu::obu_at(s.skip(d), at) is Ok,
        obu::obu_at(s, d + at) == Ok::<Obu, Error>(
            shifted(obu::obu_at(s.skip(d), at)->Ok_0, d),
        ),
{
    let t = s.skip(d);
    let from = obu::header_end(t, at);
    assert(t[at] == s[d + at]);
    if from <= t.len() {
        assert(t.skip(from) =~= s.skip(d + from));
        assert(t.subrange(from, t.len() as int) =~= s.subrange(d + from, s.len() as int));
        if let Leb::Value(size, n) = obu::leb(t.skip(from), 8) {
            if from + n + size <= t.len() {
                assert(t.subrange(from + n as int, from + n + size) =~= s.subrange(
                    d + from + n,
                    d + from + n + size,
                ));
            }
        }
    }
}

/// A stream from one of its OBUs on holds the OBUs from there on.
pub proof fn lemma_obus_suffix(s: Seq<u8>, d: int, at: int)
    requires
        0 <= d,
        0 <= at,
        d + at <= s.len() <= usize::MAX,
        obu::obus_from(s.skip(d), at) is Ok || obu::obus_from(s, d + at) is Ok,
    ensures
        obu::obus_from(s.skip(d), at) is Ok,
        obu::obus_from(s, d + at) == Ok::<Seq<Obu>, Error>(
            all_shifted(obu::obus_from(s.skip(d), at)->Ok_0, d),
        ),
    decreases s.len() - at,
{
    let t = s.skip(d);
    if d + at < s.len() {
        lemma_obu_shift(s, d, at);
        obu::lemma_obu_at(t, at);
        let o = obu::obu_at(t, at)->Ok_0;
        lemma_obus_suffix(s, d, o.end);
        let rest = obu::obus_from(t, o.end)->Ok_0;
        assert(all_shifted(seq![o] + rest, d) =~= seq![shifted(o, d)] + all_shifted(rest, d));
    } else {
        assert(all_shifted(Seq::empty(), d) =~= Seq::<Obu>::empty());
    }
}

/// Two streams put together hold the OBUs of both, when the first ends
/// with an OBU that carries its size.
pub proof fn lemma_obus_concat(a: Seq<u8>, b: Seq<u8>, at: int)
    requires
        0 <= at <= a.len(),
        a.len() + b.len() <= usize::MAX,
        obu::obus_from(a, at) is Ok,
        obu::obus_from(a, at)->Ok_0.len() > 0 ==> obu::has_size(
            a,
            obu::obus_from(a, at)->Ok_0.last().start,
        ),
        obu::obus(b) is Ok,
    ensures
        obu::obus_from(a + b, at) == Ok::<Seq<Obu>, Error>(
            obu::obus_from(a, at)->Ok_0 + all_shifted(obu::obus(b)->Ok_0, a.len() as int),
        ),
    decreases a.len() - at,
{
    let s = a + b;
    let list = obu::obus_from(a, at)->Ok_0;
    let more = all_shifted(obu::obus(b)->Ok_0, a.len() as int);
    if at == a.len() {
        assert(s.skip(at) =~= b);
        lemma_obus_suffix(s, at, 0);
        assert(list + more =~= more);
    } else {
        obu::lemma_obus(a, at);
        obu::lemma_obu_at(a, at);
        let o = obu::obu_at(a, at)->Ok_0;
        let rest = obu::obus_from(a, o.end)->Ok_0;
        assert(list[0] == o);
        assert(list.len() == 1 + rest.len());
        if rest.len() > 0 {
            assert(rest.last() == list.last());
        }
        lemma_obu_prefix(a, s, at);
        lemma_obus_concat(a, b, o.end);
        assert(seq![o] + (rest + more) =~= list + more);
    }
}

/// Where OBU `k` of a stream starts, or where the stream ends.
pub open spec fn start_of(list: Seq<Obu>, k: int, len: int) -> int {
    if k < list.len() {
        list[k].start
    } else {
        len
    }
}

proof fn lemma_obus_take(s: Seq<u8>, at: int, k: int)
    requires
        0 <= at <= s.len(),
        obu::obus_from(s, at) is Ok,
        0 <= k <= obu::obus_from(s, at)->Ok_0.len(),
    ensures
        obu::obus_from(
            s.take(start_of(obu::obus_from(s, at)->Ok_0, k, s.len() as int)),
            at,
        ) == Ok::<Seq<Obu>, Error>(obu::obus_from(s, at)->Ok_0.take(k)),
    decreases k,
{
    let list = obu::obus_from(s, at)->Ok_0;
    let p = start_of(list, k, s.len() as int);
    let t = s.take(p);
    obu::lemma_obus(s, at);
    if k == 0 {
        if list.len() > 0 {
            assert(list[0].start == at);
        }
        assert(list.take(0) =~= Seq::empty());
    } else {
        let o = obu::obu_at(s, at)->Ok_0;
        let rest = obu::obus_from(s, o.end)->Ok_0;
        obu::lemma_obu_at(s, at);
        obu::lemma_obus(s, o.end);
        assert(list[0] == o);
        assert(list.len() == 1 + rest.len());
        assert(list.drop_first() =~= rest);
        if k < list.len() {
            assert(list[k] == rest[k - 1]);
            assert(o.end <= rest[k - 1].start);
            assert(list[0].end == list[1].start);
            assert(obu::has_size(s, list[0].start));
            lemma_obu_prefix(s, t, at);
        } else {
            assert(t =~= s);
        }
        assert(p == start_of(rest, k - 1, s.len() as int));
        lemma_obus_take(s, o.end, k - 1);
        assert(list.take(k) =~= seq![o] + rest.take(k - 1));
    }
}

/// Cutting a stream between two OBUs cuts its OBUs there.
pub proof fn lemma_obus_cut(s: Seq<u8>, k: int)
    requires
        s.len() <= usize::MAX,
        obu::obus(s) is Ok,
        0 <= k <= obu::obus(s)->Ok_0.len(),
    ensures
        ({
            let list = obu::obus(s)->Ok_0;
            let p = start_of(list, k, s.len() as int);
            &&& 0 <= p <= s.len()
            &&& obu::obus(s.take(p)) == Ok::<Seq<Obu>, Error>(list.take(k))
            &&& obu::obus(s.skip(p)) == Ok::<Seq<Obu>, Error>(all_shifted(list.skip(k), -p))
        }),
{
    let list = obu::obus(s)->Ok_0;
    let p = start_of(list, k, s.len() as int);
    assert(0 <= p <= s.len()) by {
        obu::lemma_obus(s, 0);
        if k < list.len() {
            assert(list[k].start < list[k].end);
        }
    }
    lemma_obus_take(s, 0, k);
    lemma_obus_from(s, 0, k);
    lemma_obus_suffix(s, p, 0);
    let rest = obu::obus(s.skip(p))->Ok_0;
    let kept = list.skip(k);
    assert(all_shifted(rest, p) == kept);
    assert forall|i: int| 0 <= i < rest.len() implies rest[i] == #[trigger] all_shifted(
        kept,
        -p,
    )[i] by {
        assert(all_shifted(rest, p)[i] == kept[i]);
    }
    assert(rest =~= all_shifted(kept, -p));
}

/// The OBUs from the start of OBU `k` on are OBU `k` and those behind it.
pub proof fn lemma_obus_from(s: Seq<u8>, at: int, k: int)
    requires
        0 <= at <= s.len(),
        obu::obus_from(s, at) is Ok,
        0 <= k <= obu::obus_from(s, at)->Ok_0.len(),
    ensures
        obu::obus_from(s, start_of(obu::obus_from(s, at)->Ok_0, k, s.len() as int)) == Ok::<
            Seq<Obu>,
            Error,
        >(obu::obus_from(s, at)->Ok_0.skip(k)),
    decreases k,
{
    let list = obu::obus_from(s, at)->Ok_0;
    obu::lemma_obus(s, at);
    if k == 0 {
        if list.len() > 0 {
            assert(list[0].start == at);
        }
        assert(list.skip(0) =~= list);
    } else {
        let o = obu::obu_at(s, at)->Ok_0;
        let rest = obu::obus_from(s, o.end)->Ok_0;
        obu::lemma_obu_at(s, at);
        assert(list.drop_first() =~= rest);
        lemma_obus_from(s, o.end, k - 1);
        if k < list.len() {
            assert(list[k] == rest[k - 1]);
        }
        assert(list.skip(k) =~= rest.skip(k - 1));
    }
}

/// Reading undoes writing: a metadata OBU holds the payload it was
/// written with, whatever that ends in, under the type it was written
/// with.
pub proof fn metadata_reads_back(metadata_type: nat, payload: Seq<u8>)
    requires
        metadata_type < obu::leb_capacity(8),
        obu::metadata_body(metadata_type, payload).len() < obu::leb_capacity(8),
        obu::metadata_obu(metadata_type, payload).len() <= usize::MAX,
    ensures
        obu::obus(obu::metadata_obu(metadata_type, payload)) matches Ok(list) && list.len() == 1
            && list[0].kind == obu::OBU_METADATA && obu::metadata_in(list[0], metadata_type)
            == Some(payload),
        obu::has_size(obu::metadata_obu(metadata_type, payload), 0),
{
    let s = obu::metadata_obu(metadata_type, payload);
    let body = obu::metadata_body(metadata_type, payload);
    let size = obu::leb_bytes(body.len());
    let kind = obu::leb_bytes(metadata_type);
    assert(0x2au8 & 0x80 == 0 && 0x2au8 & 0x04 == 0 && 0x2au8 & 0x02 != 0 && 0x2au8 >> 3 & 0x0f
        == 5) by (bit_vector);
    assert(s[0] == 0x2a);
    assert(s.skip(1) =~= size + body);
    leb128_round_trips(body.len(), 8, body);
    let o = obu::obu_at(s, 0)->Ok_0;
    assert(obu::obu_at(s, 0) is Ok);
    assert(o.end == s.len());
    assert(o.payload =~= body);
    reveal_with_fuel(obu::obus_from, 2);
    assert(obu::obus(s) == Ok::<Seq<Obu>, Error>(seq![o] + Seq::empty()));
    let rest = payload.push(0x80);
    assert(body =~= kind + rest);
    leb128_round_trips(metadata_type, 8, rest);
    assert(body.skip(kind.len() as int) =~= rest);
    bytes::lemma_content_end_of_closed(payload);
    assert(rest.take(payload.len() as int) =~= payload);
}

/// A reader takes a metadata OBU whose writer left the trailing bits
/// off, and loses nothing of its payload. This is for a payload whose
/// last byte that is not zero is not `80`: one that ends in `80` and
/// zeroes is what a shorter payload with trailing bits is.
pub proof fn metadata_without_trailing_bits_reads_back(o: Obu, metadata_type: nat, payload: Seq<u8>)
    requires
        metadata_type < obu::leb_capacity(8),
        o.kind == obu::OBU_METADATA,
        o.payload == obu::leb_bytes(metadata_type) + payload,
        ({
            let end = bytes::zero_run(payload, payload.len() as int);
            end > 0 ==> payload[end - 1] != 0x80
        }),
    ensures
        obu::metadata_in(o, metadata_type) == Some(payload),
{
    let kind = obu::leb_bytes(metadata_type);
    leb128_round_trips(metadata_type, 8, payload);
    assert(o.payload.skip(kind.len() as int) =~= payload);
    assert(payload.take(payload.len() as int) =~= payload);
}

/// Where OBUs lie makes no difference to the metadata among them.
pub proof fn lemma_metadata_shifted(list: Seq<Obu>, d: int, metadata_type: nat)
    ensures
        obu::metadata_among(all_shifted(list, d), metadata_type) == obu::metadata_among(
            list,
            metadata_type,
        ),
    decreases list.len(),
{
    if list.len() > 0 {
        lemma_metadata_shifted(list.drop_last(), d, metadata_type);
        assert(all_shifted(list, d).drop_last() =~= all_shifted(list.drop_last(), d));
        assert(all_shifted(list, d).last() == shifted(list.last(), d));
    }
}

/// The metadata among two runs of OBUs is the metadata among each.
pub proof fn lemma_metadata_add(a: Seq<Obu>, b: Seq<Obu>, metadata_type: nat)
    ensures
        obu::metadata_among(a + b, metadata_type) == obu::metadata_among(a, metadata_type)
            + obu::metadata_among(b, metadata_type),
    decreases b.len(),
{
    if b.len() == 0 {
        assert(a + b =~= a);
        assert(obu::metadata_among(a, metadata_type) + obu::metadata_among(b, metadata_type)
            =~= obu::metadata_among(a, metadata_type));
    } else {
        lemma_metadata_add(a, b.drop_last(), metadata_type);
        assert((a + b).drop_last() =~= a + b.drop_last());
        assert(obu::metadata_among(a + b, metadata_type) =~= obu::metadata_among(a, metadata_type)
            + obu::metadata_among(b, metadata_type));
    }
}

/// The payloads under a UUID in two runs are those in each.
pub proof fn lemma_opened_add(a: Seq<Seq<u8>>, b: Seq<Seq<u8>>, uuid: Seq<u8>)
    ensures
        obu::opened_by(a + b, uuid) == obu::opened_by(a, uuid) + obu::opened_by(b, uuid),
    decreases b.len(),
{
    if b.len() == 0 {
        assert(a + b =~= a);
        assert(obu::opened_by(a, uuid) + obu::opened_by(b, uuid) =~= obu::opened_by(a, uuid));
    } else {
        lemma_opened_add(a, b.drop_last(), uuid);
        assert((a + b).drop_last() =~= a + b.drop_last());
        assert(obu::opened_by(a + b, uuid) =~= obu::opened_by(a, uuid) + obu::opened_by(b, uuid));
    }
}

/// The OBUs of one temporal unit, by itself.
pub proof fn lemma_unit_obus(s: Seq<u8>, m: int)
    requires
        s.len() <= usize::MAX,
        obu::units(s) is Ok,
        0 <= m < obu::units(s)->Ok_0.len(),
    ensures
        ({
            let list = obu::obus(s)->Ok_0;
            let open = obu::openings(list);
            let unit = obu::units(s)->Ok_0[m];
            obu::obus(s.subrange(unit.start, unit.end)) == Ok::<Seq<Obu>, Error>(
                all_shifted(
                    list.subrange(open[m], marks::next_of(open, m, list.len() as int)),
                    -list[open[m]].start,
                ),
            )
        }),
{
    let list = obu::obus(s)->Ok_0;
    let n = list.len() as int;
    let open = obu::openings(list);
    let unit = obu::units(s)->Ok_0[m];
    let i = open[m];
    let j = marks::next_of(open, m, n);
    marks::lemma_marks(obu::is_opening(list), n);
    obu::lemma_units(s);
    assert(unit.start < unit.end <= s.len());
    lemma_obus_cut(s, i);
    let t = s.skip(unit.start);
    let rest = all_shifted(list.skip(i), -unit.start);
    lemma_obus_cut(t, j - i);
    assert(start_of(rest, j - i, t.len() as int) == unit.end - unit.start) by {
        if j < n {
            assert(rest[j - i] == shifted(list[j], -unit.start));
        }
    }
    assert(t.take(unit.end - unit.start) =~= s.subrange(unit.start, unit.end));
    assert(rest.take(j - i) =~= all_shifted(list.subrange(i, j), -unit.start));
}

/// A temporal unit takes a metadata OBU between two OBUs or at its end.
pub open spec fn insert_index(list: Seq<Obu>) -> int {
    let open = obu::openings(list);
    obu::first_frame(list, open[0], marks::next_of(open, 0, list.len() as int))
}

/// The place where a stream's first temporal unit takes a metadata OBU
/// is the start of an OBU or the end of the stream.
pub proof fn lemma_insert_index(s: Seq<u8>)
    requires
        obu::units(s) is Ok,
        obu::units(s)->Ok_0.len() > 0,
    ensures
        ({
            let list = obu::obus(s)->Ok_0;
            &&& 0 <= insert_index(list) <= list.len()
            &&& obu::units(s)->Ok_0[0].insert_at == start_of(
                list,
                insert_index(list),
                s.len() as int,
            )
        }),
{
    let list = obu::obus(s)->Ok_0;
    let open = obu::openings(list);
    marks::lemma_marks(obu::is_opening(list), list.len() as int);
    let i = open[0];
    let j = marks::next_of(open, 0, list.len() as int);
    assert(0 <= i < j <= list.len());
    obu::lemma_first_frame(list, i, j);
}

/// Bytes that are OBUs of their own, put between two OBUs of a stream,
/// are those OBUs more; no other changes.
pub proof fn lemma_obus_weave(s: Seq<u8>, k: int, one: Seq<u8>)
    requires
        obu::obus(s) is Ok,
        0 <= k <= obu::obus(s)->Ok_0.len(),
        0 < k == obu::obus(s)->Ok_0.len() ==> obu::has_size(s, obu::obus(s)->Ok_0.last().start),
        obu::obus(one) is Ok,
        obu::obus(one)->Ok_0.len() == 1,
        obu::has_size(one, 0),
        s.len() + one.len() <= usize::MAX,
    ensures
        ({
            let list = obu::obus(s)->Ok_0;
            let at = start_of(list, k, s.len() as int);
            obu::obus(s.take(at) + one + s.skip(at)) == Ok::<Seq<Obu>, Error>(
                list.take(k) + all_shifted(obu::obus(one)->Ok_0, at) + all_shifted(
                    list.skip(k),
                    one.len() as int,
                ),
            )
        }),
{
    let list = obu::obus(s)->Ok_0;
    let at = start_of(list, k, s.len() as int);
    let a = s.take(at);
    let b = s.skip(at);
    let first = list.take(k);
    let ones = obu::obus(one)->Ok_0;
    let both = a + one;
    let list_both = first + all_shifted(ones, at);
    lemma_obus_cut(s, k);
    assert(first.len() > 0 ==> obu::has_size(a, first.last().start)) by {
        obu::lemma_obus(s, 0);
        if k > 0 {
            assert(first.last() == list[k - 1]);
            assert(list[k - 1].start < list[k - 1].end);
            if k < list.len() {
                assert(list[k - 1].end == list[k].start);
            }
            assert(a[list[k - 1].start] == s[list[k - 1].start]);
        }
    }
    lemma_obus_concat(a, one, 0);
    assert(obu::obus(both) == Ok::<Seq<Obu>, Error>(list_both));
    assert(list_both.last().start == at && both[at] == one[0]) by {
        obu::lemma_obus(one, 0);
        assert(ones[0].start == 0);
    }
    lemma_obus_concat(both, b, 0);
    assert(all_shifted(all_shifted(list.skip(k), -at), both.len() as int) =~= all_shifted(
        list.skip(k),
        one.len() as int,
    ));
}

/// A metadata OBU put into a temporal unit is one OBU more, between
/// those before its place and those behind; no other changes.
///
/// A stream whose last OBU carries no size runs to its end and swallows
/// whatever is put behind it, so such a stream takes one only before
/// that OBU.
pub proof fn inserting_adds_one_obu(s: Seq<u8>, metadata_type: nat, payload: Seq<u8>)
    requires
        obu::units(s) is Ok,
        obu::units(s)->Ok_0.len() > 0,
        obu::units(s)->Ok_0[0].insert_at < s.len() || obu::has_size(
            s,
            obu::obus(s)->Ok_0.last().start,
        ),
        metadata_type < obu::leb_capacity(8),
        obu::metadata_body(metadata_type, payload).len() < obu::leb_capacity(8),
        s.len() + obu::metadata_obu(metadata_type, payload).len() <= usize::MAX,
    ensures
        ({
            let list = obu::obus(s)->Ok_0;
            let k = insert_index(list);
            let one = obu::metadata_obu(metadata_type, payload);
            let at = obu::units(s)->Ok_0[0].insert_at;
            &&& obu::spliced(s, one) == Ok::<Seq<u8>, Error>(s.take(at) + one + s.skip(at))
            &&& obu::obus(s.take(at) + one + s.skip(at)) == Ok::<Seq<Obu>, Error>(
                list.take(k) + all_shifted(obu::obus(one)->Ok_0, at) + all_shifted(
                    list.skip(k),
                    one.len() as int,
                ),
            )
        }),
{
    let list = obu::obus(s)->Ok_0;
    let k = insert_index(list);
    let one = obu::metadata_obu(metadata_type, payload);
    lemma_insert_index(s);
    metadata_reads_back(metadata_type, payload);
    lemma_obus_weave(s, k, one);
}

/// A payload put between two OBUs of a stream is found there: what was
/// found before its place, the payload, what was found behind.
pub proof fn lemma_found_woven(
    s: Seq<u8>,
    k: int,
    metadata_type: nat,
    payload: Seq<u8>,
    uuid: Seq<u8>,
)
    requires
        obu::obus(s) is Ok,
        0 <= k <= obu::obus(s)->Ok_0.len(),
        0 < k == obu::obus(s)->Ok_0.len() ==> obu::has_size(s, obu::obus(s)->Ok_0.last().start),
        metadata_type < obu::leb_capacity(8),
        obu::metadata_body(metadata_type, payload).len() < obu::leb_capacity(8),
        s.len() + obu::metadata_obu(metadata_type, payload).len() <= usize::MAX,
        bytes::opens_with(payload, uuid),
    ensures
        ({
            let at = start_of(obu::obus(s)->Ok_0, k, s.len() as int);
            let one = obu::metadata_obu(metadata_type, payload);
            let out = s.take(at) + one + s.skip(at);
            let before = obu::opened_by(obu::metadata_found(s.take(at), metadata_type), uuid);
            let behind = obu::opened_by(obu::metadata_found(s.skip(at), metadata_type), uuid);
            &&& obu::opened_by(obu::metadata_found(s, metadata_type), uuid) == before + behind
            &&& obu::opened_by(obu::metadata_found(out, metadata_type), uuid) == before
                + seq![payload] + behind
        }),
{
    let list = obu::obus(s)->Ok_0;
    let at = start_of(list, k, s.len() as int);
    let one = obu::metadata_obu(metadata_type, payload);
    let t = metadata_type;
    lemma_obus_cut(s, k);
    metadata_reads_back(t, payload);
    lemma_obus_weave(s, k, one);
    let a = list.take(k);
    let b = list.skip(k);
    let ones = obu::obus(one)->Ok_0;
    assert(a + b =~= list);
    lemma_metadata_add(a, b, t);
    lemma_metadata_shifted(b, -at, t);
    lemma_metadata_shifted(b, one.len() as int, t);
    lemma_metadata_shifted(ones, at, t);
    reveal_with_fuel(obu::metadata_among, 2);
    assert(ones.drop_last() =~= Seq::empty());
    assert(obu::metadata_among(ones, t) =~= seq![payload]);
    lemma_metadata_add(a, all_shifted(ones, at), t);
    lemma_metadata_add(a + all_shifted(ones, at), all_shifted(b, one.len() as int), t);
    let before = obu::metadata_among(a, t);
    let behind = obu::metadata_among(b, t);
    lemma_opened_add(before, behind, uuid);
    lemma_opened_add(before, seq![payload], uuid);
    lemma_opened_add(before + seq![payload], behind, uuid);
    reveal_with_fuel(obu::opened_by, 2);
    assert(seq![payload].drop_last() =~= Seq::empty());
    assert(obu::opened_by(seq![payload], uuid) =~= seq![payload]);
}

/// A payload put into a temporal unit is found there again: what was
/// found before its place, the payload, what was found behind.
pub proof fn inserted_payload_is_found(
    s: Seq<u8>,
    metadata_type: nat,
    payload: Seq<u8>,
    uuid: Seq<u8>,
)
    requires
        obu::units(s) is Ok,
        obu::units(s)->Ok_0.len() > 0,
        obu::units(s)->Ok_0[0].insert_at < s.len() || obu::has_size(
            s,
            obu::obus(s)->Ok_0.last().start,
        ),
        metadata_type < obu::leb_capacity(8),
        obu::metadata_body(metadata_type, payload).len() < obu::leb_capacity(8),
        s.len() + obu::metadata_obu(metadata_type, payload).len() <= usize::MAX,
        bytes::opens_with(payload, uuid),
    ensures
        ({
            let at = obu::units(s)->Ok_0[0].insert_at;
            let one = obu::metadata_obu(metadata_type, payload);
            let before = obu::opened_by(obu::metadata_found(s.take(at), metadata_type), uuid);
            let behind = obu::opened_by(obu::metadata_found(s.skip(at), metadata_type), uuid);
            &&& obu::opened_by(obu::metadata_found(s, metadata_type), uuid) == before + behind
            &&& obu::spliced(s, one) matches Ok(out) && obu::opened_by(
                obu::metadata_found(out, metadata_type),
                uuid,
            ) == before + seq![payload] + behind
        }),
{
    lemma_insert_index(s);
    lemma_found_woven(s, insert_index(obu::obus(s)->Ok_0), metadata_type, payload, uuid);
}

} // verus!
