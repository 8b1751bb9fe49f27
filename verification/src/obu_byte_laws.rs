//! What OBUs and temporal units are, in bytes and by offset.

use vstd::prelude::*;
use crate::bytes;
use crate::marks;
use crate::obu;
use crate::obu::{Leb, Obu, ObuRef, TemporalUnit};
use crate::obu_laws;
use crate::Error;

verus! {

/// The number that the first `n` bytes spell, seven bits to the byte and
/// the least significant first.
spec fn digits(s: Seq<u8>, n: nat) -> nat
    decreases n,
{
    if n == 0 {
        0
    } else {
        s[0] as nat % 128 + 128 * digits(s.drop_first(), (n - 1) as nat)
    }
}

proof fn lemma_leb_digits(s: Seq<u8>, room: nat)
    ensures
        obu::leb(s, room) matches Leb::Value(value, n) ==> {
            &&& 1 <= n <= s.len() && n <= room
            &&& value == digits(s, n)
            &&& s[n - 1] < 128
            &&& forall|i: int| 0 <= i < n - 1 ==> s[i] >= 128
        },
        obu::leb(s, room) is Short ==> s.len() < room && forall|i: int|
            0 <= i < s.len() ==> s[i] >= 128,
        obu::leb(s, room) is Long ==> s.len() >= room && forall|i: int|
            0 <= i < room ==> s[i] >= 128,
    decreases room,
{
    if room > 0 && s.len() > 0 {
        let rest = s.drop_first();
        lemma_leb_digits(rest, (room - 1) as nat);
        if s[0] < 128 {
            reveal_with_fuel(digits, 2);
        } else {
            assert(s[0] as nat % 128 == s[0] - 128);
            assert forall|i: int| 1 <= i < s.len() implies s[i] == rest[i - 1] by {}
        }
    }
}

/// What a leb128 number of at most eight bytes is: every byte of it but
/// the last is at least 128 and the last is less, and the number is the
/// sum of what the bytes are above a multiple of 128, each times 128 to
/// the power of how many bytes come before it. Bytes that end before it
/// does are all at least 128, and so are the first eight of one that is
/// too long.
pub proof fn leb128_in_bytes(s: Seq<u8>)
    ensures
        obu::leb(s, 8) matches Leb::Value(value, n) ==> {
            &&& 1 <= n <= 8 && n <= s.len()
            &&& s[n - 1] < 128
            &&& forall|i: int| 0 <= i < n - 1 ==> s[i] >= 128
            &&& value == s[0] as int % 128 + (if n > 1 {
                s[1] as int % 128 * 0x80
            } else {
                0
            }) + (if n > 2 {
                s[2] as int % 128 * 0x4000
            } else {
                0
            }) + (if n > 3 {
                s[3] as int % 128 * 0x20_0000
            } else {
                0
            }) + (if n > 4 {
                s[4] as int % 128 * 0x1000_0000
            } else {
                0
            }) + (if n > 5 {
                s[5] as int % 128 * 0x8_0000_0000
            } else {
                0
            }) + (if n > 6 {
                s[6] as int % 128 * 0x400_0000_0000
            } else {
                0
            }) + (if n > 7 {
                s[7] as int % 128 * 0x2_0000_0000_0000
            } else {
                0
            })
        },
        obu::leb(s, 8) is Short <==> s.len() < 8 && forall|i: int|
            0 <= i < s.len() ==> s[i] >= 128,
        obu::leb(s, 8) is Long <==> s.len() >= 8 && forall|i: int| 0 <= i < 8 ==> s[i] >= 128,
{
    lemma_leb_digits(s, 8);
    if let Leb::Value(value, n) = obu::leb(s, 8) {
        lemma_digits(s, n);
        assert(s[n - 1] < 128);
    }
}

proof fn lemma_digits(s: Seq<u8>, n: nat)
    requires
        1 <= n <= 8,
        n <= s.len(),
    ensures
        digits(s, n) == s[0] as int % 128 + (if n > 1 {
            s[1] as int % 128 * 0x80
        } else {
            0
        }) + (if n > 2 {
            s[2] as int % 128 * 0x4000
        } else {
            0
        }) + (if n > 3 {
            s[3] as int % 128 * 0x20_0000
        } else {
            0
        }) + (if n > 4 {
            s[4] as int % 128 * 0x1000_0000
        } else {
            0
        }) + (if n > 5 {
            s[5] as int % 128 * 0x8_0000_0000
        } else {
            0
        }) + (if n > 6 {
            s[6] as int % 128 * 0x400_0000_0000
        } else {
            0
        }) + (if n > 7 {
            s[7] as int % 128 * 0x2_0000_0000_0000
        } else {
            0
        }),
{
    let a = s.drop_first();
    let b = a.drop_first();
    let c = b.drop_first();
    let d = c.drop_first();
    let e = d.drop_first();
    let f = e.drop_first();
    let g = f.drop_first();
    reveal_with_fuel(digits, 9);
    assert(n > 1 ==> a[0] == s[1]);
    assert(n > 2 ==> b[0] == s[2]);
    assert(n > 3 ==> c[0] == s[3]);
    assert(n > 4 ==> d[0] == s[4]);
    assert(n > 5 ==> e[0] == s[5]);
    assert(n > 6 ==> f[0] == s[6]);
    assert(n > 7 ==> g[0] == s[7]);
}

/// What a leb128 is written as: byte `i` is 128 below what it is unless
/// it is the last, and less that it is what the number divided by 128 to
/// the power `i` is above a multiple of 128. There are as many bytes as
/// the number needs.
pub proof fn leb128_is_written_in_bytes(value: nat)
    ensures
        ({
            let out = obu::leb_bytes(value);
            let n = out.len();
            &&& n >= 1
            &&& out[n - 1] < 128
            &&& forall|i: int| 0 <= i < n - 1 ==> out[i] >= 128
            &&& n > 1 ==> out[n - 1] > 0
            &&& out[0] as int % 128 == value % 128
            &&& n > 1 ==> out[1] as int % 128 == value / 0x80 % 128
            &&& n > 2 ==> out[2] as int % 128 == value / 0x4000 % 128
            &&& n > 3 ==> out[3] as int % 128 == value / 0x20_0000 % 128
            &&& n > 4 ==> out[4] as int % 128 == value / 0x1000_0000 % 128
            &&& n > 5 ==> out[5] as int % 128 == value / 0x8_0000_0000 % 128
            &&& n > 6 ==> out[6] as int % 128 == value / 0x400_0000_0000 % 128
            &&& n > 7 ==> out[7] as int % 128 == value / 0x2_0000_0000_0000 % 128
            &&& n > 8 ==> out[8] as int % 128 == value / 0x100_0000_0000_0000 % 128
            &&& n > 9 ==> out[9] as int % 128 == value / 0x8000_0000_0000_0000 % 128
            &&& n > 1 <==> value >= 0x80
            &&& n > 2 <==> value >= 0x4000
            &&& n > 3 <==> value >= 0x20_0000
            &&& n > 4 <==> value >= 0x1000_0000
            &&& n > 5 <==> value >= 0x8_0000_0000
            &&& n > 6 <==> value >= 0x400_0000_0000
            &&& n > 7 <==> value >= 0x2_0000_0000_0000
            &&& n > 8 <==> value >= 0x100_0000_0000_0000
            &&& n > 9 <==> value >= 0x8000_0000_0000_0000
        }),
{
    lemma_leb_bytes(value);
    assert(obu::leb_capacity(0) == 1 && obu::leb_capacity(1) == 0x80 && obu::leb_capacity(2)
        == 0x4000 && obu::leb_capacity(3) == 0x20_0000 && obu::leb_capacity(4) == 0x1000_0000
        && obu::leb_capacity(5) == 0x8_0000_0000 && obu::leb_capacity(6) == 0x400_0000_0000
        && obu::leb_capacity(7) == 0x2_0000_0000_0000 && obu::leb_capacity(8)
        == 0x100_0000_0000_0000 && obu::leb_capacity(9) == 0x8000_0000_0000_0000) by {
        reveal_with_fuel(obu::leb_capacity, 10);
    }
    lemma_leb_at(value, 0);
    lemma_leb_at(value, 1);
    lemma_leb_at(value, 2);
    lemma_leb_at(value, 3);
    lemma_leb_at(value, 4);
    lemma_leb_at(value, 5);
    lemma_leb_at(value, 6);
    lemma_leb_at(value, 7);
    lemma_leb_at(value, 8);
    lemma_leb_at(value, 9);
}

/// Byte `i` of a leb128, and whether there is one.
proof fn lemma_leb_at(value: nat, i: nat)
    ensures
        obu::leb_capacity(i) > 0,
        i < obu::leb_bytes(value).len() <==> i == 0 || value >= obu::leb_capacity(i),
        i < obu::leb_bytes(value).len() ==> obu::leb_bytes(value)[i as int] as int % 128 == value
            / obu::leb_capacity(i) % 128,
    decreases i,
{
    let out = obu::leb_bytes(value);
    obu::lemma_leb_capacity(i);
    if i == 0 {
        if value >= 128 {
            assert(out[0] == (128 + value % 128) as u8);
        }
    } else {
        let less = (i - 1) as nat;
        let c = obu::leb_capacity(less);
        obu::lemma_leb_capacity(less);
        lemma_leb_at(value / 128, less);
        assert(obu::leb_capacity(i) == 128 * c);
        assert(value / 128 >= c <==> value >= 128 * c) by (nonlinear_arith);
        if value >= 128 {
            let rest = obu::leb_bytes(value / 128);
            assert(out =~= seq![(128 + value % 128) as u8] + rest);
            vstd::arithmetic::div_mod::lemma_div_denominator(value as int, 128, c as int);
            if i < out.len() {
                assert(out[i as int] == rest[i - 1]);
            }
        }
    }
}

proof fn lemma_leb_bytes(value: nat)
    ensures
        ({
            let out = obu::leb_bytes(value);
            &&& out.len() >= 1
            &&& out[out.len() - 1] < 128
            &&& forall|i: int| 0 <= i < out.len() - 1 ==> out[i] >= 128
            &&& out.len() > 1 ==> out[out.len() - 1] > 0
        }),
    decreases value,
{
    if value >= 128 {
        lemma_leb_bytes(value / 128);
        let out = obu::leb_bytes(value);
        let rest = obu::leb_bytes(value / 128);
        assert(out =~= seq![(128 + value % 128) as u8] + rest);
        assert(out[0] == (128 + value % 128) as u8);
        assert(out[out.len() - 1] == rest[rest.len() - 1]);
        assert forall|i: int| 0 <= i < out.len() - 1 implies out[i] >= 128 by {
            if i > 0 {
                assert(out[i] == rest[i - 1]);
            }
        }
        if rest.len() == 1 {
            assert(value / 128 < 128) by {
                if value / 128 >= 128 {
                    lemma_leb_bytes(value / 128 / 128);
                }
            }
            assert(rest[0] == (value / 128) as u8);
        }
    }
}

/// The bits of a byte that an OBU header is made of, as arithmetic.
proof fn lemma_bits(h: u8)
    ensures
        (h & 0x80 != 0) == (h >= 0x80),
        h >> 3 & 0x0f == h / 8 % 16,
        (h & 0x04 != 0) == (h / 4 % 2 == 1),
        (h & 0x02 != 0) == (h / 2 % 2 == 1),
{
    assert((h & 0x80 != 0) == (h >= 0x80)) by (bit_vector);
    assert(h >> 3 & 0x0f == h / 8 % 16) by (bit_vector);
    assert((h & 0x04 != 0) == (h / 4 % 2 == 1)) by (bit_vector);
    assert((h & 0x02 != 0) == (h / 2 % 2 == 1)) by (bit_vector);
}

/// What an OBU is, in bytes. The first byte of its header is less than
/// 128, and in it an eighth is the type, of four bits; a quarter is odd
/// where one byte of extension follows; and a half is odd where the size
/// of the payload follows. An OBU without a size runs to the end.
pub proof fn an_obu_in_bytes(
    before: Seq<u8>,
    h: u8,
    extension: u8,
    payload: Seq<u8>,
    behind: Seq<u8>,
)
    requires
        payload.len() < 0x100_0000_0000_0000,
    ensures
        ({
            let at = before.len() as int;
            let head = if h / 4 % 2 == 1 {
                seq![h, extension]
            } else {
                seq![h]
            };
            let size = obu::leb_bytes(payload.len());
            let sized = before + head + size + payload + behind;
            let unsized_ = before + head + payload;
            &&& h >= 0x80 ==> obu::obu_at(sized, at) == Err::<Obu, Error>(
                Error::Malformed { what: "an OBU with its forbidden bit set", at: at as usize },
            )
            &&& h < 0x80 && h / 2 % 2 == 1 && sized.len() <= usize::MAX ==> obu::obu_at(sized, at)
                == Ok::<Obu, Error>(
                Obu {
                    kind: (h / 8 % 16) as u8,
                    start: at,
                    end: sized.len() - behind.len(),
                    payload,
                    has_extension: h / 4 % 2 == 1,
                },
            )
            &&& h < 0x80 && h / 2 % 2 == 0 ==> obu::obu_at(unsized_, at) == Ok::<Obu, Error>(
                Obu {
                    kind: (h / 8 % 16) as u8,
                    start: at,
                    end: unsized_.len() as int,
                    payload,
                    has_extension: h / 4 % 2 == 1,
                },
            )
            &&& h / 2 % 2 == 1 <==> obu::has_size(sized, at)
        }),
{
    let at = before.len() as int;
    let head = if h / 4 % 2 == 1 {
        seq![h, extension]
    } else {
        seq![h]
    };
    let size = obu::leb_bytes(payload.len());
    let s = before + head + size + payload + behind;
    let u = before + head + payload;
    let from = at + head.len();
    lemma_bits(h);
    assert(s[at] == h && u[at] == h);
    obu::lemma_leb_capacity_is(8);
    obu_laws::leb128_round_trips(payload.len(), 8, payload + behind);
    assert(s.skip(from) =~= size + (payload + behind));
    assert(s.subrange(from + size.len(), from + size.len() + payload.len()) =~= payload);
    assert(u.subrange(from, u.len() as int) =~= payload);
}

/// An OBU that ends early says where: its header without the extension
/// it promises, or a payload shorter than its size, at the header; a size
/// that does not end, or takes more than eight bytes, at the size; and
/// one whose end is past the last offset there is, at the header.
pub proof fn a_broken_obu_says_where(
    before: Seq<u8>,
    h: u8,
    extension: u8,
    size: nat,
    part: Seq<u8>,
)
    requires
        h < 0x80,
        h / 2 % 2 == 1,
        size < 0x100_0000_0000_0000,
        before.len() + 2 <= usize::MAX,
    ensures
        ({
            let at = before.len() as int;
            let head = if h / 4 % 2 == 1 {
                seq![h, extension]
            } else {
                seq![h]
            };
            let from = at + head.len();
            let sized = before + head + obu::leb_bytes(size) + part;
            &&& h / 4 % 2 == 1 ==> obu::obu_at(before.push(h), at) == Err::<Obu, Error>(
                Error::Truncated { at: at as usize },
            )
            &&& (part.len() < 8 && forall|i: int| 0 <= i < part.len() ==> part[i] >= 0x80)
                ==> obu::obu_at(before + head + part, at) == Err::<Obu, Error>(
                Error::Truncated { at: from as usize },
            )
            &&& (part.len() >= 8 && forall|i: int| 0 <= i < 8 ==> part[i] >= 0x80)
                ==> obu::obu_at(before + head + part, at) == Err::<Obu, Error>(
                Error::Malformed { what: "a leb128 longer than eight bytes", at: from as usize },
            )
            &&& part.len() < size ==> obu::obu_at(sized, at) == Err::<Obu, Error>(
                if from + obu::leb_bytes(size).len() + size > usize::MAX {
                    Error::TooLarge { at: at as usize }
                } else {
                    Error::Truncated { at: at as usize }
                },
            )
        }),
{
    let at = before.len() as int;
    let head = if h / 4 % 2 == 1 {
        seq![h, extension]
    } else {
        seq![h]
    };
    let from = at + head.len();
    let sized = before + head + obu::leb_bytes(size) + part;
    let cut = before + head + part;
    lemma_bits(h);
    assert(before.push(h)[at] == h);
    assert(sized[at] == h && cut[at] == h);
    assert(cut.skip(from) =~= part);
    leb128_in_bytes(part);
    obu::lemma_leb_capacity_is(8);
    obu_laws::leb128_round_trips(size, 8, part);
    assert(sized.skip(from) =~= obu::leb_bytes(size) + part);
}

/// A scan stops at the first OBU that is broken, with what is wrong with
/// it, whatever was whole before it.
pub proof fn a_scan_stops_at_the_first_broken_obu(a: Seq<u8>, b: Seq<u8>, at: int, e: Error)
    requires
        0 <= at <= a.len(),
        obu::obus_from(a, at) is Ok,
        obu::obus_from(a, at)->Ok_0.len() > 0 ==> obu::has_size(
            a,
            obu::obus_from(a, at)->Ok_0.last().start,
        ),
        b.len() > 0,
        obu::obu_at(a + b, a.len() as int) == Err::<Obu, Error>(e),
    ensures
        obu::obus_from(a + b, at) == Err::<Seq<Obu>, Error>(e),
    decreases a.len() - at,
{
    let s = a + b;
    if at < a.len() {
        let list = obu::obus_from(a, at)->Ok_0;
        let o = obu::obu_at(a, at)->Ok_0;
        let rest = obu::obus_from(a, o.end)->Ok_0;
        obu::lemma_obus(a, at);
        obu::lemma_obu_at(a, at);
        assert(list =~= seq![o] + rest);
        assert(list[0] == o);
        if rest.len() > 0 {
            assert(rest.last() == list.last());
        } else {
            assert(list.last() == o);
        }
        obu_laws::lemma_obu_prefix(a, s, at);
        a_scan_stops_at_the_first_broken_obu(a, b, o.end, e);
    }
}

/// What reading a leb128 answers: the number and where it ends, or where
/// it began and what is wrong with it; and at or past the end of the
/// bytes, that they end.
pub proof fn what_reading_a_leb128_answers(s: Seq<u8>, at: usize)
    ensures
        at >= s.len() ==> obu::leb_read(s, at as int) == Err::<(u64, usize), Error>(
            Error::Truncated { at },
        ),
        at < s.len() ==> match obu::leb(s.skip(at as int), 8) {
            Leb::Value(value, n) => obu::leb_read(s, at as int) == Ok::<(u64, usize), Error>(
                (value as u64, (at + n) as usize),
            ),
            Leb::Short => obu::leb_read(s, at as int) == Err::<(u64, usize), Error>(
                Error::Truncated { at },
            ),
            Leb::Long => obu::leb_read(s, at as int) == Err::<(u64, usize), Error>(
                Error::Malformed { what: "a leb128 longer than eight bytes", at },
            ),
        },
{
    if at == s.len() {
        assert(s.skip(at as int) =~= Seq::empty());
    }
}

/// Where an OBU goes in a stream: at the place of its first temporal
/// unit. A stream that does not parse is refused as it is when it is
/// read, and one of no temporal unit is refused.
pub proof fn an_obu_goes_in_at_its_place(s: Seq<u8>, one: Seq<u8>)
    ensures
        obu::obus(s) matches Err(e) ==> obu::spliced(s, one) == Err::<Seq<u8>, Error>(e),
        s.len() == 0 ==> obu::spliced(s, one) == Err::<Seq<u8>, Error>(
            Error::Malformed { what: "the bytes hold no temporal unit", at: 0 },
        ),
        s.len() > 0 && obu::obus(s) is Ok ==> {
            let at = obu::units(s)->Ok_0[0].insert_at;
            obu::units(s)->Ok_0.len() > 0 && obu::spliced(s, one) == Ok::<Seq<u8>, Error>(
                s.take(at) + one + s.skip(at),
            )
        },
{
    obu::lemma_units(s);
}

/// The types of OBUs that have a name, by number.
pub proof fn named_obus_by_number()
    ensures
        obu::OBU_SEQUENCE_HEADER == 1,
        obu::OBU_TEMPORAL_DELIMITER == 2,
        obu::OBU_FRAME_HEADER == 3,
        obu::OBU_TILE_GROUP == 4,
        obu::OBU_METADATA == 5,
        obu::OBU_FRAME == 6,
        obu::OBU_REDUNDANT_FRAME_HEADER == 7,
{
}

/// No bytes hold no OBUs.
pub proof fn no_bytes_hold_no_obus()
    ensures
        obu::obus(Seq::empty()) == Ok::<Seq<Obu>, Error>(Seq::empty()),
{
}

/// An OBU lies in the temporal unit whose opening comes last before it.
proof fn lemma_lies_in(s: Seq<u8>, i: int, k: int)
    requires
        obu::units(s) is Ok,
        0 <= k < obu::units(s)->Ok_0.len(),
        0 <= i < obu::obus(s)->Ok_0.len(),
    ensures
        ({
            let list = obu::obus(s)->Ok_0;
            let open = obu::openings(list);
            let j = marks::next_of(open, k, list.len() as int);
            let unit = obu::units(s)->Ok_0[k];
            &&& 0 <= open[k] < j <= list.len()
            &&& unit == obu::unit_between(list, open[k], j, s.len() as int)
            &&& unit.start <= list[i].start < unit.end <==> open[k] <= i < j
        }),
{
    let list = obu::obus(s)->Ok_0;
    let n = list.len() as int;
    let len = s.len() as int;
    let open = obu::openings(list);
    let j = marks::next_of(open, k, n);
    marks::lemma_marks(obu::is_opening(list), n);
    obu::lemma_obus(s, 0);
    assert(0 <= open[k] < j <= n);
    assert(list[i].start < list[i].end);
    if i < open[k] {
        obu::lemma_starts_in_order(list, 0, len, i, open[k]);
    } else if i > open[k] {
        obu::lemma_starts_in_order(list, 0, len, open[k], i);
        assert(list[open[k]].start < list[open[k]].end);
    }
    if j < n {
        if i < j {
            obu::lemma_starts_in_order(list, 0, len, i, j);
        } else if i > j {
            obu::lemma_starts_in_order(list, 0, len, j, i);
            assert(list[j].start < list[j].end);
        }
    }
}

/// OBUs lie one behind another: the first begins with the bytes, each
/// ends where the next begins, and the last ends with the bytes.
pub proof fn obus_by_offset(s: Seq<u8>, k: int)
    requires
        obu::obus(s) is Ok,
        0 <= k < obu::obus(s)->Ok_0.len(),
    ensures
        ({
            let list = obu::obus(s)->Ok_0;
            &&& list[0].start == 0
            &&& 0 <= list[k].start < list[k].end <= s.len()
            &&& list[k].end == if k + 1 < list.len() {
                list[k + 1].start
            } else {
                s.len() as int
            }
            &&& obu::obu_at(s, list[k].start) == Ok::<Obu, Error>(list[k])
        }),
{
    let list = obu::obus(s)->Ok_0;
    obu::lemma_obus(s, 0);
    if k + 1 < list.len() {
        assert(list[k].end == list[k + 1].start);
    } else {
        assert(list.last() == list[k]);
    }
}

/// What a temporal unit is, by offset. It begins with the first OBU of
/// the stream or with an OBU of type 2, and no other OBU in it is one. It
/// has a sequence header exactly where an OBU that begins in it, its
/// first too, is of type 1. It takes a metadata OBU where its first OBU
/// of type 3, 4, 6 or 7 begins, or at its end where it has none.
#[verifier::rlimit(40)]
pub proof fn temporal_units_by_offset(s: Seq<u8>, u: int)
    requires
        obu::units(s) is Ok,
        0 <= u < obu::units(s)->Ok_0.len(),
    ensures
        ({
            let list = obu::obus(s)->Ok_0;
            let unit = obu::units(s)->Ok_0[u];
            &&& u == 0 ==> unit.start == 0
            &&& 0 <= unit.start < unit.end
            &&& unit.end == if u + 1 < obu::units(s)->Ok_0.len() {
                obu::units(s)->Ok_0[u + 1].start
            } else {
                s.len() as int
            }
            &&& exists|k: int|
                0 <= k < list.len() && (#[trigger] list[k]).start == unit.start && (k == 0
                    || list[k].kind == 2)
            &&& forall|k: int|
                0 <= k < list.len() && unit.start < (#[trigger] list[k]).start < unit.end
                    ==> list[k].kind != 2
            &&& unit.has_sequence_header <==> exists|k: int|
                0 <= k < list.len() && unit.start <= (#[trigger] list[k]).start < unit.end
                    && list[k].kind == 1
            &&& forall|k: int|
                0 <= k < list.len() && unit.start <= (#[trigger] list[k]).start < unit.end && (
                list[k].kind == 3 || list[k].kind == 4 || list[k].kind == 6 || list[k].kind == 7)
                    ==> unit.insert_at <= list[k].start
            &&& unit.insert_at == unit.end || exists|k: int|
                0 <= k < list.len() && unit.start <= (#[trigger] list[k]).start < unit.end
                    && unit.insert_at == list[k].start && (list[k].kind == 3 || list[k].kind == 4
                    || list[k].kind == 6 || list[k].kind == 7)
        }),
{
    let list = obu::obus(s)->Ok_0;
    let n = list.len() as int;
    let len = s.len() as int;
    let open = obu::openings(list);
    let f = obu::is_opening(list);
    let unit = obu::units(s)->Ok_0[u];
    let i = open[u];
    let j = marks::next_of(open, u, n);
    marks::lemma_marks(f, n);
    assert(f(open[u]));
    lemma_lies_in(s, i, u);
    assert(list[i].start == unit.start);
    obus_by_offset(s, i);
    obu::lemma_first_opening(list);
    if u + 1 < open.len() {
        assert(open[u + 1] < n);
    }
    assert forall|k: int|
        0 <= k < list.len() && unit.start < (#[trigger] list[k]).start < unit.end implies list[k].kind
        != 2 by {
        lemma_lies_in(s, k, u);
        if list[k].kind == 2 {
            assert(f(k));
            assert(open.contains(k));
            let z = choose|z: int| 0 <= z < open.len() && open[z] == k;
            if z < u {
                assert(open[z] < open[u]);
            } else if z > u + 1 {
                assert(open[u + 1] < open[z]);
            }
        }
    }
    if unit.has_sequence_header {
        let k = choose|k: int| i <= k < j && (#[trigger] list[k]).kind == obu::OBU_SEQUENCE_HEADER;
        lemma_lies_in(s, k, u);
        assert(unit.start <= list[k].start < unit.end);
    }
    if exists|k: int|
        0 <= k < list.len() && unit.start <= (#[trigger] list[k]).start < unit.end && list[k].kind
            == 1 {
        let k = choose|k: int|
            0 <= k < list.len() && unit.start <= (#[trigger] list[k]).start < unit.end
                && list[k].kind == 1;
        lemma_lies_in(s, k, u);
        assert(list[k].kind == obu::OBU_SEQUENCE_HEADER);
    }
    let first = obu::first_frame(list, i, j);
    obu::lemma_first_frame(list, i, j);
    obu::lemma_obus(s, 0);
    assert forall|k: int|
        0 <= k < list.len() && unit.start <= (#[trigger] list[k]).start < unit.end && (list[k].kind
            == 3 || list[k].kind == 4 || list[k].kind == 6 || list[k].kind
            == 7) implies unit.insert_at <= list[k].start by {
        lemma_lies_in(s, k, u);
        assert(obu::frame_kind(list[k].kind));
        assert(first <= k);
        if first < k {
            obu::lemma_starts_in_order(list, 0, len, first, k);
            assert(list[first].start < list[first].end);
        }
    }
    if first < j {
        lemma_lies_in(s, first, u);
        assert(unit.insert_at == list[first].start);
        assert(obu::frame_kind(list[first].kind));
    }
}

/// Bytes have temporal units where they parse, one at least where they
/// are any, and are refused as a scan refuses them where they do not.
pub proof fn temporal_units_where_bytes_parse(s: Seq<u8>)
    ensures
        obu::obus(s) matches Err(e) ==> obu::units(s) == Err::<Seq<obu::TuPlace>, Error>(e),
        obu::obus(s) is Ok ==> (obu::units(s) matches Ok(found) && (found.len() > 0 <==> s.len()
            > 0)),
{
    obu::lemma_units(s);
}

/// Every temporal delimiter begins a temporal unit, and so does the first
/// OBU.
pub proof fn every_delimiter_begins_a_temporal_unit(s: Seq<u8>, k: int)
    requires
        obu::units(s) is Ok,
        0 <= k < obu::obus(s)->Ok_0.len(),
        k == 0 || obu::obus(s)->Ok_0[k].kind == 2,
    ensures
        exists|u: int|
            0 <= u < obu::units(s)->Ok_0.len() && (#[trigger] obu::units(s)->Ok_0[u]).start
                == obu::obus(s)->Ok_0[k].start,
{
    let list = obu::obus(s)->Ok_0;
    let open = obu::openings(list);
    let f = obu::is_opening(list);
    marks::lemma_marks(f, list.len() as int);
    assert(f(k));
    assert(open.contains(k));
    let u = choose|u: int| 0 <= u < open.len() && open[u] == k;
    assert(obu::units(s)->Ok_0[u].start == list[k].start);
}

/// A metadata OBU as it is written, in bytes: `2a`, how many bytes
/// follow, the metadata type, the payload, and `80`.
pub proof fn metadata_in_bytes(metadata_type: nat, payload: Seq<u8>)
    ensures
        obu::metadata_obu(metadata_type, payload) == seq![0x2au8] + obu::leb_bytes(
            obu::leb_bytes(metadata_type).len() + payload.len() + 1,
        ) + obu::leb_bytes(metadata_type) + payload + seq![0x80u8],
{
    assert(obu::metadata_obu(metadata_type, payload) =~= seq![0x2au8] + obu::leb_bytes(
        obu::leb_bytes(metadata_type).len() + payload.len() + 1,
    ) + obu::leb_bytes(metadata_type) + payload + seq![0x80u8]);
}

/// What is read out of a metadata OBU, in bytes: of an OBU of type 5 whose
/// payload opens with the metadata type asked for, what is behind that,
/// less a last `80` and the zeroes behind it; of any other, nothing.
pub proof fn metadata_is_read_in_bytes(
    o: Obu,
    metadata_type: nat,
    asked: nat,
    payload: Seq<u8>,
    zeroes: nat,
)
    requires
        metadata_type < 0x100_0000_0000_0000,
    ensures
        ({
            let closed = payload + seq![0x80u8] + Seq::new(zeroes, |i: int| 0u8);
            let whole = Obu { payload: obu::leb_bytes(metadata_type) + closed, ..o };
            obu::metadata_in(whole, asked) == if o.kind == 5 && asked == metadata_type {
                Some(payload)
            } else {
                None
            }
        }),
        obu::leb(o.payload, 8) !is Value ==> obu::metadata_in(o, asked) is None,
{
    let closed = payload + seq![0x80u8] + Seq::new(zeroes, |i: int| 0u8);
    let kind = obu::leb_bytes(metadata_type);
    obu::lemma_leb_capacity_is(8);
    obu_laws::leb128_round_trips(metadata_type, 8, closed);
    assert((kind + closed).skip(kind.len() as int) =~= closed);
    let n = payload.len() as int;
    bytes::lemma_zero_run_is(closed, closed.len() as int, n + 1);
    assert(closed.take(n) =~= payload);
}

/// What is found among OBUs is found in each, in order, and among
/// payloads those that open with the UUID are.
pub proof fn metadata_among_one(o: Obu, metadata_type: nat, payload: Seq<u8>, uuid: Seq<u8>)
    ensures
        obu::metadata_among(Seq::empty(), metadata_type) == Seq::<Seq<u8>>::empty(),
        obu::metadata_among(seq![o], metadata_type) == match obu::metadata_in(o, metadata_type) {
            Some(found) => seq![found],
            None => Seq::empty(),
        },
        obu::opened_by(Seq::empty(), uuid) == Seq::<Seq<u8>>::empty(),
        obu::opened_by(seq![payload], uuid) == if bytes::opens_with(payload, uuid) {
            seq![payload]
        } else {
            Seq::empty()
        },
{
    reveal_with_fuel(obu::metadata_among, 2);
    reveal_with_fuel(obu::opened_by, 2);
    assert(seq![o].drop_last() =~= Seq::empty());
    assert(seq![payload].drop_last() =~= Seq::empty());
    assert(obu::metadata_among(seq![o], metadata_type) =~= match obu::metadata_in(
        o,
        metadata_type,
    ) {
        Some(found) => seq![found],
        None => Seq::empty(),
    });
    assert(obu::opened_by(seq![payload], uuid) =~= if bytes::opens_with(payload, uuid) {
        seq![payload]
    } else {
        Seq::empty()
    });
}

/// Bytes that do not parse hold no metadata, and bytes that do hold what
/// is among their OBUs.
pub proof fn metadata_is_found_where_bytes_parse(s: Seq<u8>, metadata_type: nat)
    ensures
        obu::obus(s) is Err ==> obu::metadata_found(s, metadata_type) == Seq::<Seq<u8>>::empty(),
        obu::obus(s) matches Ok(list) ==> obu::metadata_found(s, metadata_type)
            == obu::metadata_among(list, metadata_type),
{
}

/// OBUs and temporal units are the numbers and bytes they are given in.
pub proof fn obus_are_given_in_their_fields(
    list: Seq<ObuRef<'_>>,
    units: Seq<TemporalUnit>,
    i: int,
)
    ensures
        obu::obu_places(list).len() == list.len(),
        0 <= i < list.len() ==> {
            let o = obu::obu_places(list)[i];
            &&& o.kind == list[i].kind
            &&& o.start == list[i].start
            &&& o.end == list[i].end
            &&& o.payload == list[i].payload@
            &&& o.has_extension == list[i].has_extension
        },
        obu::tu_places(units).len() == units.len(),
        0 <= i < units.len() ==> {
            let u = obu::tu_places(units)[i];
            &&& u.start == units[i].start
            &&& u.end == units[i].end
            &&& u.insert_at == units[i].insert_at
            &&& u.has_sequence_header == units[i].has_sequence_header
        },
{
}

} // verus!
