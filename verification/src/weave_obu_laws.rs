//! What holds of an AV1 stream whose temporal units took metadata OBUs:
//! the temporal units are still the temporal units, each with its own
//! bytes and payloads and the one it took.

use vstd::prelude::*;
use crate::bytes;
use crate::marks;
use crate::obu;
use crate::obu::{Obu, TuPlace};
use crate::obu_laws;
use crate::Error;

verus! {

/// A stream with `one` put in at `at`.
pub open spec fn put_at(s: Seq<u8>, at: int, one: Seq<u8>) -> Seq<u8> {
    s.take(at) + one + s.skip(at)
}

/// Which OBU the place of temporal unit `u` for a metadata OBU is the
/// start of.
pub open spec fn place_of(list: Seq<Obu>, u: int) -> int {
    let open = obu::openings(list);
    obu::first_frame(list, open[u], marks::next_of(open, u, list.len() as int))
}

/// OBUs with one more of `d` bytes before OBU `k`.
pub open spec fn with_one(list: Seq<Obu>, k: int, one: Obu, d: int) -> Seq<Obu> {
    list.take(k) + seq![one] + obu_laws::all_shifted(list.skip(k), d)
}

/// Openings behind opening `u` one further.
pub open spec fn made_room(open: Seq<int>, u: int) -> Seq<int> {
    Seq::new(
        open.len(),
        |m: int|
            if m <= u {
                open[m]
            } else {
                open[m] + 1
            },
    )
}

/// Where the place of a temporal unit lies among the openings.
proof fn lemma_order(list: Seq<Obu>, u: int, m: int)
    requires
        0 <= u < obu::openings(list).len(),
        0 <= m < obu::openings(list).len(),
    ensures
        ({
            let n = list.len() as int;
            let open = obu::openings(list);
            let k = place_of(list, u);
            let i = open[m];
            let j = marks::next_of(open, m, n);
            &&& 0 <= i < j <= n
            &&& 0 <= open[u] <= k <= marks::next_of(open, u, n) <= n
            &&& open[u] == k ==> k == 0
            &&& m < u ==> j <= open[u] && j < n
            &&& m > u ==> k <= i && marks::next_of(open, u, n) <= i
            &&& m + 1 < open.len() ==> j < n
            &&& k < marks::next_of(open, u, n) ==> obu::frame_kind(list[k].kind)
            &&& forall|x: int| open[u] <= x < k ==> !obu::frame_kind((#[trigger] list[x]).kind)
        }),
{
    let n = list.len() as int;
    let open = obu::openings(list);
    let next = marks::next_of(open, u, n);
    let f = obu::is_opening(list);
    marks::lemma_marks(f, n);
    assert(open[u] < next);
    obu::lemma_first_frame(list, open[u], next);
    assert(f(open[u]));
    if m < u {
        assert(open[m] < open[u]);
        if m + 1 < u {
            assert(open[m + 1] < open[u]);
        }
    } else if m > u {
        if u + 1 < m {
            assert(open[u + 1] < open[m]);
        }
    }
}

/// Marks with one unmarked index more at `k`.
proof fn lemma_marks_room(
    f: spec_fn(int) -> bool,
    g: spec_fn(int) -> bool,
    n: int,
    k: int,
    u: int,
)
    requires
        0 <= k <= n,
        forall|i: int| 0 <= i < k ==> #[trigger] g(i) == f(i),
        k == 0 && n > 0 ==> g(0) == f(0) && !g(1),
        k > 0 ==> !g(k),
        forall|i: int|
            k <= i < n && (k > 0 || i > 0) ==> #[trigger] f(i) == g(i + 1),
        n > 0,
        0 <= u < marks::marks(f, n).len(),
        marks::marks(f, n)[u] < k || marks::marks(f, n)[u] == 0,
        u + 1 < marks::marks(f, n).len() ==> k <= marks::marks(f, n)[u + 1],
    ensures
        marks::marks(g, n + 1) == made_room(marks::marks(f, n), u),
    decreases n,
{
    let was = marks::marks(f, n);
    marks::lemma_marks(f, n);
    let least = if k > 1 {
        k
    } else {
        1
    };
    if n == least {
        marks::lemma_marks_agree(g, f, if k > 0 {
            k
        } else {
            1
        });
        assert(was.len() == u + 1);
        if k == 0 {
            reveal_with_fuel(marks::marks, 3);
        }
        assert(marks::marks(g, n + 1) =~= made_room(was, u));
    } else {
        let fewer = marks::marks(f, n - 1);
        assert(f(n - 1) == g(n));
        if f(n - 1) {
            assert(was == fewer.push(n - 1));
            assert(was.last() == n - 1);
            assert(u < fewer.len()) by {
                if u == fewer.len() {
                    assert(was[u] == n - 1);
                }
            }
            assert(fewer[u] == was[u]);
            if u + 1 < fewer.len() {
                assert(fewer[u + 1] == was[u + 1]);
            }
        }
        lemma_marks_room(f, g, n - 1, k, u);
        assert(marks::marks(g, n + 1) =~= made_room(was, u));
    }
}

/// The temporal units of OBUs among which one took a metadata OBU open
/// where they did.
proof fn lemma_openings_woven(list: Seq<Obu>, u: int, one: Obu, d: int)
    requires
        0 <= u < obu::openings(list).len(),
        one.kind == obu::OBU_METADATA,
    ensures
        obu::openings(with_one(list, place_of(list, u), one, d)) == made_room(
            obu::openings(list),
            u,
        ),
{
    let n = list.len() as int;
    let k = place_of(list, u);
    let woven = with_one(list, k, one, d);
    let f = obu::is_opening(list);
    let g = obu::is_opening(woven);
    let open = obu::openings(list);
    marks::lemma_marks(f, n);
    lemma_order(list, u, u);
    assert(woven.len() == n + 1);
    assert(woven[k] == one);
    assert forall|i: int| 0 <= i < k implies #[trigger] g(i) == f(i) by {
        assert(woven[i] == list[i]);
    }
    assert forall|i: int| k <= i < n && (k > 0 || i > 0) implies #[trigger] f(i) == g(i + 1) by {
        assert(woven[i + 1] == obu_laws::shifted(list[i], d));
    }
    if k == 0 {
        assert(woven[1] == obu_laws::shifted(list[0], d));
        assert(open[u] == 0);
        assert(obu::frame_kind(list[0].kind));
    }
    lemma_marks_room(f, g, n, k, u);
}

/// A temporal unit among others, one of which took an OBU of `d` bytes:
/// what lies before the place stays, what lies behind it moves.
pub open spec fn unit_woven(unit: TuPlace, m: int, u: int, d: int) -> TuPlace {
    if m < u {
        unit
    } else if m == u {
        TuPlace { end: unit.end + d, insert_at: unit.insert_at + d, ..unit }
    } else {
        TuPlace {
            start: unit.start + d,
            end: unit.end + d,
            insert_at: unit.insert_at + d,
            ..unit
        }
    }
}

/// The only OBU that can be the first of a frame.
proof fn lemma_first_frame_is(list: Seq<Obu>, i: int, j: int, k: int)
    requires
        i <= k <= j,
        forall|m: int| i <= m < k ==> !obu::frame_kind((#[trigger] list[m]).kind),
        k < j ==> obu::frame_kind(list[k].kind),
    ensures
        obu::first_frame(list, i, j) == k,
    decreases j - i,
{
    if i < k {
        assert(!obu::frame_kind(list[i].kind));
        lemma_first_frame_is(list, i + 1, j, k);
    }
}

/// The first OBU of a frame in temporal unit `m`, and whether a sequence
/// header is in it, before and after temporal unit `u` took a metadata
/// OBU.
proof fn lemma_unit_obus_woven(list: Seq<Obu>, u: int, m: int, one: Obu, d: int)
    requires
        0 <= u < obu::openings(list).len(),
        0 <= m < obu::openings(list).len(),
        one.kind == obu::OBU_METADATA,
    ensures
        ({
            let n = list.len() as int;
            let open = obu::openings(list);
            let k = place_of(list, u);
            let woven = with_one(list, k, one, d);
            let i = open[m];
            let j = marks::next_of(open, m, n);
            let i2 = made_room(open, u)[m];
            let j2 = marks::next_of(made_room(open, u), m, n + 1);
            let first = obu::first_frame(list, i, j);
            &&& j2 == if m < u {
                j
            } else {
                j + 1
            }
            &&& obu::sequence_header_in(woven, i2, j2) == obu::sequence_header_in(list, i, j)
            &&& obu::first_frame(woven, i2, j2) == if m < u {
                first
            } else {
                first + 1
            }
        }),
{
    let n = list.len() as int;
    let open = obu::openings(list);
    let k = place_of(list, u);
    let woven = with_one(list, k, one, d);
    let i = open[m];
    let j = marks::next_of(open, m, n);
    let i2 = made_room(open, u)[m];
    let j2 = marks::next_of(made_room(open, u), m, n + 1);
    let first = obu::first_frame(list, i, j);
    lemma_order(list, u, m);
    obu::lemma_first_frame(list, i, j);
    assert(woven[k] == one);
    assert forall|x: int| 0 <= x < k implies woven[x] == list[x] by {}
    assert forall|x: int| k <= x < n implies #[trigger] woven[x + 1] == obu_laws::shifted(
        list[x],
        d,
    ) by {}
    let want = if m < u {
        first
    } else {
        first + 1
    };
    assert forall|x: int| i2 <= x < want implies !obu::frame_kind((#[trigger] woven[x]).kind) by {
        if x < k {
            assert(woven[x] == list[x]);
        } else if x > k {
            assert(woven[(x - 1) + 1] == obu_laws::shifted(list[x - 1], d));
        }
    }
    if want < j2 {
        if m < u {
            assert(woven[want] == list[first]);
        } else {
            assert(woven[first + 1] == obu_laws::shifted(list[first], d));
        }
    }
    lemma_first_frame_is(woven, i2, j2, want);
    if obu::sequence_header_in(list, i, j) {
        let x = choose|x: int|
            i <= x < j && (#[trigger] list[x]).kind == obu::OBU_SEQUENCE_HEADER;
        if x < k {
            assert(woven[x].kind == obu::OBU_SEQUENCE_HEADER);
        } else {
            assert(woven[x + 1].kind == obu::OBU_SEQUENCE_HEADER);
        }
    }
    if obu::sequence_header_in(woven, i2, j2) {
        let x = choose|x: int|
            i2 <= x < j2 && (#[trigger] woven[x]).kind == obu::OBU_SEQUENCE_HEADER;
        if x < k {
            assert(list[x].kind == obu::OBU_SEQUENCE_HEADER);
        } else {
            assert(x > k);
            assert(woven[(x - 1) + 1] == obu_laws::shifted(list[x - 1], d));
            assert(list[x - 1].kind == obu::OBU_SEQUENCE_HEADER);
        }
    }
}

/// Whether `one` is a metadata OBU that carries its size.
pub open spec fn is_metadata(one: Seq<u8>) -> bool {
    &&& obu::obus(one) matches Ok(list) && list.len() == 1 && list[0].kind == obu::OBU_METADATA
    &&& obu::has_size(one, 0)
}

/// Whether temporal unit `u` of a stream takes an OBU: its place is not
/// behind a last OBU without a size, which would swallow it.
pub open spec fn takes(s: Seq<u8>, u: int) -> bool {
    obu::units(s)->Ok_0[u].insert_at < s.len() || obu::has_size(
        s,
        obu::obus(s)->Ok_0.last().start,
    )
}

/// The OBUs of a stream whose temporal unit `u` took a metadata OBU.
proof fn lemma_obus_woven(s: Seq<u8>, u: int, one: Seq<u8>)
    requires
        obu::units(s) is Ok,
        0 <= u < obu::units(s)->Ok_0.len(),
        takes(s, u),
        is_metadata(one),
        s.len() + one.len() <= usize::MAX,
    ensures
        ({
            let list = obu::obus(s)->Ok_0;
            let at = obu::units(s)->Ok_0[u].insert_at;
            let k = place_of(list, u);
            &&& 0 <= k <= list.len()
            &&& at == obu_laws::start_of(list, k, s.len() as int)
            &&& 0 <= at <= s.len()
            &&& obu::obus(put_at(s, at, one)) == Ok::<Seq<Obu>, Error>(
                with_one(
                    list,
                    k,
                    obu_laws::shifted(obu::obus(one)->Ok_0[0], at),
                    one.len() as int,
                ),
            )
            &&& obu::obus(one)->Ok_0[0].start == 0
        }),
{
    let list = obu::obus(s)->Ok_0;
    let found = obu::units(s)->Ok_0;
    let at = found[u].insert_at;
    let k = place_of(list, u);
    let open = obu::openings(list);
    let n = list.len() as int;
    lemma_order(list, u, u);
    obu::lemma_units(s);
    assert(found[u] == obu::unit_between(list, open[u], marks::next_of(open, u, n), s.len() as int));
    assert(at == obu_laws::start_of(list, k, s.len() as int));
    assert(k == n ==> at == s.len());
    assert(found[u].start <= found[u].insert_at);
    obu_laws::lemma_obus_weave(s, k, one);
    let ones = obu::obus(one)->Ok_0;
    assert(ones =~= seq![ones[0]]);
    assert(obu_laws::all_shifted(ones, at) =~= seq![obu_laws::shifted(ones[0], at)]);
    obu::lemma_obus(one, 0);
}

/// The temporal units of a stream one of which took a metadata OBU are
/// the temporal units it had: as many, each with its sequence header or
/// without as it was, the bytes before the OBU where they were and those
/// behind it moved by its length.
pub proof fn a_metadata_obu_leaves_the_temporal_units(s: Seq<u8>, u: int, one: Seq<u8>)
    requires
        obu::units(s) is Ok,
        0 <= u < obu::units(s)->Ok_0.len(),
        takes(s, u),
        is_metadata(one),
        s.len() + one.len() <= usize::MAX,
    ensures
        ({
            let found = obu::units(s)->Ok_0;
            obu::units(put_at(s, found[u].insert_at, one)) matches Ok(now) && {
                &&& now.len() == found.len()
                &&& forall|m: int|
                    0 <= m < found.len() ==> #[trigger] now[m] == unit_woven(
                        found[m],
                        m,
                        u,
                        one.len() as int,
                    )
            }
        }),
{
    let found = obu::units(s)->Ok_0;
    let at = found[u].insert_at;
    let w = put_at(s, at, one);
    let list = obu::obus(s)->Ok_0;
    let d = one.len() as int;
    let o = obu_laws::shifted(obu::obus(one)->Ok_0[0], at);
    lemma_obus_woven(s, u, one);
    lemma_openings_woven(list, u, o, d);
    let now = obu::units(w)->Ok_0;
    assert forall|m: int| 0 <= m < found.len() implies #[trigger] now[m] == unit_woven(
        found[m],
        m,
        u,
        d,
    ) by {
        lemma_unit_woven(s, u, one, m);
    }
}

proof fn lemma_unit_woven(s: Seq<u8>, u: int, one: Seq<u8>, m: int)
    requires
        obu::units(s) is Ok,
        0 <= u < obu::units(s)->Ok_0.len(),
        0 <= m < obu::units(s)->Ok_0.len(),
        takes(s, u),
        is_metadata(one),
        s.len() + one.len() <= usize::MAX,
    ensures
        ({
            let found = obu::units(s)->Ok_0;
            obu::units(put_at(s, found[u].insert_at, one))->Ok_0[m] == unit_woven(
                found[m],
                m,
                u,
                one.len() as int,
            )
        }),
{
    let found = obu::units(s)->Ok_0;
    let at = found[u].insert_at;
    let w = put_at(s, at, one);
    let list = obu::obus(s)->Ok_0;
    let n = list.len() as int;
    let k = place_of(list, u);
    let d = one.len() as int;
    let o = obu_laws::shifted(obu::obus(one)->Ok_0[0], at);
    let woven = with_one(list, k, o, d);
    let open = obu::openings(list);
    lemma_obus_woven(s, u, one);
    lemma_openings_woven(list, u, o, d);
    lemma_order(list, u, m);
    lemma_unit_obus_woven(list, u, m, o, d);
    let i = open[m];
    let j = marks::next_of(open, m, n);
    let open_w = made_room(open, u);
    let i2 = open_w[m];
    let j2 = marks::next_of(open_w, m, n + 1);
    let first = obu::first_frame(list, i, j);
    obu::lemma_first_frame(list, i, j);
    assert(w.len() == s.len() + d);
    assert(found[m] == obu::unit_between(list, i, j, s.len() as int));
    assert(obu::units(w)->Ok_0[m] == obu::unit_between(woven, i2, j2, w.len() as int));
    assert(woven[k] == o);
    assert(o.start == at);
    assert forall|x: int| 0 <= x < k implies woven[x] == list[x] by {}
    assert forall|x: int| k <= x < n implies #[trigger] woven[x + 1] == obu_laws::shifted(
        list[x],
        d,
    ) by {}
    let now = obu::unit_between(woven, i2, j2, w.len() as int);
    let want = unit_woven(found[m], m, u, d);
    if m > u {
        assert(woven[i + 1] == obu_laws::shifted(list[i], d));
    } else if i == k {
        assert(found[u].start == at);
    } else {
        assert(woven[i] == list[i]);
    }
    assert(now.start == want.start);
    if m < u {
        assert(j < k || j == k);
        if j == k {
            assert(j == open[u]);
        } else {
            assert(woven[j] == list[j]);
        }
    } else if j < n {
        assert(woven[j + 1] == obu_laws::shifted(list[j], d));
    }
    assert(now.end == want.end);
    if first < j {
        if m < u {
            assert(woven[first] == list[first]);
        } else {
            assert(woven[first + 1] == obu_laws::shifted(list[first], d));
        }
    }
    assert(now.insert_at == want.insert_at);
}

/// The bytes of temporal unit `m` of a stream.
pub open spec fn unit_bytes(s: Seq<u8>, m: int) -> Seq<u8> {
    s.subrange(obu::units(s)->Ok_0[m].start, obu::units(s)->Ok_0[m].end)
}

/// How far into temporal unit `m` of a stream its place for a metadata
/// OBU is.
pub open spec fn place_in_unit(s: Seq<u8>, m: int) -> int {
    obu::units(s)->Ok_0[m].insert_at - obu::units(s)->Ok_0[m].start
}

/// Temporal units that tile a stream come in order.
proof fn lemma_units_in_order(list: Seq<TuPlace>, to: int, j: int, k: int)
    requires
        obu::units_tiled(list, to),
        0 <= j < k < list.len(),
    ensures
        list[j].end <= list[k].start,
    decreases k - j,
{
    assert(list[j].end == list[j + 1].start);
    if j + 1 < k {
        lemma_units_in_order(list, to, j + 1, k);
    }
}

/// A temporal unit that took a metadata OBU has its bytes with the OBU at
/// its place; every other has its bytes.
pub proof fn a_metadata_obu_changes_one_temporal_unit(s: Seq<u8>, u: int, one: Seq<u8>, m: int)
    requires
        obu::units(s) is Ok,
        0 <= u < obu::units(s)->Ok_0.len(),
        0 <= m < obu::units(s)->Ok_0.len(),
        takes(s, u),
        is_metadata(one),
        s.len() + one.len() <= usize::MAX,
    ensures
        unit_bytes(put_at(s, obu::units(s)->Ok_0[u].insert_at, one), m) == if m == u {
            put_at(unit_bytes(s, m), place_in_unit(s, m), one)
        } else {
            unit_bytes(s, m)
        },
{
    let found = obu::units(s)->Ok_0;
    let at = found[u].insert_at;
    let w = put_at(s, at, one);
    a_metadata_obu_leaves_the_temporal_units(s, u, one);
    obu::lemma_units(s);
    let now = obu::units(w)->Ok_0;
    assert(now[m] == unit_woven(found[m], m, u, one.len() as int));
    assert(found[u].start <= at <= found[u].end);
    if m < u {
        lemma_units_in_order(found, s.len() as int, m, u);
        assert(unit_bytes(w, m) =~= unit_bytes(s, m));
    } else if m == u {
        assert(unit_bytes(w, m) =~= put_at(unit_bytes(s, m), place_in_unit(s, m), one));
    } else {
        lemma_units_in_order(found, s.len() as int, u, m);
        assert(unit_bytes(w, m) =~= unit_bytes(s, m));
    }
}

/// A stream whose temporal units from `k` on each took an OBU of their
/// own.
pub open spec fn woven_from(s: Seq<u8>, ones: Seq<Seq<u8>>, k: int) -> Seq<u8>
    decreases obu::units(s)->Ok_0.len() - k,
{
    if k >= obu::units(s)->Ok_0.len() {
        s
    } else {
        put_at(woven_from(s, ones, k + 1), obu::units(s)->Ok_0[k].insert_at, ones[k])
    }
}

/// A stream is no shorter for what its temporal units took.
proof fn lemma_woven_len(s: Seq<u8>, ones: Seq<Seq<u8>>, k: int)
    requires
        obu::units(s) is Ok,
        0 <= k < obu::units(s)->Ok_0.len(),
    ensures
        s.len() <= woven_from(s, ones, k + 1).len(),
        woven_from(s, ones, k).len() == woven_from(s, ones, k + 1).len() + ones[k].len(),
    decreases obu::units(s)->Ok_0.len() - k,
{
    let found = obu::units(s)->Ok_0;
    obu::lemma_units(s);
    assert(found[k].insert_at <= s.len());
    if k + 1 < found.len() {
        lemma_woven_len(s, ones, k + 1);
    }
}

/// Temporal units that each took a metadata OBU, one by one from the
/// last.
proof fn lemma_woven_from(s: Seq<u8>, ones: Seq<Seq<u8>>, k: int)
    requires
        obu::units(s) is Ok,
        0 <= k <= obu::units(s)->Ok_0.len(),
        ones.len() == obu::units(s)->Ok_0.len(),
        ones.len() > 0 ==> takes(s, ones.len() - 1),
        forall|m: int| 0 <= m < ones.len() ==> is_metadata(#[trigger] ones[m]),
        woven_from(s, ones, k).len() <= usize::MAX,
    ensures
        ({
            let found = obu::units(s)->Ok_0;
            let w = woven_from(s, ones, k);
            obu::units(w) matches Ok(now) && {
                &&& now.len() == found.len()
                &&& forall|m: int|
                    0 <= m < found.len() ==> {
                        &&& (#[trigger] now[m]).has_sequence_header == found[m].has_sequence_header
                        &&& m < k ==> now[m] == found[m]
                        &&& unit_bytes(w, m) == if m >= k {
                            put_at(unit_bytes(s, m), place_in_unit(s, m), ones[m])
                        } else {
                            unit_bytes(s, m)
                        }
                    }
            }
        }),
    decreases obu::units(s)->Ok_0.len() - k,
{
    let found = obu::units(s)->Ok_0;
    if k < found.len() {
        let before = woven_from(s, ones, k + 1);
        let w = woven_from(s, ones, k);
        lemma_woven_len(s, ones, k);
        lemma_woven_from(s, ones, k + 1);
        let mid = obu::units(before)->Ok_0;
        assert(mid[k] == found[k]);
        assert(takes(before, k)) by {
            if k + 1 < found.len() {
                obu::lemma_units(before);
                lemma_units_in_order(mid, before.len() as int, k, k + 1);
                assert(mid[k + 1].start < mid[k + 1].end);
            }
        }
        assert(is_metadata(ones[k]));
        assert(w == put_at(before, mid[k].insert_at, ones[k]));
        a_metadata_obu_leaves_the_temporal_units(before, k, ones[k]);
        let now = obu::units(w)->Ok_0;
        assert forall|m: int| 0 <= m < found.len() implies {
            &&& (#[trigger] now[m]).has_sequence_header == found[m].has_sequence_header
            &&& m < k ==> now[m] == found[m]
            &&& unit_bytes(w, m) == if m >= k {
                put_at(unit_bytes(s, m), place_in_unit(s, m), ones[m])
            } else {
                unit_bytes(s, m)
            }
        } by {
            assert(mid[m].has_sequence_header == found[m].has_sequence_header);
            assert(now[m] == unit_woven(mid[m], m, k, ones[k].len() as int));
            a_metadata_obu_changes_one_temporal_unit(before, k, ones[k], m);
        }
    }
}

/// The OBUs of one temporal unit, by itself, and where its place is
/// among them.
proof fn lemma_unit_obus(s: Seq<u8>, m: int)
    requires
        s.len() <= usize::MAX,
        obu::units(s) is Ok,
        0 <= m < obu::units(s)->Ok_0.len(),
        takes(s, m),
    ensures
        ({
            let list = obu::obus(s)->Ok_0;
            let v = unit_bytes(s, m);
            let k = place_of(list, m) - obu::openings(list)[m];
            obu::obus(v) matches Ok(own) && {
                &&& 0 <= k <= own.len()
                &&& obu_laws::start_of(own, k, v.len() as int) == place_in_unit(s, m)
                &&& 0 < k == own.len() ==> obu::has_size(v, own.last().start)
            }
        }),
{
    let list = obu::obus(s)->Ok_0;
    let n = list.len() as int;
    let len = s.len() as int;
    let found = obu::units(s)->Ok_0;
    let open = obu::openings(list);
    let i = open[m];
    let j = marks::next_of(open, m, n);
    let k = place_of(list, m);
    let v = unit_bytes(s, m);
    let start = found[m].start;
    lemma_order(list, m, m);
    obu::lemma_units(s);
    assert(found[m] == obu::unit_between(list, i, j, len));
    assert(found[m].start < found[m].end);
    obu_laws::lemma_unit_obus(s, m);
    let own = obu_laws::all_shifted(list.subrange(i, j), -start);
    if k < j {
        assert(own[k - i] == obu_laws::shifted(list[k], -start));
    } else {
        assert(own.last() == obu_laws::shifted(list[j - 1], -start));
        assert(obu::has_size(s, list[j - 1].start)) by {
            obu::lemma_obus(s, 0);
            if j == n {
                assert(list[n - 1] == list.last());
            }
        }
        obu::lemma_obus(v, 0);
        assert(own[own.len() - 1].start < own[own.len() - 1].end);
        assert(v[own.last().start] == s[list[j - 1].start]);
    }
}

/// The metadata OBUs that carry `payloads`, one to a temporal unit.
pub open spec fn obus_for(metadata_type: nat, payloads: Seq<Seq<u8>>) -> Seq<Seq<u8>> {
    Seq::new(payloads.len(), |m: int| obu::metadata_obu(metadata_type, payloads[m]))
}

/// Whether what is found on temporal unit `m` of `w` is what is found on
/// that of `s`, with `payload` among it and nothing else.
pub open spec fn rides(
    s: Seq<u8>,
    w: Seq<u8>,
    m: int,
    metadata_type: nat,
    payload: Seq<u8>,
    uuid: Seq<u8>,
) -> bool {
    let held = obu::opened_by(obu::metadata_found(unit_bytes(s, m), metadata_type), uuid);
    let now = obu::opened_by(obu::metadata_found(unit_bytes(w, m), metadata_type), uuid);
    exists|i: int| 0 <= i <= held.len() && now == #[trigger] held.insert(i, payload)
}

/// A payload rides on the temporal unit that took it.
proof fn lemma_rides(
    s: Seq<u8>,
    w: Seq<u8>,
    m: int,
    metadata_type: nat,
    payload: Seq<u8>,
    uuid: Seq<u8>,
)
    requires
        obu::units(s) is Ok,
        0 <= m < obu::units(s)->Ok_0.len(),
        takes(s, m),
        metadata_type < obu::leb_capacity(8),
        obu::metadata_body(metadata_type, payload).len() < obu::leb_capacity(8),
        s.len() + obu::metadata_obu(metadata_type, payload).len() <= usize::MAX,
        bytes::opens_with(payload, uuid),
        unit_bytes(w, m) == put_at(
            unit_bytes(s, m),
            place_in_unit(s, m),
            obu::metadata_obu(metadata_type, payload),
        ),
    ensures
        rides(s, w, m, metadata_type, payload, uuid),
{
    let v = unit_bytes(s, m);
    let p = place_in_unit(s, m);
    let list = obu::obus(s)->Ok_0;
    let found = obu::units(s)->Ok_0;
    obu::lemma_units(s);
    assert(found[m].start < found[m].end);
    lemma_unit_obus(s, m);
    obu_laws::lemma_found_woven(
        v,
        place_of(list, m) - obu::openings(list)[m],
        metadata_type,
        payload,
        uuid,
    );
    let held = obu::opened_by(obu::metadata_found(v, metadata_type), uuid);
    let now = obu::opened_by(obu::metadata_found(unit_bytes(w, m), metadata_type), uuid);
    let before = obu::opened_by(obu::metadata_found(v.take(p), metadata_type), uuid);
    assert(now =~= held.insert(before.len() as int, payload));
}

/// A stream each of whose temporal units took a payload has the temporal
/// units it had, as many, each with its sequence header or without as it
/// was; and what is found on each is what was found on it, with its
/// payload among it and nothing else. The last OBU of the stream carries
/// its size, or the last temporal unit takes its payload before it.
pub proof fn woven_payloads_ride_on_their_temporal_units(
    s: Seq<u8>,
    metadata_type: nat,
    payloads: Seq<Seq<u8>>,
    uuid: Seq<u8>,
)
    requires
        obu::units(s) is Ok,
        payloads.len() == obu::units(s)->Ok_0.len(),
        payloads.len() > 0 ==> takes(s, payloads.len() - 1),
        metadata_type < obu::leb_capacity(8),
        forall|m: int|
            0 <= m < payloads.len() ==> bytes::opens_with(#[trigger] payloads[m], uuid)
                && obu::metadata_body(metadata_type, payloads[m]).len() < obu::leb_capacity(8),
        woven_from(s, obus_for(metadata_type, payloads), 0).len() <= usize::MAX,
    ensures
        ({
            let found = obu::units(s)->Ok_0;
            let w = woven_from(s, obus_for(metadata_type, payloads), 0);
            obu::units(w) matches Ok(now) && {
                &&& now.len() == found.len()
                &&& forall|m: int|
                    0 <= m < found.len() ==> (#[trigger] now[m]).has_sequence_header
                        == found[m].has_sequence_header
                &&& forall|m: int|
                    0 <= m < found.len() ==> #[trigger] rides(
                        s,
                        w,
                        m,
                        metadata_type,
                        payloads[m],
                        uuid,
                    )
            }
        }),
{
    let t = metadata_type;
    let found = obu::units(s)->Ok_0;
    let ones = obus_for(t, payloads);
    let w = woven_from(s, ones, 0);
    assert forall|m: int| 0 <= m < ones.len() implies is_metadata(#[trigger] ones[m])
        && ones[m].len() + s.len() <= usize::MAX by {
        assert(bytes::opens_with(payloads[m], uuid));
        lemma_woven_room(s, ones, 0, m);
        obu_laws::metadata_reads_back(t, payloads[m]);
    }
    lemma_woven_from(s, ones, 0);
    let now = obu::units(w)->Ok_0;
    assert forall|m: int| 0 <= m < found.len() implies #[trigger] rides(
        s,
        w,
        m,
        t,
        payloads[m],
        uuid,
    ) by {
        assert(takes(s, m)) by {
            obu::lemma_units(s);
            if m + 1 < found.len() {
                lemma_units_in_order(found, s.len() as int, m, m + 1);
                assert(found[m + 1].start < found[m + 1].end);
            }
        }
        assert(is_metadata(ones[m]) && ones[m].len() + s.len() <= usize::MAX);
        assert(bytes::opens_with(payloads[m], uuid));
        assert(now[m].has_sequence_header == found[m].has_sequence_header);
        lemma_rides(s, w, m, t, payloads[m], uuid);
    }
}

/// A stream has room for each OBU its temporal units take.
proof fn lemma_woven_room(s: Seq<u8>, ones: Seq<Seq<u8>>, k: int, m: int)
    requires
        obu::units(s) is Ok,
        0 <= k <= m < obu::units(s)->Ok_0.len(),
    ensures
        s.len() + ones[m].len() <= woven_from(s, ones, k).len(),
    decreases m - k,
{
    lemma_woven_len(s, ones, k);
    if k < m {
        lemma_woven_room(s, ones, k + 1, m);
    }
}

} // verus!
