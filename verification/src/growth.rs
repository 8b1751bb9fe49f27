//! How what is found in bytes changes when bytes come off their front or
//! are added to their end: NAL units and access units, OBUs and temporal
//! units. A reader of a growing stream rests on this.

use vstd::prelude::*;
use crate::annexb;
use crate::annexb::Nal;
use crate::annexb_laws;
use crate::bytes;
use crate::feed;
use crate::feed::Step;
use crate::h26x;
use crate::h26x::{Codec, Unit};
use crate::marks;
use crate::obu;
use crate::obu::Obu;
use crate::obu_laws;
use crate::Error;

verus! {

/// A NAL unit's place, moved by `d` bytes.
pub open spec fn nal_moved(nal: Nal, d: int) -> Nal {
    Nal {
        pad: nal.pad + d,
        code: nal.code + d,
        start: nal.start + d,
        end: nal.end + d,
        bytes: nal.bytes,
    }
}

/// An access unit's place, moved by `d` bytes.
pub open spec fn unit_moved(unit: Unit, d: int) -> Unit {
    Unit { start: unit.start + d, end: unit.end + d, insert_at: unit.insert_at + d, ..unit }
}

/// Access units' places, moved by `d` bytes.
pub open spec fn units_moved(list: Seq<Unit>, d: int) -> Seq<Unit> {
    Seq::new(list.len(), |k: int| unit_moved(list[k], d))
}

/// Nothing is marked where nothing holds.
pub proof fn lemma_no_marks(f: spec_fn(int) -> bool, n: int)
    requires
        forall|i: int| 0 <= i < n ==> !#[trigger] f(i),
    ensures
        marks::marks(f, n).len() == 0,
    decreases n,
{
    if n > 0 {
        lemma_no_marks(f, n - 1);
        assert(!f(n - 1));
    }
}

/// A stream cut at the padding of NAL unit `i` has the start codes from
/// there on.
#[verifier::rlimit(40)]
proof fn lemma_codes_suffix(s: Seq<u8>, i: int)
    requires
        0 <= i < annexb::codes(s).len(),
    ensures
        annexb::codes(s).skip(i) == marks::moved(
            annexb::codes(s.skip(annexb::nal_at(s, i).pad)),
            annexb::nal_at(s, i).pad,
        ),
{
    let p = annexb::nal_at(s, i).pad;
    let t = s.skip(p);
    let cs = annexb::codes(s);
    annexb::lemma_codes(s);
    annexb::lemma_nal(s, i);
    assert forall|x: int| 0 <= x < t.len() implies #[trigger] annexb::is_code(t)(x)
        == annexb::is_code(s)(p + x) by {
        if x + 2 < t.len() {
            assert(t[x] == s[p + x] && t[x + 1] == s[p + x + 1] && t[x + 2] == s[p + x + 2]);
        }
    }
    marks::lemma_marks_split(annexb::is_code(s), p, annexb::is_code(t), t.len() as int);
    marks::lemma_marks(annexb::is_code(s), p);
    marks::lemma_marks(annexb::is_code(t), t.len() as int);
    let front = marks::marks(annexb::is_code(s), p);
    let back = marks::moved(annexb::codes(t), p);
    assert(cs == front + back);
    assert(front.len() == i) by {
        if i > 0 {
            annexb::lemma_nal(s, i - 1);
            assert(cs[i - 1] < p);
            if i - 1 >= front.len() {
                assert(cs[i - 1] == back[i - 1 - front.len()]);
            }
        }
        if i < front.len() {
            assert(cs[i] == front[i]);
        }
    }
    assert(cs.skip(i) =~= back);
}

/// A stream cut at the padding of NAL unit `i` has the NAL units from
/// there on.
pub proof fn lemma_scan_suffix(s: Seq<u8>, i: int)
    requires
        0 <= i < annexb::codes(s).len(),
    ensures
        ({
            let p = annexb::nal_at(s, i).pad;
            let t = s.skip(p);
            &&& 0 <= p <= s.len()
            &&& annexb::codes(t).len() == annexb::codes(s).len() - i
            &&& forall|k: int|
                0 <= k < annexb::codes(t).len() ==> #[trigger] annexb::nal_at(t, k) == nal_moved(
                    annexb::nal_at(s, i + k),
                    -p,
                )
            &&& annexb::split(t) == annexb::split(s).skip(i)
        }),
{
    let p = annexb::nal_at(s, i).pad;
    let t = s.skip(p);
    let cs = annexb::codes(s);
    let ct = annexb::codes(t);
    annexb::lemma_nal(s, i);
    annexb::lemma_codes(s);
    lemma_codes_suffix(s, i);
    assert(ct.len() == cs.skip(i).len());
    assert forall|k: int| 0 <= k < ct.len() implies #[trigger] annexb::nal_at(t, k) == nal_moved(
        annexb::nal_at(s, i + k),
        -p,
    ) by {
        assert(cs.skip(i)[k] == cs[i + k]);
        assert(marks::moved(ct, p)[k] == ct[k] + p);
        annexb::lemma_nal(s, i + k);
        if k > 0 {
            annexb_laws::lemma_nals_in_order(s, i, i + k);
        }
        annexb_laws::lemma_zero_run_suffix(s, p, ct[k]);
        let stop = if k + 1 < ct.len() {
            assert(cs.skip(i)[k + 1] == cs[i + k + 1]);
            assert(marks::moved(ct, p)[k + 1] == ct[k + 1] + p);
            ct[k + 1]
        } else {
            t.len() as int
        };
        assert(ct[k] >= 0);
        annexb_laws::lemma_zero_run_suffix(s, p, stop);
        assert(annexb::nal_end(t, k) == annexb::nal_end(s, i + k) - p);
        assert(annexb::nal_at(t, k).bytes =~= annexb::nal_at(s, i + k).bytes);
    }
    assert forall|k: int| 0 <= k < ct.len() implies annexb::split(t)[k] == #[trigger] annexb::split(
        s,
    ).skip(i)[k] by {
        assert(annexb::nal_at(t, k).bytes == annexb::nal_at(s, i + k).bytes);
    }
    assert(annexb::split(t) =~= annexb::split(s).skip(i));
}

/// NAL units from one that opens an access unit on open the access units
/// they opened before.
proof fn lemma_opens_suffix(codec: Codec, nals: Seq<Seq<u8>>, i: int, k: int)
    requires
        0 <= i,
        0 <= k,
        i + k < nals.len(),
        h26x::opens(codec, nals, i),
    ensures
        h26x::opens(codec, nals.skip(i), k) == h26x::opens(codec, nals, i + k),
        k > 0 ==> h26x::slice_pending(codec, nals.skip(i), k) == h26x::slice_pending(
            codec,
            nals,
            i + k,
        ),
    decreases k,
{
    let rest = nals.skip(i);
    assert(rest[k] == nals[i + k]);
    assert(rest[0] == nals[i]);
    if k > 0 {
        lemma_opens_suffix(codec, nals, i, k - 1);
        assert(rest[k - 1] == nals[i + k - 1]);
        assert(h26x::slice_pending(codec, rest, k) == h26x::slice_pending(codec, nals, i + k)) by {
            if k == 1 {
                assert(h26x::opens(codec, rest, 0));
            }
        }
        assert(h26x::type_of(codec, nals[i]) is Some);
    }
}

/// The access units of NAL units from an opening on are those from there
/// on.
proof fn lemma_openings_suffix(codec: Codec, nals: Seq<Seq<u8>>, m: int)
    requires
        0 <= m < h26x::openings(codec, nals).len(),
    ensures
        ({
            let open = h26x::openings(codec, nals);
            let i = open[m];
            &&& 0 <= i < nals.len()
            &&& open.skip(m) == marks::moved(h26x::openings(codec, nals.skip(i)), i)
        }),
{
    let open = h26x::openings(codec, nals);
    let n = nals.len() as int;
    let i = open[m];
    let rest = nals.skip(i);
    let f = h26x::is_opening(codec, nals);
    let g = h26x::is_opening(codec, rest);
    marks::lemma_marks(f, n);
    assert(f(open[m]));
    assert forall|k: int| 0 <= k < rest.len() implies #[trigger] g(k) == f(i + k) by {
        lemma_opens_suffix(codec, nals, i, k);
    }
    marks::lemma_marks_split(f, i, g, n - i);
    marks::lemma_marks(f, i);
    marks::lemma_marks(g, n - i);
    let front = marks::marks(f, i);
    let back = marks::moved(h26x::openings(codec, rest), i);
    assert(open == front + back);
    assert(front.len() == m) by {
        if m < front.len() {
            assert(open[m] == front[m]);
        }
        assert(g(0));
        let first = marks::marks(g, n - i);
        assert(first.contains(0));
        let z = choose|z: int| 0 <= z < first.len() && first[z] == 0;
        if z > 0 {
            assert(first[0] < first[z]);
        }
        assert(back[0] == i);
        assert(open[front.len() as int] == i);
        if front.len() < m {
            assert(open[front.len() as int] < open[m]);
        }
    }
    assert(open.skip(m) =~= back);
}

/// The first slice, counted from NAL unit `i`.
proof fn lemma_first_slice_suffix(codec: Codec, nals: Seq<Seq<u8>>, i: int, a: int, b: int)
    requires
        0 <= i,
        0 <= a <= b,
        i + b <= nals.len(),
    ensures
        h26x::first_slice(codec, nals.skip(i), a, b) == h26x::first_slice(
            codec,
            nals,
            i + a,
            i + b,
        ) - i,
    decreases b - a,
{
    if a < b {
        assert(nals.skip(i)[a] == nals[i + a]);
        if !h26x::is_slice(codec, nals[i + a]) {
            lemma_first_slice_suffix(codec, nals, i, a + 1, b);
        }
    }
}

/// A stream cut where one of its access units starts has the access
/// units from there on.
#[verifier::rlimit(40)]
pub proof fn lemma_units_suffix(s: Seq<u8>, codec: Codec, m: int)
    requires
        0 <= m < h26x::units(s, codec).len(),
    ensures
        ({
            let p = h26x::units(s, codec)[m].start;
            &&& 0 <= p <= s.len()
            &&& h26x::units(s.skip(p), codec) == units_moved(h26x::units(s, codec).skip(m), -p)
        }),
{
    let nals = annexb::split(s);
    let open = h26x::openings(codec, nals);
    let n = nals.len() as int;
    let i = open[m];
    let p = h26x::units(s, codec)[m].start;
    let t = s.skip(p);
    let rest = nals.skip(i);
    let open_t = h26x::openings(codec, rest);
    marks::lemma_marks(h26x::is_opening(codec, nals), n);
    marks::lemma_marks(h26x::is_opening(codec, rest), rest.len() as int);
    assert(p == annexb::nal_at(s, i).pad);
    lemma_scan_suffix(s, i);
    lemma_openings_suffix(codec, nals, m);
    let us = h26x::units(s, codec).skip(m);
    let ut = h26x::units(t, codec);
    assert(annexb::split(t) == rest);
    assert(open.skip(m).len() == open_t.len());
    assert forall|k: int| 0 <= k < ut.len() implies #[trigger] ut[k] == unit_moved(us[k], -p) by {
        assert(open.skip(m)[k] == open[m + k]);
        assert(marks::moved(open_t, i)[k] == open_t[k] + i);
        let a = open_t[k];
        let b = marks::next_of(open_t, k, rest.len() as int);
        if k + 1 < open_t.len() {
            assert(open.skip(m)[k + 1] == open[m + k + 1]);
            assert(marks::moved(open_t, i)[k + 1] == open_t[k + 1] + i);
        }
        assert(i + b == marks::next_of(open, m + k, n));
        assert(i + a == open[m + k]);
        assert(0 <= a < b <= rest.len());
        lemma_first_slice_suffix(codec, nals, i, a, b);
        h26x::lemma_first_slice(codec, rest, a, b);
        let f = h26x::first_slice(codec, rest, a, b);
        assert(annexb::nal_at(t, a) == nal_moved(annexb::nal_at(s, i + a), -p));
        if b < rest.len() {
            assert(annexb::nal_at(t, b) == nal_moved(annexb::nal_at(s, i + b), -p));
        }
        if f < b {
            assert(annexb::nal_at(t, f) == nal_moved(annexb::nal_at(s, i + f), -p));
            assert(rest[f] == nals[i + f]);
        }
        lemma_key_suffix(codec, nals, i, a, b);
        assert(us[k] == h26x::unit_between(s, codec, i + a, i + b));
        assert(ut[k] == h26x::unit_between(t, codec, a, b));
    }
    assert(ut =~= units_moved(us, -p));
}

/// Whether a slice of a random access point is among NAL units does not
/// depend on what they are counted from.
pub proof fn lemma_key_suffix(codec: Codec, nals: Seq<Seq<u8>>, i: int, a: int, b: int)
    requires
        0 <= i,
        0 <= a <= b,
        i + b <= nals.len(),
    ensures
        (exists|k: int| a <= k < b && h26x::is_key_slice(codec, #[trigger] nals.skip(i)[k])) == (
        exists|k: int| i + a <= k < i + b && h26x::is_key_slice(codec, #[trigger] nals[k])),
{
    let rest = nals.skip(i);
    if exists|k: int| a <= k < b && h26x::is_key_slice(codec, #[trigger] rest[k]) {
        let k = choose|k: int| a <= k < b && h26x::is_key_slice(codec, #[trigger] rest[k]);
        assert(rest[k] == nals[i + k]);
    }
    if exists|k: int| i + a <= k < i + b && h26x::is_key_slice(codec, #[trigger] nals[k]) {
        let k = choose|k: int| i + a <= k < i + b && h26x::is_key_slice(codec, #[trigger] nals[k]);
        assert(rest[k - i] == nals[k]);
    }
}

/// The start codes of bytes are the first start codes of the bytes they
/// grow into.
proof fn lemma_codes_prefix(x: Seq<u8>, b: Seq<u8>)
    ensures
        annexb::codes(x).len() <= annexb::codes(x + b).len(),
        annexb::codes(x + b).take(annexb::codes(x).len() as int) == annexb::codes(x),
{
    let w = x + b;
    let n = x.len() as int;
    let d = if n >= 2 {
        n - 2
    } else {
        0
    };
    let fx = annexb::is_code(x);
    let fw = annexb::is_code(w);
    let gx = |i: int| fx(d + i);
    let gw = |i: int| fw(d + i);
    marks::lemma_marks_split(fx, d, gx, n - d);
    marks::lemma_marks_split(fw, d, gw, w.len() - d);
    assert forall|i: int| 0 <= i < n - d implies !#[trigger] gx(i) by {}
    lemma_no_marks(gx, n - d);
    assert forall|i: int| 0 <= i < d implies #[trigger] fx(i) == fw(i) by {
        assert(x[i] == w[i] && x[i + 1] == w[i + 1] && x[i + 2] == w[i + 2]);
    }
    marks::lemma_marks_agree(fx, fw, d);
    assert(annexb::codes(x) =~= marks::marks(fx, d));
    assert(annexb::codes(w).take(annexb::codes(x).len() as int) =~= annexb::codes(x));
}

/// The NAL units of bytes are the first NAL units of the bytes they grow
/// into, but for the last, which may grow at its end.
pub proof fn lemma_scan_prefix(x: Seq<u8>, b: Seq<u8>, k: int)
    requires
        0 <= k < annexb::codes(x).len(),
    ensures
        annexb::codes(x).len() <= annexb::codes(x + b).len(),
        annexb::nal_at(x + b, k).pad == annexb::nal_at(x, k).pad,
        k + 1 < annexb::codes(x).len() ==> annexb::nal_at(x + b, k) == annexb::nal_at(x, k),
        annexb::nal_at(x, k).bytes.is_prefix_of(annexb::nal_at(x + b, k).bytes),
{
    let w = x + b;
    let cx = annexb::codes(x);
    let cw = annexb::codes(w);
    lemma_codes_prefix(x, b);
    annexb::lemma_codes(x);
    annexb::lemma_codes(w);
    assert(cx[k] == cw.take(cx.len() as int)[k]);
    assert(cw[k] == cx[k]);
    annexb::lemma_nal(x, k);
    annexb::lemma_nal(w, k);
    annexb_laws::lemma_zero_run_prefix(x, b, cx[k]);
    let nx = annexb::nal_at(x, k);
    let nw = annexb::nal_at(w, k);
    if k + 1 < cx.len() {
        assert(cx[k + 1] == cw.take(cx.len() as int)[k + 1]);
        annexb_laws::lemma_zero_run_prefix(x, b, cx[k + 1]);
        assert(nw.bytes =~= nx.bytes);
    } else {
        let stop = if k + 1 < cw.len() {
            cw[k + 1]
        } else {
            w.len() as int
        };
        bytes::lemma_zero_run(x, x.len() as int);
        bytes::lemma_zero_run(w, stop);
        assert(nx.end <= nw.end) by {
            assert(x[nx.end - 1] != 0);
            assert(w[nx.end - 1] == x[nx.end - 1]);
            if nx.end > stop {
                assert(annexb::code_at(w, stop));
                assert(stop + 2 >= x.len()) by {
                    if stop + 2 < x.len() {
                        assert(annexb::code_at(x, stop)) by {
                            assert(x[stop] == w[stop] && x[stop + 1] == w[stop + 1] && x[stop + 2]
                                == w[stop + 2]);
                        }
                        assert(cx.contains(stop));
                        let j = choose|j: int| 0 <= j < cx.len() && cx[j] == stop;
                        assert(cx[j] == cw.take(cx.len() as int)[j]);
                        assert(cw[j] == cw[k + 1]);
                    }
                }
            } else if nw.end < nx.end {
                assert(w[nx.end - 1] == 0);
            }
        }
        assert(nx.bytes =~= nw.bytes.take(nx.bytes.len() as int));
    }
}

/// Whether a slice is pending at a NAL unit rests on those before it.
pub proof fn lemma_pending_agrees(codec: Codec, a: Seq<Seq<u8>>, b: Seq<Seq<u8>>, i: int)
    requires
        0 <= i <= a.len(),
        i <= b.len(),
        forall|j: int| 0 <= j < i ==> a[j] == b[j],
    ensures
        h26x::slice_pending(codec, a, i) == h26x::slice_pending(codec, b, i),
    decreases i, 0int,
{
    if i > 0 {
        lemma_opens_agrees(codec, a, b, i - 1);
        lemma_pending_agrees(codec, a, b, i - 1);
    }
}

/// Whether a NAL unit opens an access unit rests on it and those before
/// it.
pub proof fn lemma_opens_agrees(codec: Codec, a: Seq<Seq<u8>>, b: Seq<Seq<u8>>, i: int)
    requires
        0 <= i < a.len(),
        i < b.len(),
        forall|j: int| 0 <= j <= i ==> a[j] == b[j],
    ensures
        h26x::opens(codec, a, i) == h26x::opens(codec, b, i),
    decreases i, 1int,
{
    lemma_pending_agrees(codec, a, b, i);
    assert forall|j: int| 0 <= j < i implies a[j] == b[j] by {}
}

/// A NAL unit that opens an access unit still opens it when more of it
/// has arrived.
proof fn lemma_opens_grows(codec: Codec, a: Seq<Seq<u8>>, b: Seq<Seq<u8>>, i: int)
    requires
        0 <= i < a.len(),
        i < b.len(),
        forall|j: int| 0 <= j < i ==> a[j] == b[j],
        a[i].is_prefix_of(b[i]),
        h26x::opens(codec, a, i),
    ensures
        h26x::opens(codec, b, i),
{
    lemma_pending_agrees(codec, a, b, i);
    assert(a[i].len() > 0 ==> a[i][0] == b[i][0]);
    let h = h26x::header_len_of(codec) as int;
    if a[i].len() > h {
        assert(a[i][h] == b[i][h]);
    }
    assert(h26x::type_of(codec, a[i]) == h26x::type_of(codec, b[i]));
}

/// Bytes, what they grow into, and how the NAL units of the two compare.
proof fn lemma_split_prefix(x: Seq<u8>, b: Seq<u8>)
    ensures
        annexb::split(x).len() <= annexb::split(x + b).len(),
        forall|k: int|
            0 <= k < annexb::split(x).len() - 1 ==> #[trigger] annexb::split(x)[k] == annexb::split(
                x + b,
            )[k],
        annexb::split(x).len() > 0 ==> annexb::split(x).last().is_prefix_of(
            annexb::split(x + b)[annexb::split(x).len() - 1],
        ),
{
    lemma_codes_prefix(x, b);
    assert forall|k: int| 0 <= k < annexb::split(x).len() - 1 implies #[trigger] annexb::split(
        x,
    )[k] == annexb::split(x + b)[k] by {
        lemma_scan_prefix(x, b, k);
    }
    if annexb::split(x).len() > 0 {
        lemma_scan_prefix(x, b, annexb::split(x).len() - 1);
    }
}

/// The access units that bytes open are the first that the bytes they
/// grow into open.
pub proof fn lemma_openings_prefix(x: Seq<u8>, b: Seq<u8>, codec: Codec)
    ensures
        ({
            let ox = h26x::openings(codec, annexb::split(x));
            let ow = h26x::openings(codec, annexb::split(x + b));
            ox.len() <= ow.len() && ow.take(ox.len() as int) == ox
        }),
{
    let nx = annexb::split(x);
    let nw = annexb::split(x + b);
    let fx = h26x::is_opening(codec, nx);
    let fw = h26x::is_opening(codec, nw);
    let n = nx.len() as int;
    let ox = h26x::openings(codec, nx);
    let ow = h26x::openings(codec, nw);
    lemma_split_prefix(x, b);
    if n > 0 {
        let l = n - 1;
        assert forall|i: int| 0 <= i < l implies #[trigger] fx(i) == fw(i) by {
            lemma_opens_agrees(codec, nx, nw, i);
        }
        marks::lemma_marks_agree(fx, fw, l);
        let g = |i: int| fw(n + i);
        marks::lemma_marks_split(fw, n, g, nw.len() - n);
        assert(fx(l) ==> fw(l)) by {
            if fx(l) {
                lemma_opens_grows(codec, nx, nw, l);
            }
        }
        assert(ow.take(ox.len() as int) =~= ox);
    } else {
        assert(ow.take(0) =~= ox);
    }
}

/// The access units of bytes, but for the last, are the first access
/// units of the bytes they grow into, and the last starts where it did.
pub proof fn lemma_units_prefix(x: Seq<u8>, b: Seq<u8>, codec: Codec)
    ensures
        ({
            let ux = h26x::units(x, codec);
            let uw = h26x::units(x + b, codec);
            &&& ux.len() <= uw.len()
            &&& forall|k: int|
                0 <= k < ux.len() - 1 ==> {
                    &&& (#[trigger] ux[k]).start == uw[k].start
                    &&& ux[k].end == uw[k].end
                    &&& ux[k].keyframe == uw[k].keyframe
                }
            &&& ux.len() > 0 ==> ux.last().start == uw[ux.len() - 1].start
        }),
{
    let w = x + b;
    let nx = annexb::split(x);
    let nw = annexb::split(w);
    let ux = h26x::units(x, codec);
    let uw = h26x::units(w, codec);
    let ox = h26x::openings(codec, nx);
    let ow = h26x::openings(codec, nw);
    lemma_openings_prefix(x, b, codec);
    lemma_split_prefix(x, b);
    marks::lemma_marks(h26x::is_opening(codec, nx), nx.len() as int);
    assert forall|k: int| 0 <= k < ox.len() implies ox[k] == #[trigger] ow[k] && ux[k].start
        == uw[k].start by {
        assert(ow.take(ox.len() as int)[k] == ow[k]);
        lemma_scan_prefix(x, b, ox[k]);
    }
    assert forall|k: int| 0 <= k < ux.len() - 1 implies {
        &&& (#[trigger] ux[k]).start == uw[k].start
        &&& ux[k].end == uw[k].end
        &&& ux[k].keyframe == uw[k].keyframe
    } by {
        assert(ox[k] == ow[k] && ox[k + 1] == ow[k + 1]);
        let i = ox[k];
        let j = ox[k + 1];
        assert(i < j < nx.len());
        lemma_scan_prefix(x, b, j);
        assert(ux[k] == h26x::unit_between(x, codec, i, j));
        assert(uw[k] == h26x::unit_between(w, codec, i, j));
        assert forall|m: int| i <= m < j implies nx[m] == nw[m] by {}
        if ux[k].keyframe {
            let m = choose|m: int| i <= m < j && h26x::is_key_slice(codec, #[trigger] nx[m]);
            assert(h26x::is_key_slice(codec, nw[m]));
        }
        if uw[k].keyframe {
            let m = choose|m: int| i <= m < j && h26x::is_key_slice(codec, #[trigger] nw[m]);
            assert(h26x::is_key_slice(codec, nx[m]));
        }
    }
    if ux.len() > 0 {
        assert(ox[ux.len() - 1] == ow[ux.len() - 1]);
    }
}

/// A stream that ends where NAL unit `i` has its padding has the NAL
/// units before it.
proof fn lemma_split_take(s: Seq<u8>, i: int)
    requires
        0 <= i < annexb::codes(s).len(),
    ensures
        annexb::split(s.take(annexb::nal_at(s, i).pad)) == annexb::split(s).take(i),
{
    let p = annexb::nal_at(s, i).pad;
    let x = s.take(p);
    let b = s.skip(p);
    let cs = annexb::codes(s);
    let cx = annexb::codes(x);
    let fs = annexb::is_code(s);
    let fx = annexb::is_code(x);
    annexb::lemma_codes(s);
    annexb::lemma_nal(s, i);
    bytes::lemma_zero_run(s, cs[i]);
    assert(x + b =~= s);
    assert forall|q: int| 0 <= q < p implies #[trigger] fx(q) == fs(q) by {
        if q + 2 < p {
            assert(x[q] == s[q] && x[q + 1] == s[q + 1] && x[q + 2] == s[q + 2]);
        }
    }
    marks::lemma_marks_agree(fx, fs, p);
    lemma_codes_suffix(s, i);
    let t = s.skip(p);
    assert forall|q: int| 0 <= q < t.len() implies #[trigger] annexb::is_code(t)(q) == fs(
        p + q,
    ) by {
        if q + 2 < t.len() {
            assert(t[q] == s[p + q] && t[q + 1] == s[p + q + 1] && t[q + 2] == s[p + q + 2]);
        }
    }
    marks::lemma_marks_split(fs, p, annexb::is_code(t), t.len() as int);
    assert(cx.len() + annexb::codes(t).len() == cs.len());
    assert(cs.skip(i).len() == annexb::codes(t).len());
    assert(cx.len() == i);
    assert forall|k: int| 0 <= k < i implies annexb::split(x)[k] == #[trigger] annexb::split(
        s,
    ).take(i)[k] by {
        lemma_scan_prefix(x, b, k);
        annexb::lemma_nal(s, k);
        annexb::lemma_nal(x, k);
        if k + 1 == i {
            assert(cs[k] == cx[k]) by {
                lemma_codes_prefix(x, b);
                assert(cs.take(cx.len() as int)[k] == cs[k]);
            }
            assert(annexb::nal_at(s, k).end == p);
            bytes::lemma_zero_run_is(x, p, p);
            assert(annexb::nal_at(x, k).bytes =~= annexb::nal_at(s, k).bytes);
        }
    }
    assert(annexb::split(x) =~= annexb::split(s).take(i));
}

/// A stream that ends where one of its access units starts has the
/// access units before it, as many.
pub proof fn lemma_units_take(s: Seq<u8>, codec: Codec, k: int)
    requires
        0 <= k < h26x::units(s, codec).len(),
    ensures
        h26x::units(s.take(h26x::units(s, codec)[k].start), codec).len() == k,
{
    let nals = annexb::split(s);
    let open = h26x::openings(codec, nals);
    let n = nals.len() as int;
    let i = open[k];
    let f = h26x::is_opening(codec, nals);
    let front = nals.take(i);
    let g = h26x::is_opening(codec, front);
    marks::lemma_marks(f, n);
    lemma_split_take(s, i);
    assert forall|m: int| 0 <= m < i implies #[trigger] g(m) == f(m) by {
        lemma_opens_agrees(codec, front, nals, m);
    }
    marks::lemma_marks_agree(g, f, i);
    let behind = |m: int| f(i + m);
    marks::lemma_marks_split(f, i, behind, n - i);
    marks::lemma_marks(f, i);
    marks::lemma_marks(behind, n - i);
    let before = marks::marks(f, i);
    let rest = marks::moved(marks::marks(behind, n - i), i);
    assert(open == before + rest);
    assert(before.len() == k) by {
        if k < before.len() {
            assert(open[k] == before[k]);
        }
        if before.len() < k {
            assert(open[before.len() as int] < open[k]);
            assert(open[before.len() as int] == rest[0]);
        }
    }
}

/// The NAL units of one access unit, by itself.
pub proof fn lemma_unit_split(s: Seq<u8>, codec: Codec, m: int)
    requires
        0 <= m < h26x::units(s, codec).len(),
    ensures
        ({
            let nals = annexb::split(s);
            let open = h26x::openings(codec, nals);
            let unit = h26x::units(s, codec)[m];
            &&& 0 <= open[m] < marks::next_of(open, m, nals.len() as int) <= nals.len()
            &&& annexb::split(s.subrange(unit.start, unit.end)) == nals.subrange(
                open[m],
                marks::next_of(open, m, nals.len() as int),
            )
        }),
{
    let nals = annexb::split(s);
    let n = nals.len() as int;
    let open = h26x::openings(codec, nals);
    let unit = h26x::units(s, codec)[m];
    let i = open[m];
    let j = marks::next_of(open, m, n);
    marks::lemma_marks(h26x::is_opening(codec, nals), n);
    h26x::lemma_units(s, codec);
    assert(unit.start < unit.end <= s.len());
    lemma_scan_suffix(s, i);
    let t = s.skip(unit.start);
    if j < n {
        lemma_split_take(t, j - i);
        assert(annexb::nal_at(t, j - i) == nal_moved(annexb::nal_at(s, j), -unit.start));
        assert(t.take(unit.end - unit.start) =~= s.subrange(unit.start, unit.end));
        assert(nals.skip(i).take(j - i) =~= nals.subrange(i, j));
    } else {
        assert(t =~= s.subrange(unit.start, unit.end));
        assert(nals.skip(i) =~= nals.subrange(i, j));
    }
}

/// A step stays what it was when more bytes arrive, but for an OBU that
/// was still on its way.
proof fn lemma_step_prefix(x: Seq<u8>, b: Seq<u8>, at: int)
    requires
        0 <= at < x.len(),
        !(feed::step(x, at) is Open),
    ensures
        feed::step(x + b, at) == feed::step(x, at),
{
    let w = x + b;
    let from = obu::header_end(x, at);
    assert(w[at] == x[at]);
    match feed::step(x, at) {
        Step::Whole(o) => {
            obu::lemma_obu_at(x, at);
            obu_laws::lemma_obu_prefix(x, w, at);
        },
        Step::Broken(e) => {
            if x[at] & 0x80 == 0 {
                assert(w.skip(from) =~= x.skip(from) + b);
                obu::lemma_leb(x.skip(from), 8);
                obu_laws::lemma_leb_prefix(x.skip(from), w.skip(from), 8);
            }
        },
        Step::Open => {},
    }
}

/// The OBUs that are all there are the first of those that are when more
/// bytes have arrived.
pub proof fn lemma_whole_prefix(x: Seq<u8>, b: Seq<u8>, at: int)
    requires
        0 <= at <= x.len(),
        feed::whole_from(x + b, at) is Ok,
    ensures
        feed::whole_from(x, at) is Ok,
        feed::whole_from(x, at)->Ok_0.is_prefix_of(feed::whole_from(x + b, at)->Ok_0),
    decreases x.len() - at,
{
    let w = x + b;
    if at < x.len() {
        match feed::step(x, at) {
            Step::Whole(o) => {
                lemma_step_prefix(x, b, at);
                obu::lemma_obu_at(x, at);
                lemma_whole_prefix(x, b, o.end);
                let lx = feed::whole_from(x, o.end)->Ok_0;
                let lw = feed::whole_from(w, o.end)->Ok_0;
                assert((seq![o] + lw).take((seq![o] + lx).len() as int) =~= seq![o] + lw.take(
                    lx.len() as int,
                ));
            },
            Step::Open => {
                assert(Seq::<Obu>::empty() =~= feed::whole_from(w, at)->Ok_0.take(0));
            },
            Step::Broken(e) => {
                lemma_step_prefix(x, b, at);
            },
        }
    } else {
        assert(Seq::<Obu>::empty() =~= feed::whole_from(w, at)->Ok_0.take(0));
    }
}

/// A step is the same when bytes come off the front.
proof fn lemma_step_suffix(s: Seq<u8>, d: int, at: int)
    requires
        0 <= d,
        0 <= at,
        d + at < s.len() <= usize::MAX,
        !(feed::step(s, d + at) is Broken),
    ensures
        match feed::step(s, d + at) {
            Step::Whole(o) => feed::step(s.skip(d), at) == Step::Whole(obu_laws::shifted(o, -d)),
            Step::Open => feed::step(s.skip(d), at) is Open,
            Step::Broken(e) => false,
        },
{
    let t = s.skip(d);
    let from = obu::header_end(t, at);
    assert(t[at] == s[d + at]);
    if obu::obu_at(s, d + at) is Ok || obu::obu_at(t, at) is Ok {
        obu_laws::lemma_obu_shift(s, d, at);
        let o = obu::obu_at(t, at)->Ok_0;
        assert(obu_laws::shifted(obu_laws::shifted(o, d), -d) == o);
    } else if from <= t.len() {
        assert(t.skip(from) =~= s.skip(d + from));
    }
}

/// The OBUs that are all there, when bytes come off the front between
/// two of them, are those from there on.
proof fn lemma_whole_suffix(s: Seq<u8>, d: int, at: int)
    requires
        0 <= d,
        0 <= at,
        d + at <= s.len() <= usize::MAX,
        feed::whole_from(s, d + at) is Ok,
    ensures
        feed::whole_from(s.skip(d), at) == Ok::<Seq<Obu>, Error>(
            obu_laws::all_shifted(feed::whole_from(s, d + at)->Ok_0, -d),
        ),
    decreases s.len() - at,
{
    let list = feed::whole_from(s, d + at)->Ok_0;
    if d + at < s.len() {
        lemma_step_suffix(s, d, at);
        obu::lemma_obu_at(s, d + at);
        match feed::step(s, d + at) {
            Step::Whole(o) => {
                lemma_whole_suffix(s, d, o.end - d);
                let rest = feed::whole_from(s, o.end)->Ok_0;
                assert(obu_laws::all_shifted(list, -d) =~= seq![obu_laws::shifted(o, -d)]
                    + obu_laws::all_shifted(rest, -d));
            },
            _ => {
                assert(obu_laws::all_shifted(list, -d) =~= Seq::empty());
            },
        }
    } else {
        assert(obu_laws::all_shifted(list, -d) =~= Seq::empty());
    }
}

/// The OBUs from the start of OBU `k` on are OBU `k` and those behind it.
proof fn lemma_whole_from(s: Seq<u8>, at: int, k: int)
    requires
        0 <= at <= s.len(),
        feed::whole_from(s, at) is Ok,
        0 <= k < feed::whole_from(s, at)->Ok_0.len(),
    ensures
        feed::whole_from(s, feed::whole_from(s, at)->Ok_0[k].start) == Ok::<Seq<Obu>, Error>(
            feed::whole_from(s, at)->Ok_0.skip(k),
        ),
    decreases k,
{
    let list = feed::whole_from(s, at)->Ok_0;
    feed::lemma_whole(s, at);
    if k == 0 {
        assert(list[0].start == at);
        assert(list.skip(0) =~= list);
    } else {
        let o = list[0];
        obu::lemma_obu_at(s, at);
        let rest = feed::whole_from(s, o.end)->Ok_0;
        assert(list =~= seq![o] + rest);
        lemma_whole_from(s, o.end, k - 1);
        assert(list[k] == rest[k - 1]);
        assert(list.skip(k) =~= rest.skip(k - 1));
    }
}

/// Bytes cut at the start of OBU `k` have the OBUs from there on.
pub proof fn lemma_whole_cut(s: Seq<u8>, k: int)
    requires
        s.len() <= usize::MAX,
        feed::whole_from(s, 0) is Ok,
        0 <= k < feed::whole_from(s, 0)->Ok_0.len(),
    ensures
        ({
            let list = feed::whole_from(s, 0)->Ok_0;
            let p = list[k].start;
            &&& 0 <= p < s.len()
            &&& feed::whole_from(s.skip(p), 0) == Ok::<Seq<Obu>, Error>(
                obu_laws::all_shifted(list.skip(k), -p),
            )
        }),
{
    let list = feed::whole_from(s, 0)->Ok_0;
    feed::lemma_whole(s, 0);
    assert(list[k].start < list[k].end);
    lemma_whole_from(s, 0, k);
    lemma_whole_suffix(s, list[k].start, 0);
}

/// The temporal units of OBUs from an opening on are those from there on.
pub proof fn lemma_obu_openings_suffix(list: Seq<Obu>, m: int, d: int)
    requires
        0 <= m < obu::openings(list).len(),
    ensures
        ({
            let open = obu::openings(list);
            let i = open[m];
            &&& 0 <= i < list.len()
            &&& open.skip(m) == marks::moved(
                obu::openings(obu_laws::all_shifted(list.skip(i), d)),
                i,
            )
        }),
{
    let open = obu::openings(list);
    let n = list.len() as int;
    let i = open[m];
    let rest = obu_laws::all_shifted(list.skip(i), d);
    let f = obu::is_opening(list);
    let g = obu::is_opening(rest);
    marks::lemma_marks(f, n);
    assert(f(open[m]));
    assert forall|k: int| 0 <= k < rest.len() implies #[trigger] g(k) == f(i + k) by {
        assert(rest[k].kind == list[i + k].kind);
    }
    marks::lemma_marks_split(f, i, g, n - i);
    marks::lemma_marks(f, i);
    obu::lemma_first_opening(rest);
    let front = marks::marks(f, i);
    let back = marks::moved(obu::openings(rest), i);
    assert(open == front + back);
    assert(front.len() == m) by {
        if m < front.len() {
            assert(open[m] == front[m]);
        }
        assert(back[0] == i);
        assert(open[front.len() as int] == i);
        if front.len() < m {
            assert(open[front.len() as int] < open[m]);
        }
    }
    assert(open.skip(m) =~= back);
}

/// The temporal units that OBUs open are the first that those and more
/// open.
pub proof fn lemma_obu_openings_prefix(a: Seq<Obu>, b: Seq<Obu>)
    requires
        a.is_prefix_of(b),
    ensures
        obu::openings(a).is_prefix_of(obu::openings(b)),
{
    let n = a.len() as int;
    let fa = obu::is_opening(a);
    let fb = obu::is_opening(b);
    let g = |i: int| fb(n + i);
    assert forall|i: int| 0 <= i < n implies #[trigger] fa(i) == fb(i) by {
        assert(a[i] == b[i]);
    }
    marks::lemma_marks_agree(fa, fb, n);
    marks::lemma_marks_split(fb, n, g, b.len() - n);
    assert(obu::openings(b).take(obu::openings(a).len() as int) =~= obu::openings(a));
}

/// The step at `at`, whatever offset that is: an OBU that would end past
/// the last offset there is has not ended yet.
pub open spec fn placeless_step(s: Seq<u8>, at: int) -> Step {
    match feed::step(s, at) {
        Step::Broken(Error::TooLarge { at }) => Step::Open,
        other => other,
    }
}

/// The OBUs of a growing stream that are all there, from `at` on,
/// whatever offsets they lie at.
pub open spec fn placeless_from(s: Seq<u8>, at: int) -> Result<Seq<Obu>, Error>
    decreases s.len() - at,
{
    if at >= s.len() {
        Ok(Seq::empty())
    } else {
        match placeless_step(s, at) {
            Step::Whole(obu) => match placeless_from(s, obu.end) {
                Ok(rest) => Ok(seq![obu] + rest),
                Err(e) => Err(e),
            },
            Step::Open => Ok(Seq::empty()),
            Step::Broken(e) => Err(e),
        }
    }
}

/// Offsets matter to what is all there only where one is too large.
pub proof fn lemma_placeless(s: Seq<u8>, at: int)
    requires
        0 <= at <= s.len(),
    ensures
        feed::whole_from(s, at) matches Ok(list) ==> placeless_from(s, at) == Ok::<
            Seq<Obu>,
            Error,
        >(list),
        feed::whole_from(s, at) matches Err(e) ==> e is TooLarge || placeless_from(s, at) is Err,
        placeless_from(s, at) matches Ok(list) ==> list.len() > 0 ==> list[0].start == at,
    decreases s.len() - at,
{
    if at < s.len() {
        obu::lemma_obu_at(s, at);
        if let Step::Whole(o) = feed::step(s, at) {
            lemma_placeless(s, o.end);
        }
    }
}

/// The OBUs that are all there are the first of those that are when more
/// bytes have arrived.
pub proof fn lemma_placeless_prefix(x: Seq<u8>, b: Seq<u8>, at: int)
    requires
        0 <= at <= x.len(),
        placeless_from(x + b, at) is Ok,
    ensures
        placeless_from(x, at) is Ok,
        placeless_from(x, at)->Ok_0.is_prefix_of(placeless_from(x + b, at)->Ok_0),
    decreases x.len() - at,
{
    let w = x + b;
    if at < x.len() {
        match placeless_step(x, at) {
            Step::Whole(o) => {
                lemma_step_prefix(x, b, at);
                obu::lemma_obu_at(x, at);
                lemma_placeless_prefix(x, b, o.end);
                let lx = placeless_from(x, o.end)->Ok_0;
                let lw = placeless_from(w, o.end)->Ok_0;
                assert((seq![o] + lw).take((seq![o] + lx).len() as int) =~= seq![o] + lw.take(
                    lx.len() as int,
                ));
            },
            Step::Open => {
                assert(Seq::<Obu>::empty() =~= placeless_from(w, at)->Ok_0.take(0));
            },
            Step::Broken(e) => {
                lemma_step_prefix(x, b, at);
            },
        }
    } else {
        assert(Seq::<Obu>::empty() =~= placeless_from(w, at)->Ok_0.take(0));
    }
}

/// A step is the same when bytes are put before it, whatever offset that
/// makes.
proof fn lemma_placeless_step_shift(s: Seq<u8>, d: int, at: int)
    requires
        0 <= d,
        0 <= at,
        d + at < s.len() <= usize::MAX,
        !(placeless_step(s.skip(d), at) is Broken),
    ensures
        match placeless_step(s.skip(d), at) {
            Step::Whole(o) => placeless_step(s, d + at) == Step::Whole(obu_laws::shifted(o, d)),
            Step::Open => placeless_step(s, d + at) is Open,
            Step::Broken(e) => false,
        },
{
    let t = s.skip(d);
    let from = obu::header_end(t, at);
    assert(t[at] == s[d + at]);
    if obu::obu_at(s, d + at) is Ok || obu::obu_at(t, at) is Ok {
        obu_laws::lemma_obu_shift(s, d, at);
    } else if from <= t.len() {
        assert(t.skip(from) =~= s.skip(d + from));
    }
}

/// The OBUs that are all there are the same when bytes are put before
/// them.
proof fn lemma_placeless_shift(s: Seq<u8>, d: int, at: int)
    requires
        0 <= d,
        0 <= at,
        d + at <= s.len() <= usize::MAX,
        placeless_from(s.skip(d), at) is Ok,
    ensures
        placeless_from(s, d + at) == Ok::<Seq<Obu>, Error>(
            obu_laws::all_shifted(placeless_from(s.skip(d), at)->Ok_0, d),
        ),
    decreases s.len() - at,
{
    let t = s.skip(d);
    let list = placeless_from(t, at)->Ok_0;
    if d + at < s.len() {
        lemma_placeless_step_shift(s, d, at);
        obu::lemma_obu_at(t, at);
        match placeless_step(t, at) {
            Step::Whole(o) => {
                lemma_placeless_shift(s, d, o.end);
                let rest = placeless_from(t, o.end)->Ok_0;
                assert(obu_laws::all_shifted(list, d) =~= seq![obu_laws::shifted(o, d)]
                    + obu_laws::all_shifted(rest, d));
            },
            _ => {
                assert(obu_laws::all_shifted(list, d) =~= Seq::empty());
            },
        }
    } else {
        assert(obu_laws::all_shifted(list, d) =~= Seq::empty());
    }
}

/// Bytes grown behind OBU `k` have the OBUs before it, and whatever is
/// all there from it on.
proof fn lemma_placeless_unroll(x: Seq<u8>, b: Seq<u8>, at: int, k: int)
    requires
        0 <= at <= x.len(),
        placeless_from(x, at) is Ok,
        0 <= k < placeless_from(x, at)->Ok_0.len(),
    ensures
        ({
            let list = placeless_from(x, at)->Ok_0;
            &&& at <= list[k].start < x.len()
            &&& placeless_from(x + b, list[k].start) matches Ok(rest) ==> placeless_from(
                x + b,
                at,
            ) == Ok::<Seq<Obu>, Error>(list.take(k) + rest)
        }),
    decreases k,
{
    let w = x + b;
    let list = placeless_from(x, at)->Ok_0;
    lemma_placeless(x, at);
    obu::lemma_obu_at(x, at);
    if k == 0 {
        assert(list.take(0) =~= Seq::empty());
        if let Ok(rest) = placeless_from(w, at) {
            assert(list.take(0) + rest =~= rest);
        }
    } else {
        lemma_step_prefix(x, b, at);
        let o = placeless_step(x, at)->Whole_0;
        let more = placeless_from(x, o.end)->Ok_0;
        assert(list =~= seq![o] + more);
        lemma_placeless_unroll(x, b, o.end, k - 1);
        assert(list[k] == more[k - 1]);
        if let Ok(rest) = placeless_from(w, list[k].start) {
            assert(seq![o] + (more.take(k - 1) + rest) =~= list.take(k) + rest);
        }
    }
}

/// Bytes cut at OBU `k` and grown there have, with the bytes before it
/// put back, the OBUs before it and those they had.
pub proof fn lemma_placeless_join(x: Seq<u8>, b: Seq<u8>, k: int)
    requires
        x.len() + b.len() <= usize::MAX,
        placeless_from(x, 0) is Ok,
        0 <= k < placeless_from(x, 0)->Ok_0.len(),
        ({
            let p = placeless_from(x, 0)->Ok_0[k].start;
            placeless_from(x.skip(p) + b, 0) is Ok
        }),
    ensures
        ({
            let list = placeless_from(x, 0)->Ok_0;
            let p = list[k].start;
            let own = placeless_from(x.skip(p) + b, 0)->Ok_0;
            &&& 0 <= p < x.len()
            &&& placeless_from(x + b, 0) == Ok::<Seq<Obu>, Error>(
                list.take(k) + obu_laws::all_shifted(own, p),
            )
        }),
{
    let w = x + b;
    let p = placeless_from(x, 0)->Ok_0[k].start;
    lemma_placeless_unroll(x, b, 0, k);
    assert(w.skip(p) =~= x.skip(p) + b);
    lemma_placeless_shift(w, p, 0);
}

} // verus!
