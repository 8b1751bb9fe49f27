//! What holds of a stream whose carriers took payloads: the carriers are
//! still the carriers. There are as many, each is a keyframe or not as
//! it was, each has its own bytes, and each holds its own payloads and
//! the one it took.

use vstd::prelude::*;
use crate::annexb;
use crate::annexb::START_CODE;
use crate::annexb_laws;
use crate::bytes;
use crate::ep;
use crate::growth;
use crate::h26x;
use crate::h26x::{Codec, Unit};
use crate::marks;
use crate::sei;
use crate::sei_laws;

verus! {

/// An index behind one more at `f`.
pub open spec fn made_room(list: Seq<int>, f: int) -> Seq<int> {
    Seq::new(
        list.len(),
        |m: int|
            if list[m] <= f {
                list[m]
            } else {
                list[m] + 1
            },
    )
}

/// A list with one more at `f`.
pub open spec fn with_one(nals: Seq<Seq<u8>>, f: int, nal: Seq<u8>) -> Seq<Seq<u8>> {
    nals.take(f) + seq![nal] + nals.skip(f)
}

/// Marks with one unmarked index more behind the first.
proof fn lemma_marks_room(f: spec_fn(int) -> bool, g: spec_fn(int) -> bool, n: int)
    requires
        n >= 1,
        g(0) == f(0),
        !g(1),
        forall|i: int| 1 <= i < n ==> #[trigger] f(i) == g(i + 1),
    ensures
        marks::marks(g, n + 1) == made_room(marks::marks(f, n), 0),
    decreases n,
{
    marks::lemma_marks(f, n);
    if n == 1 {
        reveal_with_fuel(marks::marks, 3);
        assert(marks::marks(g, 2) =~= made_room(marks::marks(f, 1), 0));
    } else {
        lemma_marks_room(f, g, n - 1);
        marks::lemma_marks(f, n - 1);
        assert(f(n - 1) == g(n));
        assert(marks::marks(g, n + 1) =~= made_room(marks::marks(f, n), 0));
    }
}

/// No slice is pending behind NAL units of an access unit that hold
/// none.
proof fn lemma_not_pending(codec: Codec, nals: Seq<Seq<u8>>, i: int, f: int)
    requires
        0 <= i < f <= nals.len(),
        h26x::opens(codec, nals, i),
        forall|k: int| i <= k < f ==> !h26x::is_slice(codec, #[trigger] nals[k]),
    ensures
        !h26x::slice_pending(codec, nals, f),
    decreases f - i,
{
    assert(!h26x::is_slice(codec, nals[f - 1]));
    if i < f - 1 {
        lemma_not_pending(codec, nals, i, f - 1);
    }
}

/// An SEI breaks from a slice before it.
proof fn lemma_sei_breaks(codec: Codec, nal: Seq<u8>)
    requires
        h26x::is_sei(codec, nal),
    ensures
        h26x::breaks(codec, nal),
        !h26x::is_slice(codec, nal),
        !h26x::is_key_slice(codec, nal),
        h26x::type_of(codec, nal) is Some,
{
}

/// What opens an access unit before the place of an SEI, at it, and just
/// behind it.
proof fn lemma_opens_woven_near(
    codec: Codec,
    nals: Seq<Seq<u8>>,
    i: int,
    f: int,
    nal: Seq<u8>,
)
    requires
        0 <= i <= f <= nals.len(),
        i < nals.len(),
        h26x::opens(codec, nals, i),
        forall|k: int| i <= k < f ==> !h26x::is_slice(codec, #[trigger] nals[k]),
        f < nals.len() ==> h26x::is_slice(codec, nals[f]),
        h26x::is_sei(codec, nal),
    ensures
        ({
            let woven = with_one(nals, f, nal);
            &&& forall|k: int|
                0 <= k < f ==> #[trigger] h26x::opens(codec, woven, k) == h26x::opens(
                    codec,
                    nals,
                    k,
                )
            &&& h26x::opens(codec, woven, f) == (i == f)
            &&& f < nals.len() ==> h26x::opens(codec, nals, f) == (i == f)
            &&& f < nals.len() ==> !h26x::opens(codec, woven, f + 1)
            &&& !h26x::slice_pending(codec, woven, f + 1)
        }),
{
    let woven = with_one(nals, f, nal);
    lemma_sei_breaks(codec, nal);
    assert forall|k: int| 0 <= k < f implies woven[k] == nals[k] by {}
    assert(woven[f] == nal);
    assert forall|k: int| 0 <= k < f implies #[trigger] h26x::opens(codec, woven, k)
        == h26x::opens(codec, nals, k) by {
        growth::lemma_opens_agrees(codec, woven, nals, k);
    }
    growth::lemma_pending_agrees(codec, woven, nals, f);
    assert(h26x::type_of(codec, nals[i]) is Some);
    if i < f {
        lemma_not_pending(codec, nals, i, f);
        assert(woven[i] == nals[i]);
        assert(!h26x::opens(codec, woven, f));
    } else {
        assert(h26x::opens(codec, woven, f)) by {
            if forall|j: int| 0 <= j < f ==> h26x::type_of(codec, #[trigger] nals[j]) is None {
                assert forall|j: int| 0 <= j < f implies h26x::type_of(
                    codec,
                    #[trigger] woven[j],
                ) is None by {
                    assert(woven[j] == nals[j]);
                }
            }
        }
    }
    assert(!h26x::slice_pending(codec, woven, f + 1));
    if f < nals.len() {
        assert(h26x::type_of(codec, woven[f]) is Some);
    }
}

/// What opens an access unit behind the slice that an SEI was put before
/// is what opened one.
proof fn lemma_opens_woven_behind(
    codec: Codec,
    nals: Seq<Seq<u8>>,
    i: int,
    f: int,
    nal: Seq<u8>,
    j: int,
)
    requires
        0 <= i <= f < j < nals.len(),
        h26x::opens(codec, nals, i),
        forall|k: int| i <= k < f ==> !h26x::is_slice(codec, #[trigger] nals[k]),
        h26x::is_slice(codec, nals[f]),
        h26x::is_sei(codec, nal),
    ensures
        h26x::opens(codec, with_one(nals, f, nal), j + 1) == h26x::opens(codec, nals, j),
        h26x::slice_pending(codec, with_one(nals, f, nal), j + 1) == h26x::slice_pending(
            codec,
            nals,
            j,
        ),
    decreases j,
{
    let woven = with_one(nals, f, nal);
    assert(woven[f] == nal);
    assert(woven[j] == nals[j - 1]);
    assert(woven[j + 1] == nals[j]);
    assert(h26x::type_of(codec, nals[f]) is Some);
    lemma_sei_breaks(codec, nal);
    if j > f + 1 {
        lemma_opens_woven_behind(codec, nals, i, f, nal, j - 1);
    }
}

/// The access units of NAL units among which one took an SEI open where
/// they did.
proof fn lemma_openings_woven(codec: Codec, nals: Seq<Seq<u8>>, u: int, nal: Seq<u8>)
    requires
        0 <= u < h26x::openings(codec, nals).len(),
        h26x::is_sei(codec, nal),
    ensures
        ({
            let open = h26x::openings(codec, nals);
            let next = marks::next_of(open, u, nals.len() as int);
            let f = h26x::first_slice(codec, nals, open[u], next);
            &&& 0 <= open[u] <= f <= nals.len()
            &&& f < next || f == nals.len()
            &&& h26x::openings(codec, with_one(nals, f, nal)) == made_room(open, f)
        }),
{
    let open = h26x::openings(codec, nals);
    let n = nals.len() as int;
    let i = open[u];
    let next = marks::next_of(open, u, n);
    let f = h26x::first_slice(codec, nals, i, next);
    let woven = with_one(nals, f, nal);
    let was = h26x::is_opening(codec, nals);
    let is = h26x::is_opening(codec, woven);
    marks::lemma_marks(was, n);
    assert(was(open[u]));
    assert(i < next <= n);
    h26x::lemma_first_slice(codec, nals, i, next);
    if u + 1 < open.len() {
        sei_laws::lemma_unit_has_slice(codec, nals, u);
    }
    lemma_opens_woven_near(codec, nals, i, f, nal);
    let was_from = |k: int| was(f + k);
    let is_from = |k: int| is(f + k);
    marks::lemma_marks_split(was, f, was_from, n - f);
    marks::lemma_marks_split(is, f, is_from, n + 1 - f);
    assert forall|k: int| 0 <= k < f implies #[trigger] is(k) == was(k) by {
        assert(h26x::opens(codec, woven, k) == h26x::opens(codec, nals, k));
    }
    marks::lemma_marks_agree(is, was, f);
    marks::lemma_marks(was, f);
    if f < n {
        assert forall|k: int| 1 <= k < n - f implies #[trigger] was_from(k) == is_from(k + 1) by {
            lemma_opens_woven_behind(codec, nals, i, f, nal, f + k);
        }
        lemma_marks_room(was_from, is_from, n - f);
        marks::lemma_marks(was_from, n - f);
    } else {
        assert(!is_from(0));
        assert(marks::marks(is_from, 1) =~= Seq::empty()) by {
            reveal_with_fuel(marks::marks, 2);
        }
    }
    assert(woven.len() == n + 1);
    assert(h26x::openings(codec, woven) =~= made_room(open, f));
}

/// A stream with `nal` behind a start code of its own at `at`.
pub open spec fn put_at(s: Seq<u8>, at: int, nal: Seq<u8>) -> Seq<u8> {
    s.take(at) + START_CODE@ + nal + s.skip(at)
}

/// Whether `at` is the start code of NAL unit `f` or, where there is
/// none, the end of the stream.
pub open spec fn is_place(s: Seq<u8>, f: int, at: int) -> bool {
    if f < annexb::codes(s).len() {
        at == annexb::nal_at(s, f).code
    } else {
        f == annexb::codes(s).len() && at == s.len()
    }
}

/// The start codes of a stream cut at the place of a NAL unit.
proof fn lemma_codes_cut(s: Seq<u8>, f: int, at: int)
    requires
        0 <= f,
        is_place(s, f, at),
    ensures
        0 <= at <= s.len(),
        annexb_laws::opens_at_code(s.skip(at)),
        annexb::codes(s) == annexb::codes(s.take(at)) + marks::moved(
            annexb::codes(s.skip(at)),
            at,
        ),
        annexb::codes(s.take(at)).len() == f,
{
    let a = s.take(at);
    let b = s.skip(at);
    let cs = annexb::codes(s);
    let ca = annexb::codes(a);
    let cb = annexb::codes(b);
    if f < cs.len() {
        annexb::lemma_nal(s, f);
        sei_laws::lemma_opens_at_nal(s, f);
    }
    assert(annexb_laws::opens_at_code(b));
    assert(a + b =~= s);
    annexb_laws::lemma_codes_concat(a, b);
    assert(!(f < ca.len())) by {
        if f < ca.len() {
            annexb::lemma_codes(a);
            assert(cs[f] == ca[f]);
        }
    }
    assert(!(ca.len() < f)) by {
        if ca.len() < f {
            let z = ca.len() as int;
            annexb::lemma_codes(b);
            assert(cs[z] == marks::moved(cb, at)[0]);
            assert(cs[z] >= at);
            annexb::lemma_nal(s, z);
            if f < cs.len() {
                annexb_laws::lemma_nals_in_order(s, z, f);
            }
        }
    }
}

/// The start codes and NAL units of a stream, and of the stream with one
/// NAL unit more, around the place of it.
#[verifier::rlimit(40)]
proof fn lemma_codes_woven(s: Seq<u8>, f: int, at: int, nal: Seq<u8>)
    requires
        0 <= f,
        is_place(s, f, at),
        annexb::clean(nal),
    ensures
        ({
            let cs = annexb::codes(s);
            let cw = annexb::codes(put_at(s, at, nal));
            let d = 4 + nal.len();
            &&& 0 <= at <= s.len()
            &&& cw.len() == cs.len() + 1
            &&& forall|j: int| 0 <= j < f ==> #[trigger] cw[j] == cs[j] && cs[j] <= at
            &&& cw[f] == at + 1
            &&& forall|j: int| f <= j < cs.len() ==> cw[j + 1] == #[trigger] cs[j] + d && cs[j]
                >= at
            &&& annexb::split(put_at(s, at, nal)) == with_one(annexb::split(s), f, nal)
        }),
{
    let a = s.take(at);
    let b = s.skip(at);
    let x = START_CODE@ + nal;
    let y = x + b;
    let w = put_at(s, at, nal);
    let cs = annexb::codes(s);
    let ca = annexb::codes(a);
    let cb = annexb::codes(b);
    let cw = annexb::codes(w);
    lemma_codes_cut(s, f, at);
    assert(w =~= a + y);
    assert(annexb_laws::opens_at_code(y)) by {
        assert(y[0] == 0 && y[1] == 0 && y[2] == 0 && y[3] == 1);
        assert(annexb::code_at(y, 1));
    }
    annexb_laws::lemma_codes_concat(a, y);
    annexb_laws::lemma_codes_concat(x, b);
    lemma_codes_one(nal);
    let back = marks::moved(seq![1int] + marks::moved(cb, x.len() as int), at);
    assert(cw == ca + back);
    marks::lemma_marks(annexb::is_code(a), a.len() as int);
    marks::lemma_marks(annexb::is_code(b), b.len() as int);
    assert forall|j: int| 0 <= j < f implies #[trigger] cw[j] == cs[j] && cs[j] <= at by {
        assert(cs[j] == ca[j] && cw[j] == ca[j]);
    }
    assert(cw[f] == back[0]);
    assert forall|j: int| f <= j < cs.len() implies cw[j + 1] == #[trigger] cs[j] + (4
        + nal.len()) && cs[j] >= at by {
        assert(cs[j] == cb[j - f] + at);
        assert(cw[j + 1] == back[j + 1 - f]);
    }
    lemma_split_woven(s, f, at, nal);
}

/// The NAL units of a stream with one NAL unit more.
proof fn lemma_split_woven(s: Seq<u8>, f: int, at: int, nal: Seq<u8>)
    requires
        0 <= f,
        is_place(s, f, at),
        annexb::clean(nal),
    ensures
        annexb::split(put_at(s, at, nal)) == with_one(annexb::split(s), f, nal),
{
    let a = annexb::split(s.take(at));
    let b = annexb::split(s.skip(at));
    lemma_codes_cut(s, f, at);
    annexb_laws::splicing_adds_one_nal(s, at, nal);
    assert(a.len() == f);
    assert(annexb::split(s).take(f) =~= a);
    assert(annexb::split(s).skip(f) =~= b);
}

/// A clean NAL unit behind a start code has that start code and no
/// other.
pub proof fn lemma_codes_one(nal: Seq<u8>)
    requires
        annexb::clean(nal),
    ensures
        annexb::codes(START_CODE@ + nal) == seq![1int],
{
    let x = START_CODE@ + nal;
    let cx = annexb::codes(x);
    annexb_laws::lemma_split_one(nal);
    assert(cx.len() == annexb::split(x).len());
    annexb::lemma_codes(x);
    assert(x[0] == 0 && x[1] == 0 && x[2] == 0 && x[3] == 1);
    assert(annexb::code_at(x, 1));
    assert(cx.contains(1));
    assert(cx =~= seq![1int]);
}

/// A NAL unit before the place of one more lies where it did.
proof fn lemma_place_before(s: Seq<u8>, f: int, at: int, nal: Seq<u8>, j: int)
    requires
        0 <= j < f,
        is_place(s, f, at),
        annexb::clean(nal),
    ensures
        annexb::nal_at(put_at(s, at, nal), j).pad == annexb::nal_at(s, j).pad,
        annexb::nal_at(put_at(s, at, nal), j).code == annexb::nal_at(s, j).code,
{
    let a = s.take(at);
    let b = s.skip(at);
    let behind = START_CODE@ + nal + b;
    let cs = annexb::codes(s);
    lemma_codes_woven(s, f, at, nal);
    annexb::lemma_codes(s);
    assert(a + b =~= s);
    assert(put_at(s, at, nal) =~= a + behind);
    assert(annexb::codes(put_at(s, at, nal))[j] == cs[j]);
    annexb_laws::lemma_zero_run_prefix(a, behind, cs[j]);
    annexb_laws::lemma_zero_run_prefix(a, b, cs[j]);
}

/// One more NAL unit takes the padding of the one it was put before, and
/// that one's start code follows it directly.
proof fn lemma_place_at(s: Seq<u8>, f: int, at: int, nal: Seq<u8>)
    requires
        0 <= f < annexb::codes(s).len(),
        is_place(s, f, at),
        annexb::clean(nal),
        nal.len() > 0,
    ensures
        annexb::nal_at(put_at(s, at, nal), f).pad == annexb::nal_at(s, f).pad,
        annexb::nal_at(put_at(s, at, nal), f + 1).code == at + 4 + nal.len(),
{
    let a = s.take(at);
    let b = s.skip(at);
    let behind = START_CODE@ + nal + b;
    let w = put_at(s, at, nal);
    let c = annexb::codes(s)[f];
    let d = 4 + nal.len();
    lemma_codes_woven(s, f, at, nal);
    annexb::lemma_nal(s, f);
    assert(a + b =~= s);
    assert(w =~= a + behind);
    assert(annexb::codes(w)[f] == at + 1);
    assert(annexb::codes(w)[f + 1] == c + d);
    annexb_laws::lemma_zero_run_prefix(a, behind, at);
    annexb_laws::lemma_zero_run_prefix(a, b, at);
    assert(w[at] == 0);
    assert(bytes::zero_run(w, at + 1) == bytes::zero_run(w, at));
    assert(w[at + d - 1] == nal.last());
    assert(bytes::zero_run(w, at + d) == at + d);
    if c == at + 1 {
        bytes::lemma_zero_run(s, c);
        assert(s[at] == 0);
        assert(bytes::zero_run(s, at + 1) == bytes::zero_run(s, at));
        assert(w[at + d] == s[at]);
        assert(bytes::zero_run(w, at + d + 1) == at + d);
    }
}

/// A NAL unit behind the one that another was put before lies as much
/// further.
proof fn lemma_place_behind(s: Seq<u8>, f: int, at: int, nal: Seq<u8>, j: int)
    requires
        0 <= f < j < annexb::codes(s).len(),
        is_place(s, f, at),
        annexb::clean(nal),
    ensures
        annexb::nal_at(put_at(s, at, nal), j + 1).pad == annexb::nal_at(s, j).pad + 4 + nal.len(),
        annexb::nal_at(put_at(s, at, nal), j + 1).code == annexb::nal_at(s, j).code + 4
            + nal.len(),
{
    let b = s.skip(at);
    let w = put_at(s, at, nal);
    let c = annexb::codes(s)[j];
    let d = 4 + nal.len();
    lemma_codes_woven(s, f, at, nal);
    annexb::lemma_codes(s);
    annexb::lemma_nal(s, f);
    annexb::lemma_nal(s, j);
    annexb_laws::lemma_nals_in_order(s, f, j);
    assert(annexb::codes(w)[j + 1] == c + d);
    assert(w.skip(at + d) =~= b);
    assert(w.len() == s.len() + d);
    annexb_laws::lemma_zero_run_suffix(s, at, c - at);
    annexb_laws::lemma_zero_run_suffix(w, at + d, c - at);
    assert(annexb::nal_at(s, j).pad > at);
}

/// The only NAL unit that can be the first slice.
proof fn lemma_first_slice_is(codec: Codec, nals: Seq<Seq<u8>>, i: int, j: int, k: int)
    requires
        i <= k <= j,
        forall|m: int| i <= m < k ==> !h26x::is_slice(codec, #[trigger] nals[m]),
        k < j ==> h26x::is_slice(codec, nals[k]),
    ensures
        h26x::first_slice(codec, nals, i, j) == k,
    decreases j - i,
{
    if i < k {
        assert(!h26x::is_slice(codec, nals[i]));
        lemma_first_slice_is(codec, nals, i + 1, j, k);
    }
}

/// Whether an access unit is a random access point.
spec fn has_key(codec: Codec, nals: Seq<Seq<u8>>, i: int, j: int) -> bool {
    exists|k: int| i <= k < j && h26x::is_key_slice(codec, #[trigger] nals[k])
}

/// An access unit among others, one of which took an NAL unit of `d`
/// bytes, start code and all: what lies before the place stays, what
/// lies behind it moves.
pub open spec fn unit_woven(unit: Unit, m: int, u: int, d: int) -> Unit {
    if m < u {
        unit
    } else if m == u {
        Unit { end: unit.end + d, insert_at: unit.insert_at + d, ..unit }
    } else {
        growth::unit_moved(unit, d)
    }
}

/// The NAL units of one access unit, before and after an access unit took
/// an SEI: which is the first slice, and whether one is of a random
/// access point.
proof fn lemma_unit_nals_woven(
    codec: Codec,
    nals: Seq<Seq<u8>>,
    nal: Seq<u8>,
    f: int,
    i: int,
    j: int,
)
    requires
        0 <= i < j <= nals.len(),
        0 <= f <= nals.len(),
        j <= f || i <= f == h26x::first_slice(codec, nals, i, j) || f < i,
        h26x::is_sei(codec, nal),
    ensures
        ({
            let woven = with_one(nals, f, nal);
            let i2 = if i <= f {
                i
            } else {
                i + 1
            };
            let j2 = if j <= f && j < nals.len() {
                j
            } else {
                j + 1
            };
            let k = h26x::first_slice(codec, nals, i, j);
            let k2 = h26x::first_slice(codec, woven, i2, j2);
            &&& has_key(codec, woven, i2, j2) == has_key(codec, nals, i, j)
            &&& k2 == if k < j {
                if k < f {
                    k
                } else {
                    k + 1
                }
            } else {
                j2
            }
            &&& k < j ==> woven[k2] == nals[k]
        }),
{
    let woven = with_one(nals, f, nal);
    let i2 = if i <= f {
        i
    } else {
        i + 1
    };
    let j2 = if j <= f && j < nals.len() {
        j
    } else {
        j + 1
    };
    let k = h26x::first_slice(codec, nals, i, j);
    h26x::lemma_first_slice(codec, nals, i, j);
    lemma_sei_breaks(codec, nal);
    assert(woven[f] == nal);
    assert forall|m: int| 0 <= m < f implies woven[m] == nals[m] by {}
    assert forall|m: int| f <= m < nals.len() implies woven[m + 1] == nals[m] by {}
    let want = if k < j {
        if k < f {
            k
        } else {
            k + 1
        }
    } else {
        j2
    };
    assert forall|m: int| i2 <= m < want implies !h26x::is_slice(codec, #[trigger] woven[m]) by {
        if m < f {
            assert(!h26x::is_slice(codec, nals[m]));
        } else if m > f {
            assert(woven[m] == nals[m - 1]);
            assert(!h26x::is_slice(codec, nals[m - 1]));
        }
    }
    lemma_first_slice_is(codec, woven, i2, j2, want);
    if has_key(codec, nals, i, j) {
        let m = choose|m: int| i <= m < j && h26x::is_key_slice(codec, #[trigger] nals[m]);
        if m < f {
            assert(h26x::is_key_slice(codec, woven[m]));
        } else {
            assert(h26x::is_key_slice(codec, woven[m + 1]));
        }
    }
    if has_key(codec, woven, i2, j2) {
        let m = choose|m: int| i2 <= m < j2 && h26x::is_key_slice(codec, #[trigger] woven[m]);
        if m < f {
            assert(h26x::is_key_slice(codec, nals[m]));
        } else {
            assert(m > f);
            assert(h26x::is_key_slice(codec, nals[m - 1]));
        }
    }
}

/// The place an access unit takes an SEI at is that of a NAL unit.
proof fn lemma_unit_place(s: Seq<u8>, codec: Codec, u: int)
    requires
        0 <= u < h26x::units(s, codec).len(),
    ensures
        ({
            let nals = annexb::split(s);
            let open = h26x::openings(codec, nals);
            let next = marks::next_of(open, u, nals.len() as int);
            let f = h26x::first_slice(codec, nals, open[u], next);
            is_place(s, f, h26x::units(s, codec)[u].insert_at)
        }),
{
    let nals = annexb::split(s);
    let n = nals.len() as int;
    let open = h26x::openings(codec, nals);
    let next = marks::next_of(open, u, n);
    let f = h26x::first_slice(codec, nals, open[u], next);
    marks::lemma_marks(h26x::is_opening(codec, nals), n);
    assert(open[u] < next <= n);
    h26x::lemma_first_slice(codec, nals, open[u], next);
    if u + 1 < open.len() {
        sei_laws::lemma_unit_has_slice(codec, nals, u);
    }
    assert(h26x::units(s, codec)[u] == h26x::unit_between(s, codec, open[u], next));
    if f < next {
        assert(annexb::scan(s)[f] == annexb::nal_at(s, f));
    }
}

/// The access units of a stream one of which took an SEI are the access
/// units it had: as many, each a keyframe or not as it was and of the
/// temporal layer it was, the bytes before the SEI where they were and
/// those behind it moved by its length.
pub proof fn an_sei_leaves_the_access_units(s: Seq<u8>, codec: Codec, u: int, nal: Seq<u8>)
    requires
        0 <= u < h26x::units(s, codec).len(),
        h26x::is_sei(codec, nal),
        annexb::clean(nal),
    ensures
        ({
            let found = h26x::units(s, codec);
            let now = h26x::units(put_at(s, found[u].insert_at, nal), codec);
            &&& now.len() == found.len()
            &&& forall|m: int|
                0 <= m < found.len() ==> #[trigger] now[m] == unit_woven(
                    found[m],
                    m,
                    u,
                    4 + nal.len() as int,
                )
        }),
{
    let found = h26x::units(s, codec);
    let at = found[u].insert_at;
    let now = h26x::units(put_at(s, at, nal), codec);
    let nals = annexb::split(s);
    let open = h26x::openings(codec, nals);
    let f = h26x::first_slice(
        codec,
        nals,
        open[u],
        marks::next_of(open, u, nals.len() as int),
    );
    lemma_openings_woven(codec, nals, u, nal);
    lemma_unit_place(s, codec, u);
    lemma_codes_woven(s, f, at, nal);
    assert forall|m: int| 0 <= m < found.len() implies #[trigger] now[m] == unit_woven(
        found[m],
        m,
        u,
        4 + nal.len() as int,
    ) by {
        lemma_unit_woven(s, codec, u, nal, m);
    }
}

/// Where the place of an SEI lies among the openings.
proof fn lemma_order(codec: Codec, nals: Seq<Seq<u8>>, u: int, m: int)
    requires
        0 <= u < h26x::openings(codec, nals).len(),
        0 <= m < h26x::openings(codec, nals).len(),
    ensures
        ({
            let n = nals.len() as int;
            let open = h26x::openings(codec, nals);
            let next = marks::next_of(open, u, n);
            let f = h26x::first_slice(codec, nals, open[u], next);
            let i = open[m];
            let j = marks::next_of(open, m, n);
            &&& 0 <= i < j <= n
            &&& open[u] <= f <= next
            &&& m <= u ==> i <= f
            &&& m < u ==> j <= f && j < n
            &&& m == u ==> j == next && (f < j || f == n)
            &&& m > u ==> f < i
            &&& m + 1 < open.len() ==> j < n
        }),
{
    let n = nals.len() as int;
    let open = h26x::openings(codec, nals);
    let next = marks::next_of(open, u, n);
    marks::lemma_marks(h26x::is_opening(codec, nals), n);
    assert(open[u] < next);
    h26x::lemma_first_slice(codec, nals, open[u], next);
    if u + 1 < open.len() {
        sei_laws::lemma_unit_has_slice(codec, nals, u);
    }
    if m < u {
        assert(open[m] < open[u]);
        if m + 1 < u {
            assert(open[m + 1] < open[u]);
        }
    } else if m > u {
        if u + 1 < m {
            assert(open[u + 1] < open[m]);
        }
    }
}

#[verifier::rlimit(40)]
proof fn lemma_unit_woven(s: Seq<u8>, codec: Codec, u: int, nal: Seq<u8>, m: int)
    requires
        0 <= u < h26x::units(s, codec).len(),
        0 <= m < h26x::units(s, codec).len(),
        h26x::is_sei(codec, nal),
        annexb::clean(nal),
    ensures
        ({
            let found = h26x::units(s, codec);
            h26x::units(put_at(s, found[u].insert_at, nal), codec)[m] == unit_woven(
                found[m],
                m,
                u,
                4 + nal.len() as int,
            )
        }),
{
    let found = h26x::units(s, codec);
    let at = found[u].insert_at;
    let w = put_at(s, at, nal);
    let nals = annexb::split(s);
    let woven = annexb::split(w);
    let n = nals.len() as int;
    let d = 4 + nal.len() as int;
    let open = h26x::openings(codec, nals);
    let f = h26x::first_slice(codec, nals, open[u], marks::next_of(open, u, n));
    lemma_openings_woven(codec, nals, u, nal);
    assert(nal.len() > 0);
    lemma_unit_place(s, codec, u);
    lemma_codes_woven(s, f, at, nal);
    lemma_order(codec, nals, u, m);
    let open_w = made_room(open, f);
    let i = open[m];
    let j = marks::next_of(open, m, n);
    let i2 = open_w[m];
    let j2 = marks::next_of(open_w, m, n + 1);
    lemma_unit_nals_woven(codec, nals, nal, f, i, j);
    let k = h26x::first_slice(codec, nals, i, j);
    h26x::lemma_first_slice(codec, nals, i, j);
    let was = h26x::unit_between(s, codec, i, j);
    let now = h26x::unit_between(w, codec, i2, j2);
    assert(found[m] == was);
    assert(h26x::units(w, codec)[m] == now);
    assert(was.keyframe == has_key(codec, nals, i, j));
    assert(now.keyframe == has_key(codec, woven, i2, j2));
    let want = unit_woven(was, m, u, d);
    assert(now.start == want.start) by {
        if i < f {
            lemma_place_before(s, f, at, nal, i);
        } else if i == f {
            lemma_place_at(s, f, at, nal);
        } else {
            lemma_place_behind(s, f, at, nal, i);
        }
    }
    assert(now.end == want.end) by {
        if j < n {
            if j < f {
                lemma_place_before(s, f, at, nal, j);
            } else if j == f {
                lemma_place_at(s, f, at, nal);
            } else {
                lemma_place_behind(s, f, at, nal, j);
            }
        }
    }
    assert(now.insert_at == want.insert_at) by {
        if k < j {
            if m < u {
                lemma_place_before(s, f, at, nal, k);
            } else if m == u {
                lemma_place_at(s, f, at, nal);
            } else {
                lemma_place_behind(s, f, at, nal, k);
            }
        }
    }
}

/// The bytes of access unit `m` of a stream.
pub open spec fn unit_bytes(s: Seq<u8>, codec: Codec, m: int) -> Seq<u8> {
    s.subrange(h26x::units(s, codec)[m].start, h26x::units(s, codec)[m].end)
}

/// How far into access unit `m` of a stream its place for an SEI is.
pub open spec fn place_in_unit(s: Seq<u8>, codec: Codec, m: int) -> int {
    h26x::units(s, codec)[m].insert_at - h26x::units(s, codec)[m].start
}

/// An access unit that took an SEI has its bytes with the SEI at its
/// place; every other has its bytes.
pub proof fn an_sei_changes_one_access_unit(s: Seq<u8>, codec: Codec, u: int, nal: Seq<u8>, m: int)
    requires
        0 <= u < h26x::units(s, codec).len(),
        0 <= m < h26x::units(s, codec).len(),
        h26x::is_sei(codec, nal),
        annexb::clean(nal),
    ensures
        unit_bytes(put_at(s, h26x::units(s, codec)[u].insert_at, nal), codec, m) == if m == u {
            put_at(unit_bytes(s, codec, m), place_in_unit(s, codec, m), nal)
        } else {
            unit_bytes(s, codec, m)
        },
{
    let found = h26x::units(s, codec);
    let at = found[u].insert_at;
    let w = put_at(s, at, nal);
    an_sei_leaves_the_access_units(s, codec, u, nal);
    h26x::lemma_units(s, codec);
    let now = h26x::units(w, codec);
    assert(now[m] == unit_woven(found[m], m, u, 4 + nal.len() as int));
    assert(found[u].start <= at <= found[u].end);
    if m < u {
        lemma_units_in_order(found, s.len() as int, m, u);
        assert(unit_bytes(w, codec, m) =~= unit_bytes(s, codec, m));
    } else if m == u {
        assert(unit_bytes(w, codec, m) =~= put_at(
            unit_bytes(s, codec, m),
            place_in_unit(s, codec, m),
            nal,
        ));
    } else {
        lemma_units_in_order(found, s.len() as int, u, m);
        assert(unit_bytes(w, codec, m) =~= unit_bytes(s, codec, m));
    }
}

/// Access units that tile a stream come in order.
proof fn lemma_units_in_order(list: Seq<Unit>, to: int, j: int, k: int)
    requires
        h26x::units_tiled(list, to),
        0 <= j < k < list.len(),
    ensures
        list[j].end <= list[k].start,
    decreases k - j,
{
    assert(list[j].end == list[j + 1].start);
    if j + 1 < k {
        lemma_units_in_order(list, to, j + 1, k);
    }
}

/// A stream whose access units from `k` on each took an SEI of their
/// own.
pub open spec fn woven_from(s: Seq<u8>, codec: Codec, nals: Seq<Seq<u8>>, k: int) -> Seq<u8>
    decreases h26x::units(s, codec).len() - k,
{
    if k >= h26x::units(s, codec).len() {
        s
    } else {
        put_at(woven_from(s, codec, nals, k + 1), h26x::units(s, codec)[k].insert_at, nals[k])
    }
}

/// Access units that each took an SEI, one by one from the last.
proof fn lemma_woven_from(s: Seq<u8>, codec: Codec, nals: Seq<Seq<u8>>, k: int)
    requires
        0 <= k <= h26x::units(s, codec).len(),
        nals.len() == h26x::units(s, codec).len(),
        forall|m: int|
            0 <= m < nals.len() ==> h26x::is_sei(codec, #[trigger] nals[m]) && annexb::clean(
                nals[m],
            ),
    ensures
        ({
            let found = h26x::units(s, codec);
            let w = woven_from(s, codec, nals, k);
            let now = h26x::units(w, codec);
            &&& now.len() == found.len()
            &&& forall|m: int|
                0 <= m < found.len() ==> {
                    &&& (#[trigger] now[m]).keyframe == found[m].keyframe
                    &&& now[m].temporal_id_plus1 == found[m].temporal_id_plus1
                    &&& m < k ==> now[m] == found[m]
                    &&& unit_bytes(w, codec, m) == if m >= k {
                        put_at(unit_bytes(s, codec, m), place_in_unit(s, codec, m), nals[m])
                    } else {
                        unit_bytes(s, codec, m)
                    }
                }
        }),
    decreases h26x::units(s, codec).len() - k,
{
    let found = h26x::units(s, codec);
    if k < found.len() {
        let before = woven_from(s, codec, nals, k + 1);
        let w = woven_from(s, codec, nals, k);
        let now = h26x::units(w, codec);
        let mid = h26x::units(before, codec);
        lemma_woven_from(s, codec, nals, k + 1);
        assert(mid[k] == found[k]);
        assert(w == put_at(before, mid[k].insert_at, nals[k]));
        an_sei_leaves_the_access_units(before, codec, k, nals[k]);
        assert forall|m: int| 0 <= m < found.len() implies {
            &&& (#[trigger] now[m]).keyframe == found[m].keyframe
            &&& now[m].temporal_id_plus1 == found[m].temporal_id_plus1
            &&& m < k ==> now[m] == found[m]
            &&& unit_bytes(w, codec, m) == if m >= k {
                put_at(unit_bytes(s, codec, m), place_in_unit(s, codec, m), nals[m])
            } else {
                unit_bytes(s, codec, m)
            }
        } by {
            assert(mid[m].keyframe == found[m].keyframe);
            assert(now[m] == unit_woven(mid[m], m, k, 4 + nals[k].len() as int));
            an_sei_changes_one_access_unit(before, codec, k, nals[k], m);
        }
    }
}

/// What an access unit holds from its place for an SEI on opens with a
/// start code, or is nothing.
proof fn lemma_unit_opens(s: Seq<u8>, codec: Codec, m: int)
    requires
        0 <= m < h26x::units(s, codec).len(),
    ensures
        0 <= place_in_unit(s, codec, m) <= unit_bytes(s, codec, m).len(),
        annexb_laws::opens_at_code(unit_bytes(s, codec, m).skip(place_in_unit(s, codec, m))),
{
    let found = h26x::units(s, codec);
    let unit = found[m];
    let at = unit.insert_at;
    let nals = annexb::split(s);
    let n = nals.len() as int;
    let open = h26x::openings(codec, nals);
    let next = marks::next_of(open, m, n);
    let f = h26x::first_slice(codec, nals, open[m], next);
    h26x::lemma_units(s, codec);
    lemma_order(codec, nals, m, m);
    lemma_unit_place(s, codec, m);
    let rest = unit_bytes(s, codec, m).skip(place_in_unit(s, codec, m));
    assert(rest =~= s.subrange(at, unit.end));
    if f < next {
        let c = annexb::codes(s)[f];
        annexb::lemma_codes(s);
        annexb::lemma_nal(s, f);
        bytes::lemma_zero_run(s, c);
        assert(annexb::code_at(s, c));
        assert(unit.end >= c + 3) by {
            if next < n {
                annexb_laws::lemma_nals_in_order(s, f, next);
            }
        }
        if at == c {
            assert(rest[0] == s[c] && rest[1] == s[c + 1] && rest[2] == s[c + 2]);
            assert(annexb::code_at(rest, 0));
        } else {
            assert(rest[0] == s[c - 1]);
            assert(rest[1] == s[c] && rest[2] == s[c + 1] && rest[3] == s[c + 2]);
            assert(annexb::code_at(rest, 1));
        }
    } else {
        assert(rest.len() == 0);
    }
}

/// The SEI NAL units that carry `payloads`, one to an access unit.
pub open spec fn seis_for(s: Seq<u8>, codec: Codec, payloads: Seq<Seq<u8>>) -> Seq<Seq<u8>> {
    Seq::new(
        payloads.len(),
        |m: int|
            sei::user_nal(payloads[m], codec, h26x::units(s, codec)[m].temporal_id_plus1),
    )
}

/// Whether what is found on access unit `m` of `w` is what is found on
/// that of `s`, with `payload` among it and nothing else.
pub open spec fn rides(
    s: Seq<u8>,
    w: Seq<u8>,
    codec: Codec,
    m: int,
    payload: Seq<u8>,
    uuid: Seq<u8>,
) -> bool {
    let held = sei::gathered(annexb::split(unit_bytes(s, codec, m)), codec, uuid);
    let now = sei::gathered(annexb::split(unit_bytes(w, codec, m)), codec, uuid);
    exists|i: int| 0 <= i <= held.len() && now == #[trigger] held.insert(i, payload)
}

/// A stream each of whose access units took a payload has the access
/// units it had, as many, each a keyframe or not as it was; and what is
/// found on each is what was found on it, with its payload among it and
/// nothing else.
pub proof fn woven_payloads_ride_on_their_access_units(
    s: Seq<u8>,
    codec: Codec,
    payloads: Seq<Seq<u8>>,
    uuid: Seq<u8>,
)
    requires
        payloads.len() == h26x::units(s, codec).len(),
        forall|m: int|
            0 <= m < payloads.len() ==> (#[trigger] payloads[m]).len() <= u32::MAX
                && bytes::opens_with(payloads[m], uuid),
    ensures
        ({
            let found = h26x::units(s, codec);
            let w = woven_from(s, codec, seis_for(s, codec, payloads), 0);
            let now = h26x::units(w, codec);
            &&& now.len() == found.len()
            &&& forall|m: int|
                0 <= m < found.len() ==> (#[trigger] now[m]).keyframe == found[m].keyframe
            &&& forall|m: int|
                0 <= m < found.len() ==> #[trigger] rides(s, w, codec, m, payloads[m], uuid)
        }),
{
    let found = h26x::units(s, codec);
    let nals = seis_for(s, codec, payloads);
    let w = woven_from(s, codec, nals, 0);
    let now = h26x::units(w, codec);
    assert forall|m: int| 0 <= m < nals.len() implies h26x::is_sei(codec, #[trigger] nals[m])
        && annexb::clean(nals[m]) by {
        lemma_user_nal(s, codec, m, payloads[m]);
    }
    lemma_woven_from(s, codec, nals, 0);
    assert forall|m: int| 0 <= m < found.len() implies #[trigger] rides(
        s,
        w,
        codec,
        m,
        payloads[m],
        uuid,
    ) by {
        assert(now[m].keyframe == found[m].keyframe);
        assert(payloads[m].len() <= u32::MAX);
        assert(annexb::clean(nals[m]));
        lemma_rides(s, w, codec, m, payloads[m], uuid);
    }
}

/// A payload rides on the access unit that took it.
proof fn lemma_rides(
    s: Seq<u8>,
    w: Seq<u8>,
    codec: Codec,
    m: int,
    payload: Seq<u8>,
    uuid: Seq<u8>,
)
    requires
        0 <= m < h26x::units(s, codec).len(),
        payload.len() <= u32::MAX,
        bytes::opens_with(payload, uuid),
        unit_bytes(w, codec, m) == put_at(
            unit_bytes(s, codec, m),
            place_in_unit(s, codec, m),
            sei::user_nal(payload, codec, h26x::units(s, codec)[m].temporal_id_plus1),
        ),
    ensures
        rides(s, w, codec, m, payload, uuid),
{
    let id = h26x::units(s, codec)[m].temporal_id_plus1;
    let nal = sei::user_nal(payload, codec, id);
    let v = unit_bytes(s, codec, m);
    let p = place_in_unit(s, codec, m);
    let held = sei::gathered(annexb::split(v), codec, uuid);
    let now = sei::gathered(annexb::split(unit_bytes(w, codec, m)), codec, uuid);
    let a = annexb::split(v.take(p));
    let b = annexb::split(v.skip(p));
    lemma_user_nal(s, codec, m, payload);
    lemma_unit_opens(s, codec, m);
    annexb_laws::splicing_adds_one_nal(v, p, nal);
    sei_laws::lemma_gathered_add(a, b, codec, uuid);
    sei_laws::lemma_gathered_between(a, nal, b, codec, uuid);
    sei_laws::a_payload_is_carried(payload, codec, id, uuid);
    let before = sei::gathered(a, codec, uuid);
    assert(now =~= held.insert(before.len() as int, payload));
}

/// The SEI for an access unit, with the temporal id of that access unit,
/// is an SEI and clean.
proof fn lemma_user_nal(s: Seq<u8>, codec: Codec, m: int, payload: Seq<u8>)
    requires
        0 <= m < h26x::units(s, codec).len(),
    ensures
        ({
            let nal = sei::user_nal(payload, codec, h26x::units(s, codec)[m].temporal_id_plus1);
            h26x::is_sei(codec, nal) && annexb::clean(nal)
        }),
{
    let id = h26x::units(s, codec)[m].temporal_id_plus1;
    let list = seq![sei::user_message(payload)];
    let nals = annexb::split(s);
    let open = h26x::openings(codec, nals);
    let f = h26x::first_slice(
        codec,
        nals,
        open[m],
        marks::next_of(open, m, nals.len() as int),
    );
    sei_laws::lemma_header_is_clean(codec, nals[f]);
    sei_laws::written_sei_is_clean(list, codec, id);
    sei_laws::lemma_header(codec, id, ep::escape(sei::sei_rbsp(list)));
}

} // verus!
