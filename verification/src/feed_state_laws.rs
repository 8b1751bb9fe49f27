//! What holds of a feed whatever is done with it: how its carriers are
//! numbered, what it holds, what an error and the end of a stream leave,
//! and how it goes on after a carrier it gave up on.

use vstd::prelude::*;
use crate::annexb;
use crate::annexb_laws;
use crate::feed;
use crate::feed::{Carrier, State, StreamKind};
use crate::feed_laws;
use crate::growth;
use crate::h26x;
use crate::h26x::Codec;
use crate::marks;
use crate::obu;
use crate::obu::Obu;
use crate::obu_laws;
use crate::sei;
use crate::sei_laws;
use crate::Error;

verus! {

/// What can be done with a feed.
pub enum Call {
    Push(Seq<u8>),
    Finish,
}

/// What a call leaves.
pub open spec fn call_leaves(state: State, call: Call) -> State {
    match call {
        Call::Push(chunk) => feed::push_leaves(state, chunk),
        Call::Finish => feed::finish_leaves(state),
    }
}

/// The carriers a call returns: none where a push is refused.
pub open spec fn call_returns(state: State, call: Call) -> Seq<Carrier> {
    match call {
        Call::Push(chunk) => match feed::push_answer(state, chunk) {
            Ok(out) => out,
            Err(_) => Seq::empty(),
        },
        Call::Finish => feed::finish_answer(state),
    }
}

/// What calls one after another leave.
pub open spec fn calls_leave(state: State, calls: Seq<Call>) -> State
    decreases calls.len(),
{
    if calls.len() == 0 {
        state
    } else {
        call_leaves(calls_leave(state, calls.drop_last()), calls.last())
    }
}

/// The carriers that calls one after another return, in order.
pub open spec fn calls_return(state: State, calls: Seq<Call>) -> Seq<Carrier>
    decreases calls.len(),
{
    if calls.len() == 0 {
        Seq::empty()
    } else {
        calls_return(state, calls.drop_last()) + call_returns(
            calls_leave(state, calls.drop_last()),
            calls.last(),
        )
    }
}

/// Carriers come out numbered one after another, over any pushes, taken
/// or refused, and any ends of streams between them, whatever is given
/// up on; and the feed's count is how many have come out.
pub proof fn carriers_are_numbered_in_order(state: State, calls: Seq<Call>)
    ensures
        calls_leave(state, calls).index == state.index + calls_return(state, calls).len(),
        forall|k: int|
            0 <= k < calls_return(state, calls).len() ==> (#[trigger] calls_return(
                state,
                calls,
            )[k]).index == state.index + k,
    decreases calls.len(),
{
    if calls.len() > 0 {
        let front = calls.drop_last();
        let before = calls_leave(state, front);
        carriers_are_numbered_in_order(state, front);
        let all = calls_return(state, calls);
        let some = calls_return(state, front);
        let last = call_returns(before, calls.last());
        assert forall|k: int| 0 <= k < all.len() implies (#[trigger] all[k]).index == state.index
            + k by {
            if k < some.len() {
                assert(all[k] == some[k]);
            } else {
                assert(all[k] == last[k - some.len()]);
            }
        }
    }
}

/// After a push, taken or refused, a feed holds no more bytes than its
/// limit and has given up on one carrier more at most; and on none where
/// the push is taken and what was held and what came are within the
/// limit.
pub proof fn a_push_is_bounded(state: State, chunk: Seq<u8>)
    ensures
        feed::push_leaves(state, chunk).held.len() <= state.limit,
        feed::push_leaves(state, chunk).limit == state.limit,
        state.dropped <= feed::push_leaves(state, chunk).dropped <= state.dropped + 1,
        feed::push_answer(state, chunk) is Ok && state.held.len() + chunk.len() <= state.limit
            ==> feed::push_leaves(state, chunk).dropped == state.dropped,
{
    let s = feed::in_hand(state, chunk);
    if feed::pieces(state.kind, s) is Ok {
        feed_laws::lemma_pieces_in(state.kind, s);
    }
}

/// Whatever is done with it, a feed holds no more bytes than its limit.
pub proof fn what_is_held_is_bounded(state: State, calls: Seq<Call>)
    requires
        feed::valid(state),
    ensures
        feed::valid(calls_leave(state, calls)),
        calls_leave(state, calls).limit == state.limit,
    decreases calls.len(),
{
    if calls.len() > 0 {
        let before = calls_leave(state, calls.drop_last());
        what_is_held_is_bounded(state, calls.drop_last());
        if let Call::Push(chunk) = calls.last() {
            a_push_is_bounded(before, chunk);
        }
    }
}

/// Only an AV1 stream is refused. A refused push lets go of what was
/// held, counts as one carrier given up on and none that came out, and
/// changes nothing else: the next chunk starts afresh.
pub proof fn a_refused_push_starts_afresh(state: State, chunk: Seq<u8>)
    requires
        feed::push_answer(state, chunk) is Err,
    ensures
        state.kind == StreamKind::Av1,
        feed::push_leaves(state, chunk) == (State {
            held: Seq::empty(),
            dropped: state.dropped + 1,
            owed: 0,
            ..state
        }),
        feed::idle(feed::push_leaves(state, chunk)),
{
}

/// The end of a stream brings out one carrier where bytes are in hand
/// and none where there are none, leaves none in hand and none owed, and
/// gives up on nothing; so a second end right behind it brings out
/// nothing and changes nothing.
pub proof fn the_end_empties_a_feed(state: State)
    ensures
        feed::finish_answer(state).len() == if state.held.len() > 0 {
            1nat
        } else {
            0
        },
        feed::idle(feed::finish_leaves(state)),
        feed::finish_leaves(state).index == state.index + feed::finish_answer(state).len(),
        feed::finish_leaves(state).dropped == state.dropped,
        feed::finish_answer(feed::finish_leaves(state)) == Seq::<Carrier>::empty(),
        feed::finish_leaves(feed::finish_leaves(state)) == feed::finish_leaves(state),
{
}

/// A carrier that is given up on loses no start code that the bytes to
/// come still need: every one that is not all in what is dropped stands
/// in what is kept and comes. This is for a limit that leaves room for a
/// start code.
pub proof fn no_start_code_is_lost_across_the_cut(
    codec: Codec,
    rest: Seq<u8>,
    limit: nat,
    chunk: Seq<u8>,
    p: int,
)
    requires
        3 <= limit < rest.len(),
        annexb::code_at(rest + chunk, p),
        p + 3 > rest.len(),
    ensures
        ({
            let from = feed::kept_from(StreamKind::Nal(codec), rest, limit);
            annexb::code_at(rest.skip(from) + chunk, p - from)
        }),
{
    let d = rest.len() - 3;
    let kept = rest.skip(d) + chunk;
    let s = rest + chunk;
    assert(kept[p - d] == s[p] && kept[p - d + 1] == s[p + 1] && kept[p - d + 2] == s[p + 2]);
}

/// Three bytes hold no NAL unit that has a type.
proof fn lemma_three_bytes(kept: Seq<u8>, codec: Codec)
    requires
        kept.len() <= 3,
    ensures
        forall|i: int|
            0 <= i < annexb::split(kept).len() ==> h26x::type_of(
                codec,
                #[trigger] annexb::split(kept)[i],
            ) is None,
{
    annexb::lemma_codes(kept);
    assert forall|i: int| 0 <= i < annexb::split(kept).len() implies h26x::type_of(
        codec,
        #[trigger] annexb::split(kept)[i],
    ) is None by {
        annexb::lemma_nal(kept, i);
        assert(annexb::code_at(kept, annexb::codes(kept)[i]));
        assert(annexb::nal_at(kept, i).bytes.len() == 0);
    }
}

/// No slice is pending among NAL units without a type.
proof fn lemma_untyped_pending(codec: Codec, nals: Seq<Seq<u8>>, i: int)
    requires
        0 <= i <= nals.len(),
        forall|j: int| 0 <= j < i ==> h26x::type_of(codec, #[trigger] nals[j]) is None,
    ensures
        !h26x::slice_pending(codec, nals, i),
    decreases i,
{
    if i > 0 {
        assert(h26x::type_of(codec, nals[i - 1]) is None);
        lemma_untyped_pending(codec, nals, i - 1);
    }
}

/// NAL units without a type before others make no difference to which of
/// those open an access unit.
proof fn lemma_untyped_opens(codec: Codec, e: Seq<Seq<u8>>, nals: Seq<Seq<u8>>, i: int)
    requires
        0 <= i < nals.len(),
        forall|j: int| 0 <= j < e.len() ==> h26x::type_of(codec, #[trigger] e[j]) is None,
    ensures
        h26x::opens(codec, e + nals, e.len() + i) == h26x::opens(codec, nals, i),
        h26x::slice_pending(codec, e + nals, e.len() + i) == h26x::slice_pending(codec, nals, i),
    decreases i,
{
    let all = e + nals;
    let d = e.len() as int;
    assert forall|j: int| 0 <= j < d implies h26x::type_of(codec, #[trigger] all[j]) is None by {
        assert(all[j] == e[j]);
    }
    assert(all[d + i] == nals[i]);
    if i == 0 {
        lemma_untyped_pending(codec, all, d);
    } else {
        lemma_untyped_opens(codec, e, nals, i - 1);
        assert(all[d + i - 1] == nals[i - 1]);
    }
    if forall|j: int| 0 <= j < i ==> h26x::type_of(codec, #[trigger] nals[j]) is None {
        assert forall|j: int| 0 <= j < d + i implies h26x::type_of(
            codec,
            #[trigger] all[j],
        ) is None by {
            if j >= d {
                assert(all[j] == nals[j - d]);
            }
        }
    } else {
        let j = choose|j: int| 0 <= j < i && !(h26x::type_of(codec, #[trigger] nals[j]) is None);
        assert(all[d + j] == nals[j]);
    }
}

/// NAL units without a type before others make no difference to the
/// access units of those.
proof fn lemma_untyped_openings(codec: Codec, e: Seq<Seq<u8>>, nals: Seq<Seq<u8>>)
    requires
        forall|j: int| 0 <= j < e.len() ==> h26x::type_of(codec, #[trigger] e[j]) is None,
    ensures
        h26x::openings(codec, e + nals) == marks::moved(
            h26x::openings(codec, nals),
            e.len() as int,
        ),
{
    let all = e + nals;
    let d = e.len() as int;
    let f = h26x::is_opening(codec, all);
    let g = h26x::is_opening(codec, nals);
    assert forall|i: int| 0 <= i < nals.len() implies #[trigger] g(i) == f(d + i) by {
        lemma_untyped_opens(codec, e, nals, i);
    }
    marks::lemma_marks_split(f, d, g, nals.len() as int);
    assert forall|i: int| 0 <= i < d implies !#[trigger] f(i) by {
        assert(all[i] == e[i]);
    }
    growth::lemma_no_marks(f, d);
    assert(h26x::openings(codec, all) =~= marks::moved(h26x::openings(codec, nals), d));
}

/// Three bytes before a stream that opens with a start code make no
/// difference to its access units: there are as many, each a keyframe or
/// not as it is without them, and of the same NAL units.
#[verifier::rlimit(40)]
proof fn lemma_same_units(kept: Seq<u8>, s: Seq<u8>, codec: Codec)
    requires
        kept.len() <= 3,
        annexb_laws::opens_at_code(s),
    ensures
        ({
            let now = h26x::units(kept + s, codec);
            let own = h26x::units(s, codec);
            &&& now.len() == own.len()
            &&& forall|m: int|
                0 <= m < own.len() ==> (#[trigger] now[m]).keyframe == own[m].keyframe
                    && annexb::split((kept + s).subrange(now[m].start, now[m].end))
                    == annexb::split(s.subrange(own[m].start, own[m].end))
        }),
{
    let w = kept + s;
    let e = annexb::split(kept);
    let d = e.len() as int;
    let nals = annexb::split(s);
    let all = annexb::split(w);
    let now = h26x::units(w, codec);
    let own = h26x::units(s, codec);
    annexb_laws::lemma_split_concat(kept, s);
    lemma_three_bytes(kept, codec);
    lemma_untyped_openings(codec, e, nals);
    let open = h26x::openings(codec, nals);
    let open_w = h26x::openings(codec, all);
    marks::lemma_marks(h26x::is_opening(codec, nals), nals.len() as int);
    assert(all.skip(d) =~= nals);
    assert forall|m: int| 0 <= m < own.len() implies (#[trigger] now[m]).keyframe
        == own[m].keyframe && annexb::split(w.subrange(now[m].start, now[m].end))
        == annexb::split(s.subrange(own[m].start, own[m].end)) by {
        let i = open[m];
        let j = marks::next_of(open, m, nals.len() as int);
        assert(open_w[m] == d + i);
        assert(marks::next_of(open_w, m, all.len() as int) == d + j) by {
            if m + 1 < open.len() {
                assert(open_w[m + 1] == d + open[m + 1]);
            }
        }
        assert(0 <= i < j <= nals.len());
        assert(own[m] == h26x::unit_between(s, codec, i, j));
        assert(now[m] == h26x::unit_between(w, codec, d + i, d + j));
        growth::lemma_key_suffix(codec, all, d, i, j);
        growth::lemma_unit_split(s, codec, m);
        growth::lemma_unit_split(w, codec, m);
        assert(all.subrange(d + i, d + j) =~= nals.subrange(i, j));
    }
}

/// What a NAL feed holds of a stream whose last access unit is open, or
/// that has none.
proof fn lemma_last_answer(state: State, s: Seq<u8>, codec: Codec)
    requires
        state.kind == StreamKind::Nal(codec),
        s.len() > 0,
        state.held == s.skip(feed::nal_pieces(s, codec).1),
    ensures
        ({
            let found = h26x::units(s, codec);
            feed::finish_answer(state) == seq![
                Carrier {
                    index: state.index,
                    keyframe: found.len() > 0 && found.last().keyframe,
                    payloads: sei::gathered(
                        if found.len() > 0 {
                            annexb::split(s.subrange(found.last().start, found.last().end))
                        } else {
                            annexb::split(s)
                        },
                        codec,
                        state.uuid,
                    ),
                },
            ]
        }),
{
    let found = h26x::units(s, codec);
    h26x::lemma_units(s, codec);
    if found.len() > 0 {
        let m = found.len() - 1;
        growth::lemma_units_suffix(s, codec, m);
        assert(found[m].start < found[m].end);
        assert(state.held =~= s.subrange(found[m].start, found[m].end));
        let own = h26x::units(state.held, codec);
        assert(own[0] == growth::unit_moved(found.skip(m)[0], -found[m].start));
        assert(found.skip(m)[0] == found[m]);
    } else {
        assert(state.held =~= s);
    }
}

/// A feed of H.264 or HEVC that has given up on a carrier goes on at the
/// next start code: of a stream that opens with one, no NAL unit is
/// lost or changed by what was kept, and what comes out of it is what
/// comes out of it in a feed that holds nothing, the last carrier
/// too where that is not given up on in its turn.
#[verifier::rlimit(40)]
pub proof fn a_nal_feed_resynchronises(
    state: State,
    chunk: Seq<u8>,
    codec: Codec,
    s: Seq<u8>,
)
    requires
        state.kind == StreamKind::Nal(codec),
        feed::push_leaves(state, chunk).dropped > state.dropped,
        annexb_laws::opens_at_code(s),
    ensures
        ({
            let after = feed::push_leaves(state, chunk);
            let empty = State { held: Seq::empty(), ..after };
            let one = feed::push_leaves(after, s);
            let other = feed::push_leaves(empty, s);
            &&& annexb::split(after.held + s) == annexb::split(after.held) + annexb::split(s)
            &&& feed::push_answer(after, s) == feed::push_answer(empty, s)
            &&& s.len() > 0 && one.dropped == after.dropped && other.dropped == after.dropped
                ==> feed::finish_answer(one) == feed::finish_answer(other)
        }),
{
    let after = feed::push_leaves(state, chunk);
    let empty = State { held: Seq::empty(), ..after };
    let kept = after.held;
    let w = kept + s;
    feed_laws::lemma_pieces_in(state.kind, feed::in_hand(state, chunk));
    assert(kept.len() <= 3);
    feed_laws::lemma_in_hand(after, s);
    feed_laws::lemma_in_hand(empty, s);
    annexb_laws::lemma_split_concat(kept, s);
    lemma_same_units(kept, s, codec);
    assert(empty.held + s =~= s);
    let now = h26x::units(w, codec);
    let own = h26x::units(s, codec);
    let out = feed::cut_off(after, w, feed::nal_pieces(w, codec).0);
    let want = feed::cut_off(empty, s, feed::nal_pieces(s, codec).0);
    assert(out.len() == want.len());
    assert forall|m: int| 0 <= m < want.len() implies out[m] == #[trigger] want[m] by {
        assert(now[m].keyframe == own[m].keyframe);
    }
    assert(out =~= want);
    let one = feed::push_leaves(after, s);
    let other = feed::push_leaves(empty, s);
    if s.len() > 0 && one.dropped == after.dropped && other.dropped == after.dropped {
        lemma_last_answer(one, w, codec);
        lemma_last_answer(other, s, codec);
        if own.len() > 0 {
            assert(now[own.len() - 1].keyframe == own[own.len() - 1].keyframe);
        } else {
            lemma_three_bytes(kept, codec);
            sei_laws::lemma_gathered_add(
                annexb::split(kept),
                annexb::split(s),
                codec,
                state.uuid,
            );
            feed_laws::lemma_untyped_carry_nothing(annexb::split(kept), codec, state.uuid);
            assert(Seq::<Seq<u8>>::empty() + sei::gathered(annexb::split(s), codec, state.uuid)
                =~= sei::gathered(annexb::split(s), codec, state.uuid));
        }
    }
}

/// Whether the size of an OBU is in its first `c` bytes.
pub open spec fn size_has_come(one: Seq<u8>, c: int) -> bool {
    let from = obu::header_end(one, 0);
    0 < c && from <= c && obu::leb(one.take(c).skip(from), 8) is Value
}

/// The beginning of a number that ends is no number too long.
proof fn lemma_leb_not_long(got: Seq<u8>, all: Seq<u8>, room: nat)
    requires
        got.is_prefix_of(all),
        obu::leb(all, room) is Value,
    ensures
        !(obu::leb(got, room) is Long),
    decreases room,
{
    if got.len() > 0 && got[0] >= 128 {
        assert(all[0] == got[0]);
        let a = got.drop_first();
        let b = all.drop_first();
        assert(a =~= b.take(a.len() as int)) by {
            assert forall|i: int| 0 <= i < a.len() implies a[i] == b[i] by {
                assert(got[i + 1] == all[i + 1]);
            }
        }
        lemma_leb_not_long(a, b, (room - 1) as nat);
    }
}

/// The OBU that is on its way begins behind those that are all there.
proof fn lemma_open_behind(whole: Seq<u8>, one: Seq<u8>, c: int, at: int)
    requires
        0 <= at <= whole.len(),
        obu::obus_from(whole, at) is Ok,
        ({
            let list = obu::obus_from(whole, at)->Ok_0;
            list.len() > 0 ==> obu::has_size(whole, list.last().start)
        }),
        obu::obu_at(one, 0) is Ok,
        obu::obu_at(one, 0)->Ok_0.end == one.len(),
        obu::has_size(one, 0),
        0 <= c < one.len(),
        whole.len() + one.len() <= usize::MAX,
    ensures
        feed::open_from(whole + one.take(c), at) == whole.len(),
    decreases whole.len() - at,
{
    let w = whole + one.take(c);
    if at == whole.len() {
        if c > 0 {
            feed_laws::lemma_half_is_open(whole, one, c);
        }
    } else {
        let list = obu::obus_from(whole, at)->Ok_0;
        let o = obu::obu_at(whole, at)->Ok_0;
        let rest = obu::obus_from(whole, o.end)->Ok_0;
        obu::lemma_obu_at(whole, at);
        obu::lemma_obus(whole, at);
        assert(list =~= seq![o] + rest);
        if rest.len() > 0 {
            assert(list.last() == rest.last());
        }
        assert(obu::has_size(whole, at)) by {
            assert(list[0] == o);
            if rest.len() == 0 {
                assert(list.last() == o);
            }
        }
        obu_laws::lemma_obu_prefix(whole, w, at);
        assert(w[at] == whole[at]);
        lemma_open_behind(whole, one, c, o.end);
    }
}

/// The next OBU is behind the one that is on its way or, where its size
/// has not come yet, is that one.
pub proof fn lemma_next_obu(whole: Seq<u8>, one: Seq<u8>, c: int)
    requires
        obu::obus(whole) is Ok,
        obu::obus(whole)->Ok_0.len() > 0 ==> obu::has_size(
            whole,
            obu::obus(whole)->Ok_0.last().start,
        ),
        obu::obus(one) is Ok,
        obu::obus(one)->Ok_0.len() == 1,
        obu::has_size(one, 0),
        0 <= c < one.len(),
        whole.len() + one.len() <= usize::MAX,
    ensures
        feed::next_obu(whole + one.take(c)) == Some(
            if size_has_come(one, c) {
                (whole.len() + one.len()) as int
            } else {
                whole.len() as int
            },
        ),
{
    let rest = whole + one.take(c);
    let at = whole.len() as int;
    let from = obu::header_end(one, 0);
    let ones = obu::obus(one)->Ok_0;
    obu::lemma_obus(one, 0);
    assert(obu::obu_at(one, 0) == Ok::<Obu, Error>(ones[0]));
    assert(ones.last() == ones[0]);
    lemma_open_behind(whole, one, c, 0);
    if c > 0 {
        assert(rest[at] == one[0]);
        if from <= c {
            let got = one.take(c).skip(from);
            let all = one.skip(from);
            assert(rest.skip(at + from) =~= got);
            assert(got =~= all.take(got.len() as int));
            lemma_leb_not_long(got, all, 8);
            if obu::leb(got, 8) is Value {
                obu::lemma_leb(got, 8);
                obu_laws::lemma_leb_prefix(got, all, 8);
            }
        }
    }
}

/// A feed of AV1 that has given up on a carrier goes on at the next OBU.
/// Where the carrier ended in the beginning of an OBU whose size had
/// come, the rest of that OBU is let go of, and what comes behind it is
/// read as a feed that holds nothing reads it; where the size had not
/// come, nothing of that OBU is lost. This is for a limit that leaves
/// room for what has come of an OBU without its size, which is nine
/// bytes at most.
#[verifier::rlimit(40)]
pub proof fn an_av1_feed_resynchronises(
    state: State,
    chunk: Seq<u8>,
    whole: Seq<u8>,
    one: Seq<u8>,
    c: int,
    t: Seq<u8>,
)
    requires
        state.kind == StreamKind::Av1,
        feed::push_answer(state, chunk) is Ok,
        feed::push_leaves(state, chunk).dropped > state.dropped,
        ({
            let s = feed::in_hand(state, chunk);
            s.skip(feed::pieces(state.kind, s)->Ok_0.1) == whole + one.take(c)
        }),
        obu::obus(whole) is Ok,
        obu::obus(whole)->Ok_0.len() > 0 ==> obu::has_size(
            whole,
            obu::obus(whole)->Ok_0.last().start,
        ),
        obu::obus(one) is Ok,
        obu::obus(one)->Ok_0.len() == 1,
        obu::has_size(one, 0),
        0 <= c < one.len(),
        whole.len() + one.len() <= usize::MAX,
    ensures
        ({
            let after = feed::push_leaves(state, chunk);
            let empty = State { held: Seq::empty(), owed: 0, ..after };
            if size_has_come(one, c) {
                &&& feed::push_answer(after, one.skip(c) + t) == feed::push_answer(empty, t)
                &&& feed::push_leaves(after, one.skip(c) + t) == feed::push_leaves(empty, t)
            } else {
                c <= state.limit ==> {
                    &&& feed::push_answer(after, t) == feed::push_answer(empty, one.take(c) + t)
                    &&& feed::push_leaves(after, t) == feed::push_leaves(empty, one.take(c) + t)
                }
            }
        }),
{
    let after = feed::push_leaves(state, chunk);
    let empty = State { held: Seq::empty(), owed: 0, ..after };
    let rest = whole + one.take(c);
    let from = feed::kept_from(state.kind, rest, state.limit);
    lemma_next_obu(whole, one, c);
    assert(after.held == rest.skip(from));
    assert(after.owed == feed::owed_from(state.kind, rest, state.limit));
    if size_has_come(one, c) {
        let more = one.skip(c) + t;
        feed_laws::lemma_in_hand(empty, t);
        assert(feed::let_go(after, more) == after.owed);
        assert(feed::in_hand(after, more) =~= t);
        assert(empty.held + t =~= t);
        feed_laws::lemma_same_push(after, more, empty, t);
    } else if c <= state.limit {
        let all = one.take(c) + t;
        feed_laws::lemma_in_hand(empty, all);
        assert(feed::let_go(after, t) == after.owed);
        assert(feed::in_hand(after, t) =~= all);
        assert(empty.held + all =~= all);
        feed_laws::lemma_same_push(after, t, empty, all);
    }
}

} // verus!
