//! What a feed does with the bytes it is given, step by step.

use vstd::prelude::*;
use crate::annexb;
use crate::feed;
use crate::feed::{Carried, Carrier, Piece, State, Step, StreamKind};
use crate::feed_laws;
use crate::feed_state_laws;
use crate::h26x;
use crate::h26x::Codec;
use crate::obu;
use crate::obu::Obu;
use crate::obu_byte_laws;
use crate::obu_laws;
use crate::sei;
use crate::Error;
use crate::Select;

verus! {

/// What a fresh feed is: the UUID, the metadata type and the limit it was
/// given, and nothing held, counted, given up on or owed.
pub proof fn a_fresh_feed(kind: StreamKind, select: Select, limit: nat)
    ensures
        ({
            let state = feed::fresh(kind, select, limit);
            &&& state.kind == kind
            &&& state.uuid == select.uuid@
            &&& state.metadata_type == select.metadata_type
            &&& state.limit == limit
            &&& state.held.len() == 0
            &&& state.index == 0
            &&& state.dropped == 0
            &&& state.owed == 0
        }),
        feed::DEFAULT_LIMIT == 8 * 1024 * 1024,
{
}

/// What H.264 or HEVC bytes have finished: every access unit but the
/// last, each where it lies, and the last is the one still open. Bytes of
/// no access unit have finished nothing, and are never refused.
pub proof fn access_units_but_the_last_are_finished(s: Seq<u8>, codec: Codec)
    ensures
        ({
            let found = h26x::units(s, codec);
            feed::pieces(StreamKind::Nal(codec), s) matches Ok((list, at)) && {
                &&& found.len() == 0 ==> list.len() == 0 && at == 0
                &&& found.len() > 0 ==> list.len() == found.len() - 1 && at == found.last().start
                &&& forall|k: int|
                    0 <= k < list.len() ==> (#[trigger] list[k]).start == found[k].start
                        && list[k].end == found[k].end && list[k].keyframe == found[k].keyframe
            }
        }),
{
}

/// The OBUs that are all there, where what is behind them is not.
proof fn lemma_whole_behind(s: Seq<u8>, b: Seq<u8>, at: int)
    requires
        0 <= at <= s.len(),
        obu::obus_from(s, at) is Ok,
        ({
            let list = obu::obus_from(s, at)->Ok_0;
            list.len() > 0 ==> obu::has_size(s, list.last().start)
        }),
        b.len() > 0,
        !(feed::step(s + b, s.len() as int) is Whole),
    ensures
        feed::whole_from(s + b, at) == match feed::step(s + b, s.len() as int) {
            Step::Broken(e) => Err::<Seq<Obu>, Error>(e),
            _ => obu::obus_from(s, at),
        },
    decreases s.len() - at,
{
    let w = s + b;
    if at < s.len() {
        let list = obu::obus_from(s, at)->Ok_0;
        let o = obu::obu_at(s, at)->Ok_0;
        let rest = obu::obus_from(s, o.end)->Ok_0;
        obu::lemma_obu_at(s, at);
        obu::lemma_obus(s, at);
        assert(list =~= seq![o] + rest);
        assert(list[0] == o);
        if rest.len() > 0 {
            assert(list.last() == rest.last());
        } else {
            assert(list.last() == o);
        }
        obu_laws::lemma_obu_prefix(s, w, at);
        assert(w[at] == s[at]);
        lemma_whole_behind(s, b, o.end);
    }
}

/// A byte of 128 or more where an OBU should begin refuses the stream, at
/// the offset where it stands.
pub proof fn a_forbidden_bit_refuses_the_stream(s: Seq<u8>, b: Seq<u8>)
    requires
        obu::obus(s) is Ok,
        obu::obus(s)->Ok_0.len() > 0 ==> obu::has_size(s, obu::obus(s)->Ok_0.last().start),
        b.len() > 0,
        b[0] >= 0x80,
    ensures
        feed::pieces(StreamKind::Av1, s + b) == Err::<(Seq<Piece>, int), Error>(
            Error::Malformed { what: "an OBU with its forbidden bit set", at: s.len() as usize },
        ),
{
    let w = s + b;
    let h = b[0];
    assert(w[s.len() as int] == h);
    assert((h & 0x80 != 0) == (h >= 0x80)) by (bit_vector);
    lemma_whole_behind(s, b, 0);
}

/// An OBU without a size, or with one that takes more than eight bytes,
/// is held as if it were still on its way: what is finished is every
/// temporal unit before its own but the last.
pub proof fn an_obu_without_a_size_is_held(s: Seq<u8>, h: u8, rest: Seq<u8>)
    requires
        obu::units(s) is Ok,
        obu::units(s)->Ok_0.len() > 0,
        obu::has_size(s, obu::obus(s)->Ok_0.last().start),
        h < 0x80,
        s.len() + 1 <= usize::MAX,
        h / 2 % 2 == 0 || (h / 4 % 2 == 0 && rest.len() >= 8 && forall|i: int|
            0 <= i < 8 ==> rest[i] >= 0x80),
    ensures
        feed::pieces(StreamKind::Av1, s + (seq![h] + rest)) == Ok::<(Seq<Piece>, int), Error>(
            (feed_laws::all_but_last(obu::units(s)->Ok_0), obu::units(s)->Ok_0.last().start),
        ),
{
    let b = seq![h] + rest;
    let w = s + b;
    let at = s.len() as int;
    assert(w[at] == h);
    assert((h & 0x80 != 0) == (h >= 0x80)) by (bit_vector);
    assert((h & 0x04 != 0) == (h / 4 % 2 == 1)) by (bit_vector);
    assert((h & 0x02 != 0) == (h / 2 % 2 == 1)) by (bit_vector);
    if h / 2 % 2 == 1 {
        assert(w.skip(at + 1) =~= rest);
        obu_byte_laws::leb128_in_bytes(rest);
    }
    lemma_whole_behind(s, b, 0);
    obu::lemma_units(s);
    obu::lemma_obus(s, 0);
    feed_laws::lemma_pieces_are_units(obu::obus(s)->Ok_0, s.len() as int);
}

/// An OBU whose end is past the last offset there is refuses the stream,
/// at the offset where the OBU begins.
pub proof fn an_obu_too_large_refuses_the_stream(s: Seq<u8>, b: Seq<u8>)
    requires
        obu::obus(s) is Ok,
        obu::obus(s)->Ok_0.len() > 0 ==> obu::has_size(s, obu::obus(s)->Ok_0.last().start),
        b.len() > 0,
        obu::obu_at(s + b, s.len() as int) == Err::<Obu, Error>(
            Error::TooLarge { at: s.len() as usize },
        ),
    ensures
        feed::pieces(StreamKind::Av1, s + b) == Err::<(Seq<Piece>, int), Error>(
            Error::TooLarge { at: s.len() as usize },
        ),
{
    lemma_whole_behind(s, b, 0);
}

/// Until the first OBU is all there nothing is finished, and what is held
/// is held from its first byte.
pub proof fn nothing_is_finished_before_the_first_obu(b: Seq<u8>)
    requires
        b.len() > 0,
        b[0] < 0x80,
        obu::obu_at(b, 0) is Err,
        !(obu::obu_at(b, 0)->Err_0 is TooLarge),
    ensures
        feed::pieces(StreamKind::Av1, b) == Ok::<(Seq<Piece>, int), Error>((Seq::empty(), 0)),
        feed::pieces(StreamKind::Av1, Seq::empty()) == Ok::<(Seq<Piece>, int), Error>(
            (Seq::empty(), 0),
        ),
{
    let h = b[0];
    assert((h & 0x80 != 0) == (h >= 0x80)) by (bit_vector);
    assert(obu::openings(Seq::empty()) =~= Seq::empty());
}

/// What is owed is let go of first, out of what is held and then out of
/// what comes, and nothing is read before it has gone.
pub proof fn what_is_owed_is_let_go_of(state: State, chunk: Seq<u8>)
    ensures
        ({
            let all = state.held + chunk;
            let empty = State { held: Seq::empty(), owed: 0, ..state };
            &&& state.owed <= all.len() ==> {
                let rest = all.skip(state.owed as int);
                &&& feed::push_answer(state, chunk) == feed::push_answer(empty, rest)
                &&& feed::push_leaves(state, chunk) == feed::push_leaves(empty, rest)
            }
            &&& state.owed > all.len() ==> {
                &&& feed::push_answer(state, chunk) == Ok::<Seq<Carrier>, Error>(Seq::empty())
                &&& feed::push_leaves(state, chunk) == (State {
                    held: Seq::empty(),
                    owed: (state.owed - all.len()) as nat,
                    ..state
                })
            }
        }),
{
    let all = state.held + chunk;
    let empty = State { held: Seq::empty(), owed: 0, ..state };
    if state.owed <= all.len() {
        let rest = all.skip(state.owed as int);
        feed_laws::lemma_in_hand(empty, rest);
        assert(feed::in_hand(state, chunk) =~= rest);
        assert(empty.held + rest =~= rest);
        feed_laws::lemma_same_push(state, chunk, empty, rest);
    } else {
        let s = feed::in_hand(state, chunk);
        assert(s =~= Seq::empty());
        feed_laws::lemma_pieces_of_nothing(state.kind);
        assert(feed::cut_off(state, s, Seq::empty()) =~= Seq::empty());
        assert(s.skip(0) =~= Seq::empty());
    }
}

/// What an AV1 feed keeps of a carrier it gives up on: the last three
/// bytes, or as many as the limit where that is less; but an OBU that had
/// begun, and whose size had not come, from its first byte where that is
/// more and within the limit.
pub proof fn what_an_av1_feed_keeps(
    state: State,
    chunk: Seq<u8>,
    whole: Seq<u8>,
    one: Seq<u8>,
    c: int,
)
    requires
        state.kind == StreamKind::Av1,
        state.owed == 0,
        feed::pieces(state.kind, state.held + chunk) is Ok,
        ({
            let s = state.held + chunk;
            let rest = s.skip(feed::pieces(state.kind, s)->Ok_0.1);
            rest == whole + one.take(c) && rest.len() > state.limit
        }),
        obu::obus(whole) is Ok,
        obu::obus(whole)->Ok_0.len() > 0 ==> obu::has_size(
            whole,
            obu::obus(whole)->Ok_0.last().start,
        ),
        obu::obus(one) is Ok,
        obu::obus(one)->Ok_0.len() == 1,
        obu::has_size(one, 0),
        0 <= c < one.len(),
        whole.len() + one.len() <= usize::MAX,
    ensures
        ({
            let s = state.held + chunk;
            let left = feed::push_leaves(state, chunk);
            let few = if state.limit < 3 {
                state.limit as int
            } else {
                3
            };
            if !feed_state_laws::size_has_come(one, c) && few < c <= state.limit {
                left.held == s.skip(s.len() - c)
            } else {
                left.held == s.skip(s.len() - few)
            }
        }),
{
    let s = state.held + chunk;
    let at = feed::pieces(state.kind, s)->Ok_0.1;
    let rest = whole + one.take(c);
    let left = feed::push_leaves(state, chunk);
    feed_laws::lemma_in_hand(state, chunk);
    feed_laws::lemma_pieces_in(state.kind, s);
    feed_state_laws::lemma_next_obu(whole, one, c);
    let from = feed::kept_from(state.kind, rest, state.limit);
    assert(left.held == rest.skip(from));
    assert(rest.skip(from) =~= s.skip(at + from));
}

/// Behind an OBU without a size, or with one that takes more than eight
/// bytes, there is no next OBU to go on with: a feed that gives up in one
/// keeps the last three bytes, or as many as the limit where that is
/// less, and owes nothing.
pub proof fn what_is_kept_of_an_obu_without_a_size(
    state: State,
    chunk: Seq<u8>,
    whole: Seq<u8>,
    h: u8,
    tail: Seq<u8>,
)
    requires
        state.kind == StreamKind::Av1,
        state.owed == 0,
        feed::pieces(state.kind, state.held + chunk) is Ok,
        ({
            let s = state.held + chunk;
            let rest = s.skip(feed::pieces(state.kind, s)->Ok_0.1);
            rest == whole + (seq![h] + tail) && rest.len() > state.limit
        }),
        obu::obus(whole) is Ok,
        obu::obus(whole)->Ok_0.len() > 0 ==> obu::has_size(
            whole,
            obu::obus(whole)->Ok_0.last().start,
        ),
        h < 0x80,
        h / 2 % 2 == 0 || (h / 4 % 2 == 0 && tail.len() >= 8 && forall|i: int|
            0 <= i < 8 ==> tail[i] >= 0x80),
    ensures
        ({
            let s = state.held + chunk;
            let left = feed::push_leaves(state, chunk);
            &&& left.owed == 0
            &&& state.limit >= 3 ==> left.held == s.skip(s.len() - 3)
            &&& state.limit < 3 ==> left.held == s.skip(s.len() - state.limit)
        }),
{
    let s = state.held + chunk;
    let at = feed::pieces(state.kind, s)->Ok_0.1;
    let rest = whole + (seq![h] + tail);
    let p = whole.len() as int;
    let left = feed::push_leaves(state, chunk);
    assert(rest[p] == h);
    assert((h & 0x80 != 0) == (h >= 0x80)) by (bit_vector);
    assert((h & 0x04 != 0) == (h / 4 % 2 == 1)) by (bit_vector);
    assert((h & 0x02 != 0) == (h / 2 % 2 == 1)) by (bit_vector);
    if h / 2 % 2 == 1 {
        assert(rest.skip(p + 1) =~= tail);
        obu_byte_laws::leb128_in_bytes(tail);
    }
    lemma_open_at(whole, seq![h] + tail, 0);
    assert(feed::next_obu(rest) is None);
    feed_laws::lemma_in_hand(state, chunk);
    feed_laws::lemma_pieces_in(state.kind, s);
    let from = feed::kept_from(state.kind, rest, state.limit);
    assert(left.held == rest.skip(from));
    assert(rest.skip(from) =~= s.skip(at + from));
}

/// What is open begins behind the OBUs that are all there.
proof fn lemma_open_at(s: Seq<u8>, b: Seq<u8>, at: int)
    requires
        0 <= at <= s.len(),
        obu::obus_from(s, at) is Ok,
        ({
            let list = obu::obus_from(s, at)->Ok_0;
            list.len() > 0 ==> obu::has_size(s, list.last().start)
        }),
        b.len() > 0,
        !(feed::step(s + b, s.len() as int) is Whole),
    ensures
        feed::open_from(s + b, at) == s.len(),
    decreases s.len() - at,
{
    let w = s + b;
    if at < s.len() {
        let list = obu::obus_from(s, at)->Ok_0;
        let o = obu::obu_at(s, at)->Ok_0;
        let rest = obu::obus_from(s, o.end)->Ok_0;
        obu::lemma_obu_at(s, at);
        obu::lemma_obus(s, at);
        assert(list =~= seq![o] + rest);
        assert(list[0] == o);
        if rest.len() > 0 {
            assert(list.last() == rest.last());
        } else {
            assert(list.last() == o);
        }
        obu_laws::lemma_obu_prefix(s, w, at);
        assert(w[at] == s[at]);
        lemma_open_at(s, b, o.end);
    }
}

/// What a push leaves of what it had to read: all that is behind the
/// carriers it finished, while that is within the limit, and one carrier
/// given up on once it is past it. Of H.264 and HEVC the last three bytes
/// are kept then, or as many as the limit where that is less.
pub proof fn what_a_push_leaves(state: State, chunk: Seq<u8>)
    requires
        state.owed == 0,
    ensures
        ({
            let s = state.held + chunk;
            let left = feed::push_leaves(state, chunk);
            feed::pieces(state.kind, s) matches Ok((list, at)) ==> {
                &&& left.index == state.index + list.len()
                &&& left.kind == state.kind && left.uuid == state.uuid && left.metadata_type
                    == state.metadata_type && left.limit == state.limit
                &&& s.len() - at <= state.limit ==> left.held == s.skip(at) && left.dropped
                    == state.dropped && left.owed == 0
                &&& s.len() - at > state.limit ==> left.dropped == state.dropped + 1
                &&& s.len() - at > state.limit && state.kind is Nal ==> {
                    &&& left.owed == 0
                    &&& state.limit >= 3 ==> left.held == s.skip(s.len() - 3)
                    &&& state.limit < 3 ==> left.held == s.skip(s.len() - state.limit)
                }
            }
        }),
{
    let s = state.held + chunk;
    feed_laws::lemma_in_hand(state, chunk);
    if let Ok((list, at)) = feed::pieces(state.kind, s) {
        feed_laws::lemma_pieces_in(state.kind, s);
        let rest = s.skip(at);
        let left = feed::push_leaves(state, chunk);
        if rest.len() > state.limit && state.kind is Nal {
            if state.limit >= 3 {
                assert(left.held =~= s.skip(s.len() - 3));
            } else {
                assert(left.held =~= s.skip(s.len() - state.limit));
            }
        }
    }
}

/// What the carriers of a push say: each is numbered on from the feed's
/// count, is a keyframe as its carrier is, and has the payloads of the
/// feed's own that are in its bytes.
pub proof fn what_a_push_hands_out(state: State, chunk: Seq<u8>, k: int)
    requires
        state.owed == 0,
        feed::pieces(state.kind, state.held + chunk) is Ok,
        0 <= k < feed::pieces(state.kind, state.held + chunk)->Ok_0.0.len(),
    ensures
        ({
            let s = state.held + chunk;
            let list = feed::pieces(state.kind, s)->Ok_0.0;
            let bytes = s.subrange(list[k].start, list[k].end);
            feed::push_answer(state, chunk) matches Ok(out) && {
                &&& out.len() == list.len()
                &&& out[k].index == state.index + k
                &&& out[k].keyframe == list[k].keyframe
                &&& state.kind matches StreamKind::Nal(codec) ==> out[k].payloads == sei::gathered(
                    annexb::split(bytes),
                    codec,
                    state.uuid,
                )
                &&& state.kind == StreamKind::Av1 ==> out[k].payloads == obu::opened_by(
                    obu::metadata_found(bytes, state.metadata_type),
                    state.uuid,
                )
            }
        }),
{
    feed_laws::lemma_in_hand(state, chunk);
}

/// What the carrier at the end of a stream says: the next number, whether
/// the first access unit or temporal unit in hand is a keyframe, and the
/// payloads of the feed's own in the bytes in hand.
pub proof fn what_the_end_hands_out(state: State)
    requires
        state.held.len() > 0,
    ensures
        ({
            let out = feed::finish_answer(state);
            &&& out.len() == 1
            &&& out[0].index == state.index
            &&& state.kind matches StreamKind::Nal(codec) ==> {
                let found = h26x::units(state.held, codec);
                &&& out[0].keyframe <==> found.len() > 0 && found[0].keyframe
                &&& out[0].payloads == sei::gathered(
                    annexb::split(state.held),
                    codec,
                    state.uuid,
                )
            }
            &&& state.kind == StreamKind::Av1 ==> {
                &&& obu::units(state.held) is Err ==> !out[0].keyframe
                &&& obu::units(state.held) matches Ok(found) ==> (out[0].keyframe <==> found.len()
                    > 0 && found[0].has_sequence_header)
                &&& out[0].payloads == obu::opened_by(
                    obu::metadata_found(state.held, state.metadata_type),
                    state.uuid,
                )
            }
        }),
{
}

/// A carrier is the number, the flag and the payloads it is given in.
pub proof fn carriers_are_given_in_their_fields(list: Seq<Carried>, i: int, j: int)
    requires
        0 <= i < list.len(),
    ensures
        feed::carried_views(list).len() == list.len(),
        feed::carried_views(list)[i].index == list[i].index,
        feed::carried_views(list)[i].keyframe == list[i].keyframe,
        feed::carried_views(list)[i].payloads.len() == list[i].payloads@.len(),
        0 <= j < list[i].payloads@.len() ==> feed::carried_views(list)[i].payloads[j]
            == list[i].payloads@[j]@,
{
}

} // verus!
