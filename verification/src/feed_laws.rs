//! What holds of a feed and its stream: how the stream is cut into chunks
//! makes no difference, and what comes out are the carriers of the
//! stream, in time and with every payload it holds.

use vstd::prelude::*;
use crate::annexb;
use crate::feed;
use crate::feed::{Carrier, Piece, State, StreamKind};
use crate::growth;
use crate::h26x;
use crate::h26x::Codec;
use crate::marks;
use crate::obu;
use crate::obu::Obu;
use crate::obu_laws;
use crate::sei;
use crate::sei_laws;
use crate::Error;

verus! {

/// A finished carrier's place, moved by `d` bytes.
pub open spec fn piece_moved(piece: Piece, d: int) -> Piece {
    Piece { start: piece.start + d, end: piece.end + d, ..piece }
}

/// Finished carriers' places, moved by `d` bytes.
pub open spec fn pieces_moved(list: Seq<Piece>, d: int) -> Seq<Piece> {
    Seq::new(list.len(), |k: int| piece_moved(list[k], d))
}

/// Whether finished carriers lie in `len` bytes.
pub open spec fn pieces_in(list: Seq<Piece>, len: int) -> bool {
    forall|k: int|
        0 <= k < list.len() ==> 0 <= (#[trigger] list[k]).start <= list[k].end <= len
}

/// Whether bytes that have been cut, and then grown, finish what the
/// whole would have finished at once: `first` before the cut at `at`,
/// and `more` behind it.
pub open spec fn goes_on(kind: StreamKind, x: Seq<u8>, b: Seq<u8>) -> bool {
    match feed::pieces(kind, x + b) {
        Ok((all, open)) => match feed::pieces(kind, x) {
            Ok((first, at)) => {
                &&& 0 <= at <= x.len()
                &&& pieces_in(first, x.len() as int)
                &&& match feed::pieces(kind, x.skip(at) + b) {
                    Ok((more, more_open)) => {
                        &&& pieces_in(more, x.len() + b.len() - at)
                        &&& 0 <= more_open <= x.len() + b.len() - at
                        &&& all == first + pieces_moved(more, at)
                        &&& open == at + more_open
                    },
                    Err(e) => false,
                }
            },
            Err(e) => false,
        },
        Err(e) => true,
    }
}

proof fn lemma_nal_pieces_in(s: Seq<u8>, codec: Codec)
    ensures
        pieces_in(feed::nal_pieces(s, codec).0, s.len() as int),
        0 <= feed::nal_pieces(s, codec).1 <= s.len(),
{
    h26x::lemma_units(s, codec);
    let found = h26x::units(s, codec);
    let list = feed::nal_pieces(s, codec).0;
    assert forall|k: int| 0 <= k < list.len() implies 0 <= (#[trigger] list[k]).start
        <= list[k].end <= s.len() by {
        assert(found[k].start < found[k].end);
    }
    if found.len() > 0 {
        assert(found[found.len() - 1].start < found[found.len() - 1].end);
    }
}

proof fn lemma_nal_goes_on(codec: Codec, x: Seq<u8>, b: Seq<u8>)
    ensures
        goes_on(StreamKind::Nal(codec), x, b),
{
    let w = x + b;
    let ux = h26x::units(x, codec);
    let uw = h26x::units(w, codec);
    let (first, at) = feed::nal_pieces(x, codec);
    let (all, open) = feed::nal_pieces(w, codec);
    lemma_nal_pieces_in(x, codec);
    lemma_nal_pieces_in(w, codec);
    growth::lemma_units_prefix(x, b, codec);
    let y = x.skip(at) + b;
    lemma_nal_pieces_in(y, codec);
    let (more, more_open) = feed::nal_pieces(y, codec);
    assert(y =~= w.skip(at));
    if ux.len() == 0 {
        assert(y =~= w);
        assert(first + pieces_moved(more, 0) =~= all);
    } else {
        let m = ux.len() - 1;
        assert(at == uw[m].start);
        growth::lemma_units_suffix(w, codec, m);
        let uy = h26x::units(y, codec);
        let rest = uw.skip(m);
        assert(uy == growth::units_moved(rest, -at));
        assert(uy.len() == uw.len() - m);
        let joined = first + pieces_moved(more, at);
        assert forall|k: int| 0 <= k < all.len() implies all[k] == #[trigger] joined[k] by {
            if k < m {
                assert(ux[k].start == uw[k].start);
                assert(joined[k] == first[k]);
            } else {
                assert(rest[k - m] == uw[k]);
                assert(uy[k - m] == growth::unit_moved(uw[k], -at));
                assert(joined[k] == piece_moved(more[k - m], at));
            }
        }
        assert(all =~= joined);
        assert(uy.last() == growth::unit_moved(uw.last(), -at)) by {
            assert(rest[uy.len() - 1] == uw.last());
        }
    }
}

proof fn lemma_obu_pieces_in(s: Seq<u8>)
    requires
        feed::whole_from(s, 0) is Ok,
    ensures
        pieces_in(feed::obu_pieces(feed::whole_from(s, 0)->Ok_0).0, s.len() as int),
        0 <= feed::obu_pieces(feed::whole_from(s, 0)->Ok_0).1 <= s.len(),
{
    let list = feed::whole_from(s, 0)->Ok_0;
    let open = obu::openings(list);
    let (found, at) = feed::obu_pieces(list);
    feed::lemma_whole(s, 0);
    marks::lemma_marks(obu::is_opening(list), list.len() as int);
    assert forall|k: int| 0 <= k < found.len() implies 0 <= (#[trigger] found[k]).start
        <= found[k].end <= s.len() by {
        assert(open[k] < open[k + 1]);
        obu::lemma_starts_in_order(list, 0, list.last().end, open[k], open[k + 1]);
        assert(list[open[k]].start < list[open[k]].end);
        assert(list[open[k + 1]].start < list[open[k + 1]].end);
    }
    if open.len() > 0 {
        let i = open[open.len() - 1];
        assert(list[i].start < list[i].end);
    }
}

/// Whether a sequence header is among OBUs does not depend on what they
/// are counted from or where they lie.
proof fn lemma_sequence_header_suffix(list: Seq<Obu>, i: int, a: int, b: int, d: int)
    requires
        0 <= i,
        0 <= a <= b,
        i + b <= list.len(),
    ensures
        obu::sequence_header_in(obu_laws::all_shifted(list.skip(i), d), a, b)
            == obu::sequence_header_in(list, i + a, i + b),
{
    let rest = obu_laws::all_shifted(list.skip(i), d);
    if obu::sequence_header_in(rest, a, b) {
        let k = choose|k: int|
            a <= k < b && (#[trigger] rest[k]).kind == obu::OBU_SEQUENCE_HEADER;
        assert(list[i + k].kind == rest[k].kind);
    }
    if obu::sequence_header_in(list, i + a, i + b) {
        let k = choose|k: int|
            i + a <= k < i + b && (#[trigger] list[k]).kind == obu::OBU_SEQUENCE_HEADER;
        assert(rest[k - i].kind == list[k].kind);
    }
}

/// Whether a sequence header is among OBUs rests on those alone.
proof fn lemma_sequence_header_prefix(a: Seq<Obu>, b: Seq<Obu>, i: int, j: int)
    requires
        a.is_prefix_of(b),
        0 <= i <= j <= a.len(),
    ensures
        obu::sequence_header_in(a, i, j) == obu::sequence_header_in(b, i, j),
{
    assert forall|k: int| 0 <= k < a.len() implies a[k] == b[k] by {}
    if obu::sequence_header_in(a, i, j) {
        let k = choose|k: int| i <= k < j && (#[trigger] a[k]).kind == obu::OBU_SEQUENCE_HEADER;
        assert(b[k].kind == obu::OBU_SEQUENCE_HEADER);
    }
    if obu::sequence_header_in(b, i, j) {
        let k = choose|k: int| i <= k < j && (#[trigger] b[k]).kind == obu::OBU_SEQUENCE_HEADER;
        assert(a[k].kind == obu::OBU_SEQUENCE_HEADER);
    }
}

proof fn lemma_av1_goes_on(x: Seq<u8>, b: Seq<u8>)
    requires
        x.len() + b.len() <= usize::MAX,
    ensures
        goes_on(StreamKind::Av1, x, b),
{
    let w = x + b;
    if feed::whole_from(w, 0) is Ok {
        growth::lemma_whole_prefix(x, b, 0);
        let lw = feed::whole_from(w, 0)->Ok_0;
        let lx = feed::whole_from(x, 0)->Ok_0;
        let ow = obu::openings(lw);
        let ox = obu::openings(lx);
        let (first, at) = feed::obu_pieces(lx);
        let (all, open) = feed::obu_pieces(lw);
        lemma_obu_pieces_in(x);
        lemma_obu_pieces_in(w);
        growth::lemma_obu_openings_prefix(lx, lw);
        let y = x.skip(at) + b;
        assert(y =~= w.skip(at));
        if ox.len() == 0 {
            assert(y =~= w);
            assert(first + pieces_moved(all, 0) =~= all);
        } else {
            let m = ox.len() - 1;
            let i = ox[m];
            marks::lemma_marks(obu::is_opening(lx), lx.len() as int);
            marks::lemma_marks(obu::is_opening(lw), lw.len() as int);
            assert(ow[m] == i);
            assert(lw[i] == lx[i]);
            growth::lemma_whole_cut(w, i);
            let ly = obu_laws::all_shifted(lw.skip(i), -at);
            assert(feed::whole_from(y, 0) == Ok::<Seq<Obu>, Error>(ly));
            lemma_obu_pieces_in(y);
            lemma_av1_pieces_join(lx, lw, m, at);
        }
    }
}

/// The finished temporal units of OBUs are those finished before the
/// open one of a prefix, and those finished from there on.
proof fn lemma_av1_pieces_join(lx: Seq<Obu>, lw: Seq<Obu>, m: int, at: int)
    requires
        lx.is_prefix_of(lw),
        m == obu::openings(lx).len() - 1,
        0 <= m,
    ensures
        feed::obu_pieces(lw).0 == feed::obu_pieces(lx).0 + pieces_moved(
            feed::obu_pieces(
                obu_laws::all_shifted(lw.skip(obu::openings(lx)[m]), -at),
            ).0,
            at,
        ),
        feed::obu_pieces(lw).1 == at + feed::obu_pieces(
            obu_laws::all_shifted(lw.skip(obu::openings(lx)[m]), -at),
        ).1,
{
    let ow = obu::openings(lw);
    let ox = obu::openings(lx);
    let i = ox[m];
    let ly = obu_laws::all_shifted(lw.skip(i), -at);
    let oy = obu::openings(ly);
    let all = feed::obu_pieces(lw).0;
    let first = feed::obu_pieces(lx).0;
    let more = feed::obu_pieces(ly).0;
    let joined = first + pieces_moved(more, at);
    growth::lemma_obu_openings_prefix(lx, lw);
    marks::lemma_marks(obu::is_opening(lx), lx.len() as int);
    marks::lemma_marks(obu::is_opening(lw), lw.len() as int);
    assert(ow[m] == i);
    growth::lemma_obu_openings_suffix(lw, m, -at);
    marks::lemma_marks(obu::is_opening(ly), ly.len() as int);
    assert(oy.len() == ow.skip(m).len());
    assert forall|k: int| 0 <= k < oy.len() implies ow[m + k] == #[trigger] oy[k] + i by {
        assert(ow.skip(m)[k] == ow[m + k]);
        assert(marks::moved(oy, i)[k] == oy[k] + i);
    }
    assert(joined.len() == all.len());
    assert forall|k: int| 0 <= k < all.len() implies all[k] == #[trigger] joined[k] by {
        if k < m {
            assert(ow[k] == ox[k] && ow[k + 1] == ox[k + 1]);
            assert(ox[k] < ox[k + 1]);
            assert(lw[ox[k]] == lx[ox[k]]);
            assert(lw[ox[k + 1]] == lx[ox[k + 1]]);
            lemma_sequence_header_prefix(lx, lw, ox[k], ox[k + 1]);
            assert(joined[k] == first[k]);
        } else {
            let j = k - m;
            assert(ow[m + j] == oy[j] + i);
            assert(ow[m + (j + 1)] == oy[j + 1] + i);
            assert(oy[j] < oy[j + 1]);
            assert(ly[oy[j]].start == lw[i + oy[j]].start - at);
            assert(ly[oy[j + 1]].start == lw[i + oy[j + 1]].start - at);
            lemma_sequence_header_suffix(lw, i, oy[j], oy[j + 1], -at);
            assert(joined[k] == piece_moved(more[j], at));
        }
    }
    assert(all =~= joined);
    let z = oy.len() - 1;
    assert(ow[m + z] == oy[z] + i);
    assert(ly[oy[z]].start == lw[i + oy[z]].start - at);
}

/// Cutting goes on where it left off, for every kind of stream.
proof fn lemma_goes_on(kind: StreamKind, x: Seq<u8>, b: Seq<u8>)
    requires
        x.len() + b.len() <= usize::MAX,
    ensures
        goes_on(kind, x, b),
{
    match kind {
        StreamKind::Nal(codec) => lemma_nal_goes_on(codec, x, b),
        StreamKind::Av1 => lemma_av1_goes_on(x, b),
    }
}

/// One pass over the bytes finds every carrier they finish: what is left
/// opens a carrier that nothing has ended yet, and holds no other.
pub proof fn what_is_left_is_one_open_carrier(kind: StreamKind, s: Seq<u8>)
    requires
        s.len() <= usize::MAX,
        feed::pieces(kind, s) is Ok,
    ensures
        0 <= feed::pieces(kind, s)->Ok_0.1 <= s.len(),
        feed::pieces(kind, s.skip(feed::pieces(kind, s)->Ok_0.1)) == Ok::<(Seq<Piece>, int), Error>(
            (Seq::empty(), 0),
        ),
{
    let none = Seq::<u8>::empty();
    let (list, at) = feed::pieces(kind, s)->Ok_0;
    lemma_goes_on(kind, s, none);
    assert(s + none =~= s);
    assert(s.skip(at) + none =~= s.skip(at));
    let (more, more_at) = feed::pieces(kind, s.skip(at))->Ok_0;
    assert((list + pieces_moved(more, at)).len() == list.len() + more.len());
    assert(more =~= Seq::empty());
}

/// A feed that owes nothing reads what it holds and what comes.
pub proof fn lemma_in_hand(state: State, chunk: Seq<u8>)
    requires
        state.owed == 0,
    ensures
        feed::in_hand(state, chunk) == state.held + chunk,
        feed::let_go(state, chunk) == 0,
{
    assert((state.held + chunk).skip(0) =~= state.held + chunk);
}

/// No bytes finish no carrier.
pub proof fn lemma_pieces_of_nothing(kind: StreamKind)
    ensures
        feed::pieces(kind, Seq::empty()) == Ok::<(Seq<Piece>, int), Error>((Seq::empty(), 0)),
{
    let s = Seq::<u8>::empty();
    match kind {
        StreamKind::Nal(codec) => {
            assert(annexb::codes(s) =~= Seq::empty());
            assert(annexb::split(s) =~= Seq::empty());
            assert(h26x::openings(codec, annexb::split(s)) =~= Seq::empty());
            assert(h26x::units(s, codec).len() == 0);
        },
        StreamKind::Av1 => {
            assert(obu::openings(Seq::empty()) =~= Seq::empty());
        },
    }
}

/// Where a stream is cut into chunks makes no difference: two pushes
/// answer, between them, what one push of both chunks answers, and leave
/// the feed as it leaves it; and so do chunks of what is left of a
/// carrier that was given up on. This is as long as the bytes are the
/// codec they are said to be and no carrier is given up on.
pub proof fn two_chunks_are_one(state: State, a: Seq<u8>, b: Seq<u8>)
    requires
        state.held.len() + a.len() + b.len() <= usize::MAX,
        feed::push_answer(state, a + b) is Ok,
        feed::push_leaves(state, a).dropped == state.dropped,
        feed::push_leaves(state, a + b).dropped == state.dropped,
    ensures
        ({
            let between = feed::push_leaves(state, a);
            &&& feed::push_leaves(between, b) == feed::push_leaves(state, a + b)
            &&& feed::push_answer(state, a) matches Ok(first) && feed::push_answer(
                between,
                b,
            ) matches Ok(second) && feed::push_answer(state, a + b) == Ok::<Seq<Carrier>, Error>(
                first + second,
            )
        }),
{
    if state.owed >= state.held.len() + a.len() {
        lemma_owed_chunk(state, a, b);
    } else {
        lemma_read_chunk(state, a, b);
    }
}

/// A push is what the bytes it has to read make it, and what the feed
/// still owes behind them.
pub proof fn lemma_same_push(one: State, a: Seq<u8>, other: State, b: Seq<u8>)
    requires
        feed::in_hand(one, a) == feed::in_hand(other, b),
        one.owed - feed::let_go(one, a) == other.owed - feed::let_go(other, b),
        (State { held: Seq::empty(), owed: 0, ..one }) == (State {
            held: Seq::empty(),
            owed: 0,
            ..other
        }),
    ensures
        feed::push_answer(one, a) == feed::push_answer(other, b),
        feed::push_leaves(one, a) == feed::push_leaves(other, b),
{
    assert(one.kind == other.kind && one.uuid == other.uuid && one.metadata_type
        == other.metadata_type && one.index == other.index && one.limit == other.limit
        && one.dropped == other.dropped);
    if let Ok((list, at)) = feed::pieces(one.kind, feed::in_hand(one, a)) {
        let s = feed::in_hand(one, a);
        assert(feed::cut_off(one, s, list) =~= feed::cut_off(other, s, list));
    }
}

/// A chunk that is all of a carrier that was given up on changes nothing
/// but how much of it is left.
#[verifier::rlimit(40)]
proof fn lemma_owed_chunk(state: State, a: Seq<u8>, b: Seq<u8>)
    requires
        state.owed >= state.held.len() + a.len(),
        feed::push_answer(state, a + b) is Ok,
    ensures
        ({
            let between = feed::push_leaves(state, a);
            &&& feed::push_leaves(between, b) == feed::push_leaves(state, a + b)
            &&& feed::push_answer(state, a) matches Ok(first) && feed::push_answer(
                between,
                b,
            ) matches Ok(second) && feed::push_answer(state, a + b) == Ok::<Seq<Carrier>, Error>(
                first + second,
            )
        }),
{
    let between = feed::push_leaves(state, a);
    let x = feed::in_hand(state, a);
    assert(x =~= Seq::empty());
    lemma_pieces_of_nothing(state.kind);
    assert(x.skip(0) =~= Seq::empty());
    assert(feed::cut_off(state, x, Seq::empty()) =~= Seq::empty());
    assert(between == (State {
        held: Seq::empty(),
        owed: (state.owed - state.held.len() - a.len()) as nat,
        ..state
    }));
    assert(feed::in_hand(between, b) =~= feed::in_hand(state, a + b));
    lemma_same_push(between, b, state, a + b);
    let more = feed::push_answer(between, b)->Ok_0;
    assert(Seq::<Carrier>::empty() + more =~= more);
}

/// What a push that is taken, with nothing given up on, answers and
/// leaves.
proof fn lemma_taken_push(state: State, chunk: Seq<u8>)
    requires
        feed::push_answer(state, chunk) is Ok,
        feed::push_leaves(state, chunk).dropped == state.dropped,
    ensures
        feed::pieces(state.kind, feed::in_hand(state, chunk)) matches Ok((list, at)) && {
            let s = feed::in_hand(state, chunk);
            &&& 0 <= at <= s.len()
            &&& s.len() - at <= state.limit
            &&& pieces_in(list, s.len() as int)
            &&& feed::push_answer(state, chunk) == Ok::<Seq<Carrier>, Error>(
                feed::cut_off(state, s, list),
            )
            &&& feed::push_leaves(state, chunk) == (State {
                held: s.skip(at),
                index: state.index + list.len(),
                owed: (state.owed - feed::let_go(state, chunk)) as nat,
                ..state
            })
        },
{
    lemma_pieces_in(state.kind, feed::in_hand(state, chunk));
}

/// Two chunks, the first of which has something to read, are one.
#[verifier::rlimit(40)]
proof fn lemma_read_chunk(state: State, a: Seq<u8>, b: Seq<u8>)
    requires
        state.owed < state.held.len() + a.len(),
        state.held.len() + a.len() + b.len() <= usize::MAX,
        feed::push_answer(state, a + b) is Ok,
        feed::push_leaves(state, a).dropped == state.dropped,
        feed::push_leaves(state, a + b).dropped == state.dropped,
    ensures
        ({
            let between = feed::push_leaves(state, a);
            &&& feed::push_leaves(between, b) == feed::push_leaves(state, a + b)
            &&& feed::push_answer(state, a) matches Ok(first) && feed::push_answer(
                between,
                b,
            ) matches Ok(second) && feed::push_answer(state, a + b) == Ok::<Seq<Carrier>, Error>(
                first + second,
            )
        }),
{
    let between = feed::push_leaves(state, a);
    let x = feed::in_hand(state, a);
    let w = feed::in_hand(state, a + b);
    assert(w =~= x + b);
    lemma_goes_on(state.kind, x, b);
    lemma_taken_push(state, a);
    lemma_taken_push(state, a + b);
    let (all, open) = feed::pieces(state.kind, w)->Ok_0;
    let (first, at) = feed::pieces(state.kind, x)->Ok_0;
    let y = x.skip(at) + b;
    assert(between.owed == 0);
    lemma_in_hand(between, b);
    assert(feed::in_hand(between, b) == y);
    let (more, more_open) = feed::pieces(state.kind, y)->Ok_0;
    assert(all.len() == first.len() + more.len());
    assert(y.skip(more_open) =~= w.skip(open));
    lemma_cut_off_join(state, between, x, b, first, at, more);
}

/// Carriers cut off bytes at once are those cut off before a cut and
/// those cut off behind it.
proof fn lemma_cut_off_join(
    state: State,
    between: State,
    x: Seq<u8>,
    b: Seq<u8>,
    first: Seq<Piece>,
    at: int,
    more: Seq<Piece>,
)
    requires
        0 <= at <= x.len(),
        pieces_in(first, x.len() as int),
        pieces_in(more, x.len() + b.len() - at),
        between.kind == state.kind,
        between.uuid == state.uuid,
        between.metadata_type == state.metadata_type,
        between.index == state.index + first.len(),
    ensures
        feed::cut_off(state, x + b, first + pieces_moved(more, at)) == feed::cut_off(
            state,
            x,
            first,
        ) + feed::cut_off(between, x.skip(at) + b, more),
{
    let w = x + b;
    let y = x.skip(at) + b;
    let moved = pieces_moved(more, at);
    let all = first + moved;
    let out = feed::cut_off(state, w, all);
    let out_first = feed::cut_off(state, x, first);
    let out_more = feed::cut_off(between, y, more);
    assert forall|k: int| 0 <= k < out.len() implies out[k] == #[trigger] (out_first
        + out_more)[k] by {
        if k < first.len() {
            assert(all[k] == first[k]);
            assert(w.subrange(first[k].start, first[k].end) =~= x.subrange(
                first[k].start,
                first[k].end,
            ));
            assert((out_first + out_more)[k] == out_first[k]);
        } else {
            let j = k - first.len();
            assert(all[k] == moved[j]);
            assert(moved[j] == piece_moved(more[j], at));
            assert(w.subrange(all[k].start, all[k].end) =~= y.subrange(
                more[j].start,
                more[j].end,
            ));
            assert((out_first + out_more)[k] == out_more[j]);
        }
    }
    assert(out =~= out_first + out_more);
}

/// What a feed is left as by chunks pushed one after another.
pub open spec fn all_leave(state: State, chunks: Seq<Seq<u8>>) -> State
    decreases chunks.len(),
{
    if chunks.len() == 0 {
        state
    } else {
        feed::push_leaves(all_leave(state, chunks.drop_last()), chunks.last())
    }
}

/// What chunks pushed one after another answer between them.
pub open spec fn all_answer(state: State, chunks: Seq<Seq<u8>>) -> Result<Seq<Carrier>, Error>
    decreases chunks.len(),
{
    if chunks.len() == 0 {
        Ok(Seq::empty())
    } else {
        match all_answer(state, chunks.drop_last()) {
            Ok(before) => match feed::push_answer(
                all_leave(state, chunks.drop_last()),
                chunks.last(),
            ) {
                Ok(last) => Ok(before + last),
                Err(e) => Err(e),
            },
            Err(e) => Err(e),
        }
    }
}

/// Chunks put together.
pub open spec fn joined(chunks: Seq<Seq<u8>>) -> Seq<u8>
    decreases chunks.len(),
{
    if chunks.len() == 0 {
        Seq::empty()
    } else {
        joined(chunks.drop_last()) + chunks.last()
    }
}

/// A feed counts what it gives up on and never counts back.
proof fn lemma_dropped_grows(state: State, chunks: Seq<Seq<u8>>)
    requires
        chunks.len() > 0,
    ensures
        all_leave(state, chunks.drop_last()).dropped <= all_leave(state, chunks).dropped,
{
}

proof fn lemma_dropped_from(state: State, chunks: Seq<Seq<u8>>)
    ensures
        state.dropped <= all_leave(state, chunks).dropped,
    decreases chunks.len(),
{
    if chunks.len() > 0 {
        lemma_dropped_from(state, chunks.drop_last());
        lemma_dropped_grows(state, chunks);
    }
}

/// Bytes of a codec, cut short anywhere, are bytes of that codec.
proof fn lemma_answer_prefix(state: State, a: Seq<u8>, b: Seq<u8>)
    requires
        state.owed == 0,
        state.held.len() + a.len() + b.len() <= usize::MAX,
        feed::push_answer(state, a + b) is Ok,
    ensures
        feed::push_answer(state, a) is Ok,
{
    let x = state.held + a;
    lemma_in_hand(state, a);
    lemma_in_hand(state, a + b);
    assert(state.held + (a + b) =~= x + b);
    lemma_goes_on(state.kind, x, b);
}

/// The carriers that bytes have finished, whatever offsets they lie at,
/// and where the one still open begins.
pub open spec fn placeless_pieces(kind: StreamKind, s: Seq<u8>) -> Result<
    (Seq<Piece>, int),
    Error,
> {
    match kind {
        StreamKind::Nal(codec) => Ok(feed::nal_pieces(s, codec)),
        StreamKind::Av1 => match growth::placeless_from(s, 0) {
            Ok(list) => Ok(feed::obu_pieces(list)),
            Err(e) => Err(e),
        },
    }
}

/// Offsets matter to where carriers end only where one is too large.
proof fn lemma_placeless_pieces(kind: StreamKind, s: Seq<u8>)
    ensures
        feed::pieces(kind, s) is Ok ==> placeless_pieces(kind, s) == feed::pieces(kind, s),
        placeless_pieces(kind, s) is Ok ==> feed::pieces(kind, s) is Ok || feed::pieces(
            kind,
            s,
        )->Err_0 is TooLarge,
{
    growth::lemma_placeless(s, 0);
}

/// Where carriers lie in bytes that parse.
pub proof fn lemma_pieces_in(kind: StreamKind, s: Seq<u8>)
    requires
        feed::pieces(kind, s) is Ok,
    ensures
        pieces_in(feed::pieces(kind, s)->Ok_0.0, s.len() as int),
        0 <= feed::pieces(kind, s)->Ok_0.1 <= s.len(),
{
    match kind {
        StreamKind::Nal(codec) => lemma_nal_pieces_in(s, codec),
        StreamKind::Av1 => lemma_obu_pieces_in(s),
    }
}

/// Bytes that have been cut, and then grown, finish between them what
/// the whole finishes.
proof fn lemma_placeless_join(
    kind: StreamKind,
    x: Seq<u8>,
    b: Seq<u8>,
    first: Seq<Piece>,
    at: int,
)
    requires
        x.len() + b.len() <= usize::MAX,
        placeless_pieces(kind, x) == Ok::<(Seq<Piece>, int), Error>((first, at)),
        0 <= at <= x.len(),
        placeless_pieces(kind, x.skip(at) + b) is Ok,
    ensures
        ({
            let (more, more_open) = placeless_pieces(kind, x.skip(at) + b)->Ok_0;
            placeless_pieces(kind, x + b) == Ok::<(Seq<Piece>, int), Error>(
                (first + pieces_moved(more, at), at + more_open),
            )
        }),
{
    let w = x + b;
    let y = x.skip(at) + b;
    match kind {
        StreamKind::Nal(codec) => {
            lemma_nal_goes_on(codec, x, b);
        },
        StreamKind::Av1 => {
            let lx = growth::placeless_from(x, 0)->Ok_0;
            let ly = growth::placeless_from(y, 0)->Ok_0;
            let ox = obu::openings(lx);
            if ox.len() == 0 {
                assert(y =~= w);
                let more = feed::obu_pieces(ly).0;
                assert(first + pieces_moved(more, 0) =~= more);
            } else {
                let m = ox.len() - 1;
                let i = ox[m];
                marks::lemma_marks(obu::is_opening(lx), lx.len() as int);
                growth::lemma_placeless_join(x, b, i);
                growth::lemma_placeless_prefix(x, b, 0);
                let lw = growth::placeless_from(w, 0)->Ok_0;
                assert(obu_laws::all_shifted(lw.skip(i), -at) =~= ly);
                lemma_av1_pieces_join(lx, lw, m, at);
            }
        },
    }
}

/// Whether `out` and `left` are what an idle feed makes of the stream
/// `s`, whatever offsets its carriers lie at.
spec fn told(state: State, s: Seq<u8>, out: Seq<Carrier>, left: State) -> bool {
    placeless_pieces(state.kind, s) matches Ok((list, at)) && {
        &&& 0 <= at <= s.len()
        &&& s.len() - at <= state.limit
        &&& pieces_in(list, s.len() as int)
        &&& out == feed::cut_off(state, s, list)
        &&& left == (State { held: s.skip(at), index: state.index + list.len(), ..state })
    }
}

/// One more push that is taken goes on with the stream.
#[verifier::rlimit(40)]
proof fn lemma_told_more(
    state: State,
    x: Seq<u8>,
    out: Seq<Carrier>,
    between: State,
    b: Seq<u8>,
)
    requires
        state.owed == 0,
        told(state, x, out, between),
        x.len() + b.len() <= usize::MAX,
        feed::push_answer(between, b) is Ok,
        feed::push_leaves(between, b).dropped == between.dropped,
    ensures
        told(
            state,
            x + b,
            out + feed::push_answer(between, b)->Ok_0,
            feed::push_leaves(between, b),
        ),
{
    let s = x + b;
    let (first, at) = placeless_pieces(state.kind, x)->Ok_0;
    let y = x.skip(at) + b;
    lemma_in_hand(between, b);
    assert(feed::in_hand(between, b) == y);
    lemma_taken_push(between, b);
    lemma_placeless_pieces(state.kind, y);
    let (more, more_open) = feed::pieces(state.kind, y)->Ok_0;
    lemma_placeless_join(state.kind, x, b, first, at);
    let all = first + pieces_moved(more, at);
    assert(pieces_in(all, s.len() as int)) by {
        assert forall|k: int| 0 <= k < all.len() implies 0 <= (#[trigger] all[k]).start
            <= all[k].end <= s.len() by {
            if k < first.len() {
                assert(all[k] == first[k]);
            } else {
                assert(all[k] == piece_moved(more[k - first.len()], at));
            }
        }
    }
    lemma_cut_off_join(state, between, x, b, first, at, more);
    assert(y.skip(more_open) =~= s.skip(at + more_open));
    assert(all.len() == first.len() + more.len());
}

/// What pushes that are all taken answer between them, and what they
/// leave, is a matter of the stream alone.
proof fn lemma_taken_chunks(state: State, chunks: Seq<Seq<u8>>)
    requires
        feed::idle(state),
        joined(chunks).len() <= usize::MAX,
        all_answer(state, chunks) is Ok,
        all_leave(state, chunks).dropped == state.dropped,
    ensures
        told(state, joined(chunks), all_answer(state, chunks)->Ok_0, all_leave(state, chunks)),
    decreases chunks.len(),
{
    if chunks.len() == 0 {
        let s = joined(chunks);
        lemma_pieces_of_nothing(state.kind);
        lemma_placeless_pieces(state.kind, s);
        assert(s.skip(0) =~= state.held);
        assert(feed::cut_off(state, s, Seq::empty()) =~= Seq::empty());
    } else {
        let before = chunks.drop_last();
        lemma_dropped_grows(state, chunks);
        lemma_dropped_from(state, before);
        lemma_taken_chunks(state, before);
        lemma_told_more(
            state,
            joined(before),
            all_answer(state, before)->Ok_0,
            all_leave(state, before),
            chunks.last(),
        );
    }
}

/// However a stream is cut into chunks, a feed that takes them all and
/// gives up on none answers the same between them, and is left the same.
pub proof fn any_two_ways_to_chunk_agree(
    state: State,
    chunks: Seq<Seq<u8>>,
    others: Seq<Seq<u8>>,
)
    requires
        feed::idle(state),
        joined(chunks) == joined(others),
        joined(chunks).len() <= usize::MAX,
        all_answer(state, chunks) is Ok,
        all_answer(state, others) is Ok,
        all_leave(state, chunks).dropped == state.dropped,
        all_leave(state, others).dropped == state.dropped,
    ensures
        all_answer(state, chunks) == all_answer(state, others),
        all_leave(state, chunks) == all_leave(state, others),
{
    lemma_taken_chunks(state, chunks);
    lemma_taken_chunks(state, others);
}

/// A stream whose chunks are all taken, none of its carriers given up
/// on, is taken whole, with the same answer and the same left in hand.
/// The one thing that a chunk can hide is an offset: an OBU that would
/// end past the last offset of the whole stream may end before that of
/// the bytes in hand.
pub proof fn chunks_that_are_taken_make_the_whole(state: State, chunks: Seq<Seq<u8>>)
    requires
        feed::idle(state),
        joined(chunks).len() <= usize::MAX,
        all_answer(state, chunks) is Ok,
        all_leave(state, chunks).dropped == state.dropped,
        !(feed::push_answer(state, joined(chunks)) matches Err(Error::TooLarge { at })),
    ensures
        feed::push_answer(state, joined(chunks)) is Ok,
        all_answer(state, chunks) == feed::push_answer(state, joined(chunks)),
        all_leave(state, chunks) == feed::push_leaves(state, joined(chunks)),
{
    let s = joined(chunks);
    assert(state.held + s =~= s);
    lemma_in_hand(state, s);
    lemma_taken_chunks(state, chunks);
    lemma_placeless_pieces(state.kind, s);
}

/// Chunks of a stream that is taken whole are all taken.
proof fn lemma_all_taken(state: State, chunks: Seq<Seq<u8>>)
    requires
        feed::idle(state),
        joined(chunks).len() <= usize::MAX,
        feed::push_answer(state, joined(chunks)) is Ok,
        all_leave(state, chunks).dropped == state.dropped,
    ensures
        all_answer(state, chunks) is Ok,
    decreases chunks.len(),
{
    if chunks.len() > 0 {
        let before = chunks.drop_last();
        let x = joined(before);
        let b = chunks.last();
        let between = all_leave(state, before);
        lemma_answer_prefix(state, x, b);
        lemma_dropped_grows(state, chunks);
        lemma_dropped_from(state, before);
        lemma_all_taken(state, before);
        lemma_taken_chunks(state, before);
        assert(state.held + x =~= x);
        assert(state.held + (x + b) =~= x + b);
        lemma_in_hand(state, x);
        lemma_in_hand(state, x + b);
        lemma_placeless_pieces(state.kind, x);
        lemma_goes_on(state.kind, x, b);
        lemma_in_hand(between, b);
    }
}

/// However a stream is cut into chunks, what comes out of them between
/// them, and what is left in hand, is what one push of the whole stream
/// gives. This is as long as the bytes are the codec they are said to be
/// and no carrier is given up on.
pub proof fn chunks_make_no_difference(state: State, chunks: Seq<Seq<u8>>)
    requires
        feed::idle(state),
        joined(chunks).len() <= usize::MAX,
        feed::push_answer(state, joined(chunks)) is Ok,
        all_leave(state, chunks).dropped == state.dropped,
    ensures
        all_answer(state, chunks) == feed::push_answer(state, joined(chunks)),
        all_leave(state, chunks) == feed::push_leaves(state, joined(chunks)),
{
    lemma_all_taken(state, chunks);
    chunks_that_are_taken_make_the_whole(state, chunks);
}

/// A feed that takes every chunk of a stream no longer than its limit
/// gives up on nothing.
proof fn lemma_short_chunks(state: State, chunks: Seq<Seq<u8>>)
    requires
        feed::idle(state),
        joined(chunks).len() <= state.limit,
        all_answer(state, chunks) is Ok,
    ensures
        all_leave(state, chunks).dropped == state.dropped,
        all_leave(state, chunks).held.len() <= joined(chunks).len(),
        all_leave(state, chunks).limit == state.limit,
        all_leave(state, chunks).owed == 0,
    decreases chunks.len(),
{
    if chunks.len() > 0 {
        let before = all_leave(state, chunks.drop_last());
        lemma_short_chunks(state, chunks.drop_last());
        lemma_in_hand(before, chunks.last());
        lemma_pieces_in(before.kind, before.held + chunks.last());
    }
}

/// What comes out of a stream no longer than the limit, the last carrier
/// and all, is a matter of the stream alone and not of how it was cut,
/// as long as every push is taken; and nothing is given up on.
pub proof fn a_short_stream_comes_out_the_same_in_any_chunks(
    state: State,
    chunks: Seq<Seq<u8>>,
    others: Seq<Seq<u8>>,
)
    requires
        feed::idle(state),
        joined(chunks) == joined(others),
        joined(chunks).len() <= state.limit <= usize::MAX,
        all_answer(state, chunks) is Ok,
        all_answer(state, others) is Ok,
    ensures
        all_answer(state, chunks)->Ok_0 + feed::finish_answer(all_leave(state, chunks))
            == all_answer(state, others)->Ok_0 + feed::finish_answer(all_leave(state, others)),
        all_leave(state, chunks).dropped == state.dropped,
        all_leave(state, others).dropped == state.dropped,
{
    lemma_short_chunks(state, chunks);
    lemma_short_chunks(state, others);
    any_two_ways_to_chunk_agree(state, chunks, others);
}

/// The access units of a stream, as a feed hands them out.
pub open spec fn access_units_carried(state: State, s: Seq<u8>, codec: Codec) -> Seq<Carrier> {
    let found = h26x::units(s, codec);
    Seq::new(
        found.len(),
        |k: int|
            Carrier {
                index: (state.index + k) as nat,
                keyframe: found[k].keyframe,
                payloads: feed::payloads_in(
                    state.kind,
                    state.uuid,
                    state.metadata_type,
                    s.subrange(found[k].start, found[k].end),
                ),
            },
    )
}

/// The temporal units of a stream, as a feed hands them out.
pub open spec fn temporal_units_carried(state: State, s: Seq<u8>) -> Seq<Carrier> {
    let found = obu::units(s)->Ok_0;
    Seq::new(
        found.len(),
        |k: int|
            Carrier {
                index: (state.index + k) as nat,
                keyframe: found[k].has_sequence_header,
                payloads: feed::payloads_in(
                    state.kind,
                    state.uuid,
                    state.metadata_type,
                    s.subrange(found[k].start, found[k].end),
                ),
            },
    )
}

/// A stream fed to its end, in whatever chunks, comes out as its access
/// units: as many, in order, each with its own keyframe flag and
/// payloads. This is as long as no carrier is given up on.
#[verifier::rlimit(40)]
pub proof fn a_fed_stream_is_its_access_units(state: State, chunks: Seq<Seq<u8>>, codec: Codec)
    requires
        feed::idle(state),
        state.kind == StreamKind::Nal(codec),
        joined(chunks).len() <= usize::MAX,
        all_leave(state, chunks).dropped == state.dropped,
        h26x::units(joined(chunks), codec).len() > 0,
    ensures
        all_answer(state, chunks) matches Ok(out) && out + feed::finish_answer(
            all_leave(state, chunks),
        ) == access_units_carried(state, joined(chunks), codec),
{
    let s = joined(chunks);
    chunks_make_no_difference(state, chunks);
    assert(state.held + s =~= s);
    lemma_in_hand(state, s);
    lemma_taken_push(state, s);
    lemma_units_and_the_last(state, s, codec, feed::push_leaves(state, s));
}

/// The carriers cut off a stream and the one at its end are its access
/// units.
proof fn lemma_units_and_the_last(state: State, s: Seq<u8>, codec: Codec, after: State)
    requires
        state.kind == StreamKind::Nal(codec),
        h26x::units(s, codec).len() > 0,
        after == (State {
            held: s.skip(feed::nal_pieces(s, codec).1),
            index: state.index + feed::nal_pieces(s, codec).0.len(),
            owed: after.owed,
            ..state
        }),
    ensures
        feed::cut_off(state, s, feed::nal_pieces(s, codec).0) + feed::finish_answer(after)
            == access_units_carried(state, s, codec),
{
    let found = h26x::units(s, codec);
    let m = found.len() - 1;
    let out = feed::cut_off(state, s, feed::nal_pieces(s, codec).0);
    let all = access_units_carried(state, s, codec);
    assert(found.last() == found[m]);
    lemma_last_access_unit(s, codec);
    assert(feed::finish_answer(after) =~= seq![all[m]]);
    assert(out + feed::finish_answer(after) =~= all);
}

/// The place and the keyframe flag of the last access unit, when the
/// bytes before it have gone.
proof fn lemma_last_access_unit(s: Seq<u8>, codec: Codec)
    requires
        h26x::units(s, codec).len() > 0,
    ensures
        ({
            let found = h26x::units(s, codec);
            let t = s.skip(found.last().start);
            &&& 0 <= found.last().start < s.len()
            &&& t == s.subrange(found.last().start, found.last().end)
            &&& feed::last_is_keyframe(StreamKind::Nal(codec), t) == found.last().keyframe
        }),
{
    let found = h26x::units(s, codec);
    let m = found.len() - 1;
    let at = found[m].start;
    let t = s.skip(at);
    h26x::lemma_units(s, codec);
    growth::lemma_units_suffix(s, codec, m);
    assert(found[m].start < found[m].end);
    assert(h26x::units(t, codec)[0] == growth::unit_moved(found.skip(m)[0], -at));
    assert(found.skip(m)[0] == found[m]);
    assert(s.subrange(found[m].start, found[m].end) =~= t);
}

/// The OBUs of a stream are all there when it has ended, but for a last
/// one without a size.
proof fn lemma_whole_of_obus(s: Seq<u8>, at: int)
    requires
        0 <= at <= s.len(),
        obu::obus_from(s, at) is Ok,
    ensures
        ({
            let list = obu::obus_from(s, at)->Ok_0;
            feed::whole_from(s, at) == Ok::<Seq<Obu>, Error>(
                if list.len() > 0 && !obu::has_size(s, list.last().start) {
                    list.drop_last()
                } else {
                    list
                },
            )
        }),
    decreases s.len() - at,
{
    let list = obu::obus_from(s, at)->Ok_0;
    if at < s.len() {
        let o = obu::obu_at(s, at)->Ok_0;
        let rest = obu::obus_from(s, o.end)->Ok_0;
        obu::lemma_obu_at(s, at);
        obu::lemma_obus(s, at);
        lemma_whole_of_obus(s, o.end);
        assert(list =~= seq![o] + rest);
        if rest.len() > 0 {
            assert(list.last() == rest.last());
            assert(list[0] == o);
            assert(obu::has_size(s, o.start));
            assert(list.drop_last() =~= seq![o] + rest.drop_last());
        } else {
            assert(list.last() == o);
            assert(list.drop_last() =~= Seq::empty());
            obu::lemma_obus(s, o.end);
            assert(feed::whole_from(s, o.end) == Ok::<Seq<Obu>, Error>(Seq::empty()));
        }
    } else {
        assert(list =~= Seq::empty());
    }
}

/// The place and the keyframe flag of the last temporal unit, when the
/// bytes before it have gone.
proof fn lemma_last_temporal_unit(s: Seq<u8>)
    requires
        0 < s.len() <= usize::MAX,
        obu::units(s) is Ok,
    ensures
        ({
            let found = obu::units(s)->Ok_0;
            let p = found.last().start;
            &&& found.len() > 0
            &&& 0 <= p < s.len()
            &&& feed::last_is_keyframe(StreamKind::Av1, s.skip(p))
                == found.last().has_sequence_header
        }),
{
    let found = obu::units(s)->Ok_0;
    let list = obu::obus(s)->Ok_0;
    let open = obu::openings(list);
    let n = list.len() as int;
    obu::lemma_units(s);
    let m = open.len() - 1;
    let i = open[m];
    let p = found[m].start;
    marks::lemma_marks(obu::is_opening(list), n);
    obu_laws::lemma_obus_cut(s, i);
    let rest = obu_laws::all_shifted(list.skip(i), -p);
    growth::lemma_obu_openings_suffix(list, m, -p);
    let open_rest = obu::openings(rest);
    assert(open.skip(m).len() == 1);
    assert(marks::moved(open_rest, i).len() == 1);
    obu::lemma_first_opening(rest);
    lemma_sequence_header_suffix(list, i, 0, n - i, -p);
    assert(obu::units(s.skip(p))->Ok_0[0].has_sequence_header == obu::sequence_header_in(
        rest,
        0,
        rest.len() as int,
    ));
}

/// A last OBU that opens no temporal unit makes no difference to those
/// that are finished.
proof fn lemma_pieces_without_last(list: Seq<Obu>)
    requires
        list.len() > 1,
        list.last().kind != obu::OBU_TEMPORAL_DELIMITER,
    ensures
        feed::obu_pieces(list.drop_last()) == feed::obu_pieces(list),
{
    let whole = list.drop_last();
    let last = list.len() - 1;
    let f = obu::is_opening(list);
    let g = obu::is_opening(whole);
    let open = obu::openings(list);
    assert(list.take(last) =~= whole);
    assert(!f(last));
    assert forall|k: int| 0 <= k < last implies #[trigger] g(k) == f(k) by {
        assert(whole[k] == list[k]);
    }
    marks::lemma_marks_agree(g, f, last);
    assert(obu::openings(whole) == open);
    marks::lemma_marks(f, last);
    let got = feed::obu_pieces(whole).0;
    let want = feed::obu_pieces(list).0;
    assert forall|k: int| 0 <= k < want.len() implies got[k] == #[trigger] want[k] by {
        assert(open[k] < open[k + 1]);
        assert(whole[open[k]] == list[open[k]]);
        assert(whole[open[k + 1]] == list[open[k + 1]]);
        lemma_sequence_header_prefix(whole, list, open[k], open[k + 1]);
    }
    assert(got =~= want);
    if open.len() > 0 {
        assert(open[open.len() - 1] < last);
        assert(whole[open.last()] == list[open.last()]);
    }
}

/// One OBU opens a temporal unit and finishes none.
proof fn lemma_pieces_of_one(list: Seq<Obu>)
    requires
        list.len() == 1,
        list[0].start == 0,
    ensures
        feed::obu_pieces(list) == (Seq::<Piece>::empty(), 0int),
        feed::obu_pieces(Seq::empty()) == (Seq::<Piece>::empty(), 0int),
{
    let open = obu::openings(list);
    marks::lemma_marks(obu::is_opening(list), 1);
    obu::lemma_first_opening(list);
    assert(open.len() == 1);
    assert(feed::obu_pieces(list).0 =~= Seq::empty());
    assert(obu::openings(Seq::empty()) =~= Seq::empty());
}

/// The finished temporal units of a stream that has ended are all but
/// its last.
proof fn lemma_pieces_of_units(s: Seq<u8>)
    requires
        0 < s.len() <= usize::MAX,
        obu::units(s) is Ok,
        ({
            let list = obu::obus(s)->Ok_0;
            forall|k: int|
                0 < k < list.len() && (#[trigger] list[k]).kind == obu::OBU_TEMPORAL_DELIMITER
                    ==> obu::has_size(s, list[k].start)
        }),
    ensures
        feed::pieces(StreamKind::Av1, s) == Ok::<(Seq<Piece>, int), Error>(
            feed::obu_pieces(obu::obus(s)->Ok_0),
        ),
{
    let list = obu::obus(s)->Ok_0;
    let last = list.len() - 1;
    obu::lemma_obus(s, 0);
    lemma_whole_of_obus(s, 0);
    if !obu::has_size(s, list.last().start) {
        assert(list[last] == list.last());
        if last > 0 {
            lemma_pieces_without_last(list);
        } else {
            lemma_pieces_of_one(list);
            assert(list.drop_last() =~= Seq::empty());
        }
    }
}

/// The temporal units of a stream but its last, as carriers that are
/// finished.
pub open spec fn all_but_last(found: Seq<obu::TuPlace>) -> Seq<Piece> {
    Seq::new(
        (found.len() - 1) as nat,
        |k: int|
            Piece {
                start: found[k].start,
                end: found[k].end,
                keyframe: found[k].has_sequence_header,
            },
    )
}

/// The finished temporal units of OBUs are all but the last.
pub proof fn lemma_pieces_are_units(list: Seq<Obu>, len: int)
    requires
        list.len() > 0,
    ensures
        feed::obu_pieces(list) == (
            all_but_last(obu::units_of(list, len)),
            obu::units_of(list, len).last().start,
        ),
{
    let open = obu::openings(list);
    let got = feed::obu_pieces(list).0;
    let want = all_but_last(obu::units_of(list, len));
    marks::lemma_marks(obu::is_opening(list), list.len() as int);
    obu::lemma_first_opening(list);
    assert forall|k: int| 0 <= k < want.len() implies got[k] == #[trigger] want[k] by {
        assert(open[k + 1] < list.len());
    }
    assert(got =~= want);
}

/// The beginning of an OBU that carries its size, behind other bytes, is
/// an OBU still on its way.
pub proof fn lemma_half_is_open(s: Seq<u8>, one: Seq<u8>, c: int)
    requires
        obu::obu_at(one, 0) is Ok,
        obu::obu_at(one, 0)->Ok_0.end == one.len(),
        obu::has_size(one, 0),
        0 < c < one.len(),
        s.len() + one.len() <= usize::MAX,
    ensures
        feed::step(s + one.take(c), s.len() as int) is Open,
{
    let w = s + one.take(c);
    let at = s.len() as int;
    let from = obu::header_end(one, 0);
    assert(w[at] == one[0]);
    if from <= c {
        let got = w.skip(at + from);
        let all = one.skip(from);
        assert forall|i: int| 0 <= i < got.len() implies got[i] == all[i] by {
            assert(got[i] == one.take(c)[from + i]);
        }
        if obu::leb(got, 8) is Value {
            obu::lemma_leb(got, 8);
            obu_laws::lemma_leb_prefix(got, all, 8);
        }
    }
}

/// The OBUs of a stream, with the beginning of one more behind them, are
/// those that are all there.
proof fn lemma_whole_with_half(s: Seq<u8>, one: Seq<u8>, c: int, at: int)
    requires
        0 <= at <= s.len(),
        obu::obus_from(s, at) is Ok,
        ({
            let list = obu::obus_from(s, at)->Ok_0;
            list.len() > 0 ==> obu::has_size(s, list.last().start)
        }),
        obu::obu_at(one, 0) is Ok,
        obu::obu_at(one, 0)->Ok_0.end == one.len(),
        obu::has_size(one, 0),
        0 <= c < one.len(),
        s.len() + one.len() <= usize::MAX,
    ensures
        feed::whole_from(s + one.take(c), at) == obu::obus_from(s, at),
    decreases s.len() - at,
{
    let w = s + one.take(c);
    if at == s.len() {
        if c > 0 {
            lemma_half_is_open(s, one, c);
        }
    } else {
        let list = obu::obus_from(s, at)->Ok_0;
        let o = obu::obu_at(s, at)->Ok_0;
        let rest = obu::obus_from(s, o.end)->Ok_0;
        obu::lemma_obu_at(s, at);
        obu::lemma_obus(s, at);
        assert(list =~= seq![o] + rest);
        if rest.len() > 0 {
            assert(list.last() == rest.last());
        }
        assert(obu::has_size(s, at)) by {
            assert(list[0] == o);
            if rest.len() == 0 {
                assert(list.last() == o);
            }
        }
        obu_laws::lemma_obu_prefix(s, w, at);
        assert(w[at] == s[at]);
        lemma_whole_with_half(s, one, c, o.end);
    }
}

/// An OBU that has arrived by half is waited for and not refused. Behind
/// a stream whose OBUs all carry their sizes, with any beginning of one
/// more, what is finished is every temporal unit of the stream but the
/// last, and the last is the one still open.
pub proof fn a_half_arrived_obu_is_waited_for(s: Seq<u8>, one: Seq<u8>, c: int)
    requires
        obu::units(s) is Ok,
        obu::units(s)->Ok_0.len() > 0,
        obu::has_size(s, obu::obus(s)->Ok_0.last().start),
        obu::obus(one) is Ok,
        obu::obus(one)->Ok_0.len() == 1,
        obu::has_size(one, 0),
        0 <= c < one.len(),
        s.len() + one.len() <= usize::MAX,
    ensures
        feed::pieces(StreamKind::Av1, s + one.take(c)) == Ok::<(Seq<Piece>, int), Error>(
            (all_but_last(obu::units(s)->Ok_0), obu::units(s)->Ok_0.last().start),
        ),
{
    let list = obu::obus(s)->Ok_0;
    let ones = obu::obus(one)->Ok_0;
    obu::lemma_units(s);
    obu::lemma_obus(s, 0);
    obu::lemma_obus(one, 0);
    assert(obu::obu_at(one, 0) == Ok::<Obu, Error>(ones[0]));
    assert(ones.last() == ones[0]);
    lemma_whole_with_half(s, one, c, 0);
    lemma_pieces_are_units(list, s.len() as int);
}

/// A stream fed to its end, in whatever chunks, comes out as its
/// temporal units: as many, in order, each with its own keyframe flag
/// and payloads. This is as long as the stream parses, no temporal
/// delimiter behind the first OBU lacks its size, and no carrier is
/// given up on.
#[verifier::rlimit(40)]
pub proof fn a_fed_stream_is_its_temporal_units(state: State, chunks: Seq<Seq<u8>>)
    requires
        feed::idle(state),
        state.kind == StreamKind::Av1,
        0 < joined(chunks).len() <= usize::MAX,
        all_leave(state, chunks).dropped == state.dropped,
        obu::units(joined(chunks)) is Ok,
        ({
            let list = obu::obus(joined(chunks))->Ok_0;
            forall|k: int|
                0 < k < list.len() && (#[trigger] list[k]).kind == obu::OBU_TEMPORAL_DELIMITER
                    ==> obu::has_size(joined(chunks), list[k].start)
        }),
    ensures
        all_answer(state, chunks) matches Ok(out) && out + feed::finish_answer(
            all_leave(state, chunks),
        ) == temporal_units_carried(state, joined(chunks)),
{
    let s = joined(chunks);
    let held = state.held + s;
    assert(held =~= s);
    lemma_in_hand(state, s);
    lemma_pieces_of_units(s);
    chunks_make_no_difference(state, chunks);
    lemma_last_temporal_unit(s);
    obu::lemma_units(s);
    let found = obu::units(s)->Ok_0;
    let (list, at) = feed::pieces(StreamKind::Av1, s)->Ok_0;
    let t = s.skip(at);
    let m = found.len() - 1;
    assert(found[m] == found.last());
    assert(found.last().start == at);
    assert(s.subrange(found[m].start, found[m].end) =~= t);
    let out = feed::cut_off(state, s, list);
    let after = feed::push_leaves(state, s);
    assert(after.held == t);
    let all = temporal_units_carried(state, s);
    lemma_pieces_are_units(obu::obus(s)->Ok_0, s.len() as int);
    assert forall|k: int| 0 <= k < out.len() implies out[k] == #[trigger] all[k] by {
        assert(list[k].start == found[k].start && list[k].end == found[k].end);
    }
    assert(out + feed::finish_answer(after) =~= all);
}

/// No access unit waits for the one two along: the bytes before access
/// unit `k` bring out every access unit but the one just before it.
#[verifier::rlimit(40)]
pub proof fn an_access_unit_comes_out_in_time(state: State, s: Seq<u8>, codec: Codec, k: int)
    requires
        feed::idle(state),
        state.kind == StreamKind::Nal(codec),
        1 <= k < h26x::units(s, codec).len(),
    ensures
        feed::push_answer(state, s.take(h26x::units(s, codec)[k].start)) == Ok::<
            Seq<Carrier>,
            Error,
        >(access_units_carried(state, s, codec).take(k - 1)),
{
    let found = h26x::units(s, codec);
    let p = found[k].start;
    let x = s.take(p);
    h26x::lemma_units(s, codec);
    assert(found[k].start < found[k].end);
    assert(x + s.skip(p) =~= s);
    assert(state.held + x =~= x);
    lemma_in_hand(state, x);
    growth::lemma_units_take(s, codec, k);
    growth::lemma_units_prefix(x, s.skip(p), codec);
    h26x::lemma_units(x, codec);
    let ux = h26x::units(x, codec);
    let (list, at) = feed::nal_pieces(x, codec);
    let out = feed::cut_off(state, x, list);
    let want = access_units_carried(state, s, codec).take(k - 1);
    assert forall|m: int| 0 <= m < k - 1 implies out[m] == #[trigger] want[m] by {
        assert(ux[m].start == found[m].start);
        assert(ux[m].end <= x.len());
        assert(x.subrange(ux[m].start, ux[m].end) =~= s.subrange(found[m].start, found[m].end));
    }
    assert(out =~= want);
}

/// No temporal unit waits for the one two along: the bytes before
/// temporal unit `k` bring out every temporal unit but the one just
/// before it.
#[verifier::rlimit(40)]
pub proof fn a_temporal_unit_comes_out_in_time(state: State, s: Seq<u8>, k: int)
    requires
        feed::idle(state),
        state.kind == StreamKind::Av1,
        s.len() <= usize::MAX,
        obu::units(s) is Ok,
        1 <= k < obu::units(s)->Ok_0.len(),
    ensures
        feed::push_answer(state, s.take(obu::units(s)->Ok_0[k].start)) == Ok::<
            Seq<Carrier>,
            Error,
        >(temporal_units_carried(state, s).take(k - 1)),
{
    let list = obu::obus(s)->Ok_0;
    let n = list.len() as int;
    let open = obu::openings(list);
    let found = obu::units(s)->Ok_0;
    let i = open[k];
    let p = found[k].start;
    let x = s.take(p);
    marks::lemma_marks(obu::is_opening(list), n);
    obu_laws::lemma_obus_cut(s, i);
    let front = list.take(i);
    assert(state.held + x =~= x);
    lemma_in_hand(state, x);
    assert(open[0] < i);
    assert(obu::has_size(x, front.last().start)) by {
        obu::lemma_obus(s, 0);
        assert(front.last() == list[i - 1]);
        assert(list[i - 1].end == list[i].start);
        assert(x[list[i - 1].start] == s[list[i - 1].start]);
    }
    lemma_whole_of_obus(x, 0);
    assert(feed::whole_from(x, 0) == Ok::<Seq<Obu>, Error>(front));
    growth::lemma_obu_openings_prefix(front, list);
    let open_front = obu::openings(front);
    marks::lemma_marks(obu::is_opening(front), front.len() as int);
    assert(open_front.len() == k) by {
        if k < open_front.len() {
            assert(open_front[k] == open[k]);
        }
        if open_front.len() < k {
            let z = open[open_front.len() as int];
            assert(z < i);
            assert(obu::is_opening(list)(z));
            assert(front[z] == list[z]);
            assert(obu::is_opening(front)(z));
            assert(open_front.contains(z));
            let y = choose|y: int| 0 <= y < open_front.len() && open_front[y] == z;
            assert(open_front[y] == open[y]);
            assert(open[y] < open[open_front.len() as int]);
        }
    }
    lemma_obu_pieces_in(x);
    let pieces = feed::obu_pieces(front).0;
    let out = feed::cut_off(state, x, pieces);
    let want = temporal_units_carried(state, s).take(k - 1);
    assert forall|m: int| 0 <= m < k - 1 implies out[m] == #[trigger] want[m] by {
        assert(open_front[m] == open[m] && open_front[m + 1] == open[m + 1]);
        assert(open[m] < open[m + 1] < n);
        assert(front[open[m]] == list[open[m]]);
        assert(front[open[m + 1]] == list[open[m + 1]]);
        lemma_sequence_header_prefix(front, list, open[m], open[m + 1]);
        assert(pieces[m].start == found[m].start && pieces[m].end == found[m].end);
        assert(pieces[m].end <= x.len());
        assert(x.subrange(found[m].start, found[m].end) =~= s.subrange(
            found[m].start,
            found[m].end,
        ));
    }
    assert(out =~= want);
}

/// The payloads on carriers, one carrier after another.
pub open spec fn all_payloads(list: Seq<Carrier>) -> Seq<Seq<u8>>
    decreases list.len(),
{
    if list.len() == 0 {
        Seq::empty()
    } else {
        all_payloads(list.drop_last()) + list.last().payloads
    }
}

/// NAL units without a type carry nothing.
pub proof fn lemma_untyped_carry_nothing(nals: Seq<Seq<u8>>, codec: Codec, uuid: Seq<u8>)
    requires
        forall|i: int| 0 <= i < nals.len() ==> h26x::type_of(codec, #[trigger] nals[i]) is None,
    ensures
        sei::gathered(nals, codec, uuid) == Seq::<Seq<u8>>::empty(),
    decreases nals.len(),
{
    if nals.len() > 0 {
        lemma_untyped_carry_nothing(nals.drop_last(), codec, uuid);
        assert(h26x::type_of(codec, nals[nals.len() - 1]) is None);
        assert(sei::gathered(nals, codec, uuid) =~= Seq::empty());
    }
}

/// No NAL unit before the first that opens an access unit has a type.
proof fn lemma_untyped_before_first(codec: Codec, nals: Seq<Seq<u8>>, i: int)
    requires
        0 <= i < marks::next_of(h26x::openings(codec, nals), -1, nals.len() as int),
    ensures
        h26x::type_of(codec, nals[i]) is None,
    decreases i,
{
    let open = h26x::openings(codec, nals);
    let f = h26x::is_opening(codec, nals);
    marks::lemma_marks(f, nals.len() as int);
    assert forall|j: int| 0 <= j < i implies h26x::type_of(codec, #[trigger] nals[j]) is None by {
        lemma_untyped_before_first(codec, nals, j);
    }
    if h26x::type_of(codec, nals[i]) is Some {
        assert(f(i));
        assert(open.contains(i));
        let z = choose|z: int| 0 <= z < open.len() && open[z] == i;
        if z > 0 {
            assert(open[0] < open[z]);
        }
    }
}

/// Nothing is found between carriers: the payloads on the access units
/// of a stream, one after another, are the payloads in the stream.
pub proof fn access_units_hold_all_payloads(state: State, s: Seq<u8>, codec: Codec)
    requires
        state.kind == StreamKind::Nal(codec),
    ensures
        all_payloads(access_units_carried(state, s, codec)) == sei::gathered(
            annexb::split(s),
            codec,
            state.uuid,
        ),
{
    let nals = annexb::split(s);
    let open = h26x::openings(codec, nals);
    let all = access_units_carried(state, s, codec);
    lemma_payloads_up_to(state, s, codec, open.len() as int);
    assert(all.take(open.len() as int) =~= all);
    assert(nals.take(nals.len() as int) =~= nals);
}

proof fn lemma_payloads_up_to(state: State, s: Seq<u8>, codec: Codec, m: int)
    requires
        state.kind == StreamKind::Nal(codec),
        0 <= m <= h26x::units(s, codec).len(),
    ensures
        ({
            let nals = annexb::split(s);
            let open = h26x::openings(codec, nals);
            all_payloads(access_units_carried(state, s, codec).take(m)) == sei::gathered(
                nals.take(marks::next_of(open, m - 1, nals.len() as int)),
                codec,
                state.uuid,
            )
        }),
    decreases m,
{
    let nals = annexb::split(s);
    let n = nals.len() as int;
    let open = h26x::openings(codec, nals);
    let all = access_units_carried(state, s, codec);
    let stop = marks::next_of(open, m - 1, n);
    marks::lemma_marks(h26x::is_opening(codec, nals), n);
    if m == 0 {
        let front = nals.take(stop);
        assert forall|i: int| 0 <= i < front.len() implies h26x::type_of(
            codec,
            #[trigger] front[i],
        ) is None by {
            lemma_untyped_before_first(codec, nals, i);
        }
        lemma_untyped_carry_nothing(front, codec, state.uuid);
        assert(all.take(0) =~= Seq::empty());
    } else {
        let i = open[m - 1];
        lemma_payloads_up_to(state, s, codec, m - 1);
        growth::lemma_unit_split(s, codec, m - 1);
        assert(marks::next_of(open, m - 2, n) == i);
        assert(nals.take(stop) =~= nals.take(i) + nals.subrange(i, stop));
        sei_laws::lemma_gathered_add(nals.take(i), nals.subrange(i, stop), codec, state.uuid);
        assert(all.take(m).drop_last() =~= all.take(m - 1));
        assert(all.take(m).last() == all[m - 1]);
    }
}

/// Nothing is found between carriers: the payloads on the temporal units
/// of a stream, one after another, are the payloads in the stream.
pub proof fn temporal_units_hold_all_payloads(state: State, s: Seq<u8>)
    requires
        state.kind == StreamKind::Av1,
        s.len() <= usize::MAX,
        obu::units(s) is Ok,
    ensures
        all_payloads(temporal_units_carried(state, s)) == obu::opened_by(
            obu::metadata_found(s, state.metadata_type),
            state.uuid,
        ),
{
    let list = obu::obus(s)->Ok_0;
    let open = obu::openings(list);
    let all = temporal_units_carried(state, s);
    lemma_metadata_up_to(state, s, open.len() as int);
    assert(all.take(open.len() as int) =~= all);
    assert(list.take(list.len() as int) =~= list);
    if list.len() > 0 {
        obu::lemma_first_opening(list);
    }
}

proof fn lemma_metadata_up_to(state: State, s: Seq<u8>, m: int)
    requires
        state.kind == StreamKind::Av1,
        s.len() <= usize::MAX,
        obu::units(s) is Ok,
        0 <= m <= obu::units(s)->Ok_0.len(),
    ensures
        ({
            let list = obu::obus(s)->Ok_0;
            let open = obu::openings(list);
            let stop = if m == 0 {
                0
            } else {
                marks::next_of(open, m - 1, list.len() as int)
            };
            all_payloads(temporal_units_carried(state, s).take(m)) == obu::opened_by(
                obu::metadata_among(list.take(stop), state.metadata_type),
                state.uuid,
            )
        }),
    decreases m,
{
    let t = state.metadata_type;
    let list = obu::obus(s)->Ok_0;
    let n = list.len() as int;
    let open = obu::openings(list);
    let all = temporal_units_carried(state, s);
    if m == 0 {
        assert(all.take(0) =~= Seq::empty());
        assert(list.take(0) =~= Seq::empty());
    } else {
        let i = open[m - 1];
        let j = marks::next_of(open, m - 1, n);
        marks::lemma_marks(obu::is_opening(list), n);
        obu::lemma_first_opening(list);
        lemma_metadata_up_to(state, s, m - 1);
        assert(i == if m == 1 {
            0
        } else {
            marks::next_of(open, m - 2, n)
        });
        assert(0 <= i < j <= n);
        obu_laws::lemma_unit_obus(s, m - 1);
        let own = list.subrange(i, j);
        assert(list.take(j) =~= list.take(i) + own);
        obu_laws::lemma_metadata_add(list.take(i), own, t);
        obu_laws::lemma_metadata_shifted(own, -list[i].start, t);
        obu_laws::lemma_opened_add(
            obu::metadata_among(list.take(i), t),
            obu::metadata_among(own, t),
            state.uuid,
        );
        assert(all.take(m).drop_last() =~= all.take(m - 1));
        assert(all.take(m).last() == all[m - 1]);
    }
}

} // verus!
