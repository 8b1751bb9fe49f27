//! Cutting a growing stream into carriers as its bytes arrive.
//!
//! [`crate::h26x::access_units`] and [`crate::obu::temporal_units`]
//! want the whole stream in memory, which is what a file reader has. A
//! watcher does not: it is handed a pipe that never ends and never
//! seeks, and it has to say what it found on a carrier before the next
//! one is written.
//!
//! So this is the same two boundary rules fed a chunk at a time. Bytes
//! go in, and every carrier the bytes have finished comes out with the
//! payloads of the caller's own format already taken off it, so the
//! bytes themselves are dropped as soon as they are understood. What is
//! held is one unfinished carrier and no more: a carrier that grows
//! past the feed's limit without ending is given up on, its bytes are
//! dropped, and the feed resynchronises on the next start code or OBU.
//! That is the difference between a reader of a file, which may believe
//! its input, and a reader of a socket, which may not.
//!
//! A start code can be looked for. An OBU cannot, but one that is on its
//! way says how long it is: what is left of it is let go of as it comes,
//! and the next OBU is behind it. Only an OBU that carries no size, or
//! none that can be read, has no next one to find.
//!
//! There is no I/O here. The caller owns the pipe and pushes what it
//! read.

use vstd::prelude::*;
use vstd::slice::slice_subrange;
use crate::annexb;
use crate::bytes;
use crate::h26x;
use crate::h26x::{access_units, AccessUnit, Codec};
use crate::marks;
use crate::obu;
use crate::obu::{Obu, ObuRef};
use crate::sei;
use crate::sei::user_data_annexb;
use crate::Error;
use crate::Select;

verus! {

/// Which elementary stream a feed is cutting.
#[derive(Clone, Copy, Debug, PartialEq, Eq)]
pub enum StreamKind {
    /// H.264 or HEVC, Annex B start codes.
    Nal(Codec),
    /// AV1, low-overhead OBUs.
    Av1,
}

/// One carrier a feed has finished with: an access unit in H.264 and
/// HEVC, a temporal unit in AV1.
#[derive(Clone, Debug, PartialEq, Eq)]
pub struct Carried {
    /// Its place in decode order, from zero.
    pub index: u64,
    /// Whether a reader may start here: a random access point in H.264
    /// and HEVC, a temporal unit carrying a sequence header in AV1.
    pub keyframe: bool,
    /// The payloads of the feed's own [`Select`] that rode on it.
    pub payloads: Vec<Vec<u8>>,
}

/// A finished carrier, as numbers and byte strings.
pub struct Carrier {
    pub index: nat,
    pub keyframe: bool,
    pub payloads: Seq<Seq<u8>>,
}

impl View for Carried {
    type V = Carrier;

    open spec fn view(&self) -> Carrier {
        Carrier {
            index: self.index as nat,
            keyframe: self.keyframe,
            payloads: bytes::contents(self.payloads@),
        }
    }
}

/// What a list of carriers says.
pub open spec fn carried_views(list: Seq<Carried>) -> Seq<Carrier> {
    Seq::new(list.len(), |i: int| list[i]@)
}

/// What a push returned.
pub open spec fn carried_result(r: Result<Vec<Carried>, Error>) -> Result<Seq<Carrier>, Error> {
    match r {
        Ok(v) => Ok(carried_views(v@)),
        Err(e) => Err(e),
    }
}

/// How many bytes one carrier may take before a feed gives up on it.
///
/// A 4K keyframe is a megabyte or two, so this is room for one and then
/// some. What it really bounds is a stream that is not the codec it was
/// said to be, where no boundary ever turns up.
pub const DEFAULT_LIMIT: usize = 8388608;

/// A feed's state.
pub struct State {
    pub kind: StreamKind,
    pub uuid: Seq<u8>,
    pub metadata_type: nat,
    /// The carrier being read, from its first byte.
    pub held: Seq<u8>,
    /// How many carriers have come out.
    pub index: nat,
    /// How many bytes a carrier may take.
    pub limit: nat,
    /// How many carriers were given up on.
    pub dropped: nat,
    /// How many bytes, of those held and those to come, are what is left
    /// of a carrier that was given up on.
    pub owed: nat,
}

/// Where a finished carrier lies in the bytes held.
pub struct Piece {
    pub start: int,
    pub end: int,
    pub keyframe: bool,
}

/// What becomes of a growing stream at `at`: an OBU that is all there,
/// one that is not, or bytes that will never be one.
pub enum Step {
    Whole(Obu),
    Open,
    Broken(Error),
}

/// The step at `at`. An OBU without a size field never ends, and one
/// whose size does not parse is held as if it were still on its way.
pub open spec fn step(s: Seq<u8>, at: int) -> Step {
    match obu::obu_at(s, at) {
        Ok(obu) => if obu::has_size(s, at) {
            Step::Whole(obu)
        } else {
            Step::Open
        },
        Err(Error::TooLarge { at }) => Step::Broken(Error::TooLarge { at }),
        Err(e) => if s[at] & 0x80 != 0 {
            Step::Broken(e)
        } else {
            Step::Open
        },
    }
}

/// The OBUs of a growing stream that are all there, from `at` on.
pub open spec fn whole_from(s: Seq<u8>, at: int) -> Result<Seq<Obu>, Error>
    decreases s.len() - at,
{
    if at >= s.len() {
        Ok(Seq::empty())
    } else {
        match step(s, at) {
            Step::Whole(obu) => match whole_from(s, obu.end) {
                Ok(rest) => Ok(seq![obu] + rest),
                Err(e) => Err(e),
            },
            Step::Open => Ok(Seq::empty()),
            Step::Broken(e) => Err(e),
        }
    }
}

/// The finished temporal units of a list of OBUs, and where the open one
/// begins.
pub open spec fn obu_pieces(list: Seq<Obu>) -> (Seq<Piece>, int) {
    let open = obu::openings(list);
    if open.len() == 0 {
        (Seq::empty(), 0)
    } else {
        (
            Seq::new(
                (open.len() - 1) as nat,
                |k: int|
                    Piece {
                        start: list[open[k]].start,
                        end: list[open[k + 1]].start,
                        keyframe: obu::sequence_header_in(list, open[k], open[k + 1]),
                    },
            ),
            list[open.last()].start,
        )
    }
}

/// The finished access units of a stream, and where the open one begins.
///
/// The last access unit is still open: nothing has said where it ends
/// yet.
pub open spec fn nal_pieces(s: Seq<u8>, codec: Codec) -> (Seq<Piece>, int) {
    let found = h26x::units(s, codec);
    if found.len() == 0 {
        (Seq::empty(), 0)
    } else {
        (
            Seq::new(
                (found.len() - 1) as nat,
                |k: int|
                    Piece {
                        start: found[k].start,
                        end: found[k].end,
                        keyframe: found[k].keyframe,
                    },
            ),
            found.last().start,
        )
    }
}

/// The carriers that bytes have finished, and where the one still open
/// begins.
pub open spec fn pieces(kind: StreamKind, s: Seq<u8>) -> Result<(Seq<Piece>, int), Error> {
    match kind {
        StreamKind::Nal(codec) => Ok(nal_pieces(s, codec)),
        StreamKind::Av1 => match whole_from(s, 0) {
            Ok(list) => Ok(obu_pieces(list)),
            Err(e) => Err(e),
        },
    }
}

/// The payloads of one's own in the bytes of a carrier.
pub open spec fn payloads_in(
    kind: StreamKind,
    uuid: Seq<u8>,
    metadata_type: nat,
    s: Seq<u8>,
) -> Seq<Seq<u8>> {
    match kind {
        StreamKind::Nal(codec) => sei::gathered(annexb::split(s), codec, uuid),
        StreamKind::Av1 => obu::opened_by(obu::metadata_found(s, metadata_type), uuid),
    }
}

/// Whether a carrier that the end of its stream ends is a keyframe.
pub open spec fn last_is_keyframe(kind: StreamKind, s: Seq<u8>) -> bool {
    match kind {
        StreamKind::Nal(codec) => {
            let found = h26x::units(s, codec);
            found.len() > 0 && found[0].keyframe
        },
        StreamKind::Av1 => match obu::units(s) {
            Ok(found) => found.len() > 0 && found[0].has_sequence_header,
            Err(_) => false,
        },
    }
}

/// Carriers cut off `s`, numbered from where the feed is.
pub open spec fn cut_off(state: State, s: Seq<u8>, list: Seq<Piece>) -> Seq<Carrier> {
    Seq::new(
        list.len(),
        |k: int|
            Carrier {
                index: (state.index + k) as nat,
                keyframe: list[k].keyframe,
                payloads: payloads_in(
                    state.kind,
                    state.uuid,
                    state.metadata_type,
                    s.subrange(list[k].start, list[k].end),
                ),
            },
    )
}

/// How many bytes a push lets go of unread, since they are what is left
/// of a carrier that was given up on.
pub open spec fn let_go(state: State, chunk: Seq<u8>) -> nat {
    if state.owed < state.held.len() + chunk.len() {
        state.owed
    } else {
        state.held.len() + chunk.len()
    }
}

/// The bytes a push has to read: those held and those that come, less
/// what is left of a carrier that was given up on.
pub open spec fn in_hand(state: State, chunk: Seq<u8>) -> Seq<u8> {
    (state.held + chunk).skip(let_go(state, chunk) as int)
}

/// What a push answers: the carriers finished, or why the bytes are not
/// the codec they were said to be.
pub open spec fn push_answer(state: State, chunk: Seq<u8>) -> Result<Seq<Carrier>, Error> {
    let s = in_hand(state, chunk);
    match pieces(state.kind, s) {
        Ok((list, at)) => Ok(cut_off(state, s, list)),
        Err(e) => Err(e),
    }
}

/// Where the first OBU from `at` on that is not all there begins, or
/// where the bytes end.
pub open spec fn open_from(s: Seq<u8>, at: int) -> int
    decreases s.len() - at,
{
    if at >= s.len() {
        at
    } else {
        match step(s, at) {
            Step::Whole(obu) => open_from(s, obu.end),
            _ => at,
        }
    }
}

/// Where the next OBU begins that a feed can go on with once it has
/// given up on `rest`: behind the OBU that is on its way or, where its
/// size has not come yet, that OBU itself. There is none behind an OBU
/// that carries no size, or none that can be read.
pub open spec fn next_obu(rest: Seq<u8>) -> Option<int> {
    let at = open_from(rest, 0);
    let from = obu::header_end(rest, at);
    if at >= rest.len() {
        Some(rest.len() as int)
    } else if !obu::has_size(rest, at) {
        None
    } else if from > rest.len() {
        Some(at)
    } else {
        match obu::leb(rest.skip(from), 8) {
            obu::Leb::Value(size, n) => Some(from + n + size),
            obu::Leb::Short => Some(at),
            obu::Leb::Long => None,
        }
    }
}

/// Where a feed can go on once it has given up on `rest`. A start code
/// is found wherever it stands.
pub open spec fn goes_on_at(kind: StreamKind, rest: Seq<u8>) -> Option<int> {
    match kind {
        StreamKind::Nal(_) => None,
        StreamKind::Av1 => next_obu(rest),
    }
}

/// From where on a carrier that grew past the limit is kept: its last
/// three bytes, which is as much as a start code split across the cut
/// can be, or as many as the limit leaves room for; and more where the
/// feed goes on before them and the limit leaves room for that.
pub open spec fn kept_from(kind: StreamKind, rest: Seq<u8>, limit: nat) -> int {
    let last = rest.len() - if limit < 3 {
        limit
    } else {
        3
    };
    match goes_on_at(kind, rest) {
        Some(at) => if at < last && rest.len() - at <= limit {
            at
        } else {
            last
        },
        None => last,
    }
}

/// How many bytes from there on come before the place where the feed
/// goes on.
pub open spec fn owed_from(kind: StreamKind, rest: Seq<u8>, limit: nat) -> nat {
    let from = kept_from(kind, rest, limit);
    match goes_on_at(kind, rest) {
        Some(at) => if at >= from {
            (at - from) as nat
        } else {
            0
        },
        None => 0,
    }
}

/// What a push leaves: the carrier still open, or the end of one that
/// grew past the limit, or nothing of bytes that cannot parse.
pub open spec fn push_leaves(state: State, chunk: Seq<u8>) -> State {
    let s = in_hand(state, chunk);
    match pieces(state.kind, s) {
        Ok((list, at)) => {
            let rest = s.skip(at);
            if rest.len() > state.limit {
                State {
                    held: rest.skip(kept_from(state.kind, rest, state.limit)),
                    index: state.index + list.len(),
                    dropped: state.dropped + 1,
                    owed: owed_from(state.kind, rest, state.limit),
                    ..state
                }
            } else {
                State {
                    held: rest,
                    index: state.index + list.len(),
                    owed: (state.owed - let_go(state, chunk)) as nat,
                    ..state
                }
            }
        },
        Err(e) => State { held: Seq::empty(), dropped: state.dropped + 1, owed: 0, ..state },
    }
}

/// What the end of the stream answers: the carrier still in hand, if
/// there is one.
pub open spec fn finish_answer(state: State) -> Seq<Carrier> {
    if state.held.len() == 0 {
        Seq::empty()
    } else {
        seq![
            Carrier {
                index: state.index,
                keyframe: last_is_keyframe(state.kind, state.held),
                payloads: payloads_in(state.kind, state.uuid, state.metadata_type, state.held),
            },
        ]
    }
}

/// What the end of the stream leaves.
pub open spec fn finish_leaves(state: State) -> State {
    State { held: Seq::empty(), index: state.index + finish_answer(state).len(), owed: 0, ..state }
}

/// A feed that has been given nothing yet.
pub open spec fn fresh(kind: StreamKind, select: Select, limit: nat) -> State {
    State {
        kind,
        uuid: select.uuid@,
        metadata_type: select.metadata_type as nat,
        held: Seq::empty(),
        index: 0,
        limit,
        dropped: 0,
        owed: 0,
    }
}

/// Whether a feed holds nothing and owes nothing, as a fresh one does.
pub open spec fn idle(state: State) -> bool {
    state.held.len() == 0 && state.owed == 0
}

/// A state a feed can be in: no carrier it holds is past its limit.
pub open spec fn valid(state: State) -> bool {
    state.held.len() <= state.limit
}

/// Bytes in, carriers out.
#[derive(Clone, Debug)]
pub struct Feed {
    kind: StreamKind,
    select: Select,
    held: Vec<u8>,
    index: u64,
    limit: usize,
    dropped: usize,
    /// Wide enough for the end of any OBU.
    owed: u128,
}

impl View for Feed {
    type V = State;

    closed spec fn view(&self) -> State {
        State {
            kind: self.kind,
            uuid: self.select.uuid@,
            metadata_type: self.select.metadata_type as nat,
            held: self.held@,
            index: self.index as nat,
            limit: self.limit as nat,
            dropped: self.dropped as nat,
            owed: self.owed as nat,
        }
    }
}

impl Feed {
    /// A feed for one kind of stream, with [`DEFAULT_LIMIT`].
    pub fn new(kind: StreamKind, select: Select) -> (feed: Self)
        ensures
            feed@ == fresh(kind, select, DEFAULT_LIMIT as nat),
            valid(feed@),
    {
        Self::with_limit(kind, select, DEFAULT_LIMIT)
    }

    /// A feed that gives up on a carrier past `limit` bytes.
    pub fn with_limit(kind: StreamKind, select: Select, limit: usize) -> (feed: Self)
        ensures
            feed@ == fresh(kind, select, limit as nat),
            valid(feed@),
    {
        let held: Vec<u8> = Vec::new();
        assert(held@ =~= Seq::empty());
        Feed { kind, select, held, index: 0, limit, dropped: 0, owed: 0 }
    }

    /// How many carriers have come out so far, which is what gives the
    /// next one its presentation time when a frame rate is all a caller
    /// has.
    pub fn count(&self) -> (n: u64)
        ensures
            n == self@.index,
    {
        self.index
    }

    /// How many bytes are being held for the carrier in hand.
    pub fn footprint(&self) -> (n: usize)
        ensures
            n == self@.held.len(),
    {
        self.held.len()
    }

    /// How many carriers were given up on, for growing past the limit or
    /// for not being the codec they were said to be.
    pub fn dropped(&self) -> (n: usize)
        ensures
            n == self@.dropped,
    {
        self.dropped
    }

    /// The carriers `chunk` finished.
    ///
    /// The last carrier of a stream is not one of them: nothing after
    /// it says where it ends, so it comes out of [`Feed::finish`] when
    /// the caller knows the stream is over.
    pub fn push(&mut self, chunk: &[u8]) -> (out: Result<Vec<Carried>, Error>)
        requires
            old(self)@.held.len() + chunk@.len() <= usize::MAX,
            old(self)@.index + old(self)@.held.len() + chunk@.len() <= u64::MAX,
            old(self)@.dropped < usize::MAX,
        ensures
            carried_result(out) == push_answer(old(self)@, chunk@),
            final(self)@ == push_leaves(old(self)@, chunk@),
            valid(final(self)@),
    {
        let ghost before = self@;
        bytes::append(&mut self.held, chunk);
        if self.owed > 0 {
            // What is left of a carrier that was given up on.
            let gone: usize = if self.owed < self.held.len() as u128 {
                self.owed as usize
            } else {
                self.held.len()
            };
            self.held = bytes::copy_range(self.held.as_slice(), gone, self.held.len());
            self.owed = self.owed - gone as u128;
        }
        assert(self.held@ =~= in_hand(before, chunk@));
        let found: Result<Vec<Carried>, Error> = self.cut();
        if found.is_err() {
            // The bytes are not the codec they were said to be. What is
            // held cannot parse now and will not parse when more
            // arrives, so it goes: the caller hears the error, and the
            // next chunk starts again rather than piling up behind a
            // byte that will never be read.
            self.held = Vec::new();
            self.owed = 0;
            self.dropped = self.dropped + 1;
            assert(self.held@ =~= Seq::empty());
        }
        if self.held.len() > self.limit {
            self.give_up();
        }
        found
    }

    /// Gives up on the carrier in hand, which has no boundary in a
    /// carrier's worth of bytes.
    ///
    /// Keeps the last three bytes, which is as much as a start code split
    /// across the cut can be, or as many as the limit leaves room for,
    /// and lets the next start code resynchronise. In AV1 the bytes up to
    /// the next OBU are owed, and an OBU whose size has not come yet is
    /// kept from its first byte.
    fn give_up(&mut self)
        requires
            old(self)@.held.len() > old(self)@.limit,
            old(self)@.dropped < usize::MAX,
        ensures
            final(self)@ == (State {
                held: old(self)@.held.skip(
                    kept_from(old(self)@.kind, old(self)@.held, old(self)@.limit),
                ),
                dropped: old(self)@.dropped + 1,
                owed: owed_from(old(self)@.kind, old(self)@.held, old(self)@.limit),
                ..old(self)@
            }),
    {
        let ghost rest = self.held@;
        let keep: usize = if self.limit < 3 {
            self.limit
        } else {
            3
        };
        let last: usize = self.held.len() - keep;
        let next: Option<u128> = match self.kind {
            StreamKind::Nal(_) => None,
            StreamKind::Av1 => find_next_obu(self.held.as_slice()),
        };
        let mut from: usize = last;
        let mut owed: u128 = 0;
        if let Some(at) = next {
            if at >= last as u128 {
                owed = at - last as u128;
            } else if self.held.len() - at as usize <= self.limit {
                from = at as usize;
            }
        }
        self.held = bytes::copy_range(self.held.as_slice(), from, self.held.len());
        self.owed = owed;
        self.dropped = self.dropped + 1;
        assert(self.held@ =~= rest.skip(from as int));
    }

    /// Every carrier the held bytes have finished, taken off them.
    ///
    /// What is left opens a carrier that nothing has ended yet, so one
    /// pass over the bytes finds them all.
    fn cut(&mut self) -> (out: Result<Vec<Carried>, Error>)
        requires
            old(self)@.index + old(self)@.held.len() <= u64::MAX,
        ensures
            match pieces(old(self)@.kind, old(self)@.held) {
                Ok((list, at)) => {
                    &&& carried_result(out) == Ok::<Seq<Carrier>, Error>(
                        cut_off(old(self)@, old(self)@.held, list),
                    )
                    &&& final(self)@ == (State {
                        held: old(self)@.held.skip(at),
                        index: old(self)@.index + list.len(),
                        ..old(self)@
                    })
                },
                Err(e) => carried_result(out) == Err::<Seq<Carrier>, Error>(e) && final(self)@
                    == old(self)@,
            },
    {
        let ghost before = self@;
        let ghost s = self.held@;
        let (complete, pending_at): (Vec<(usize, usize, bool)>, usize) = match self.boundaries() {
            Ok(found) => found,
            Err(e) => {
                return Err(e);
            },
        };
        let ghost list = cuts(complete@);
        let mut out: Vec<Carried> = Vec::new();
        let mut k: usize = 0;
        while k < complete.len()
            invariant
                k <= complete@.len(),
                complete@.len() <= s.len(),
                list == cuts(complete@),
                before.index + s.len() <= u64::MAX,
                s == before.held,
                self@ == (State { index: (before.index + k) as nat, ..before }),
                forall|m: int|
                    #![trigger complete@[m]]
                    0 <= m < complete@.len() ==> complete@[m].0 < complete@[m].1 <= s.len(),
                out@.len() == k,
                forall|m: int|
                    0 <= m < k ==> #[trigger] out@[m]@ == cut_off(before, s, list)[m],
            decreases complete.len() - k,
        {
            let (start, end, keyframe): (usize, usize, bool) = complete[k];
            assert(list[k as int] == (Piece { start: start as int, end: end as int, keyframe }));
            let one: Carried = self.carried(start, end, keyframe);
            out.push(one);
            k += 1;
        }
        assert(carried_views(out@) =~= cut_off(before, s, list));
        self.held = bytes::copy_range(self.held.as_slice(), pending_at, self.held.len());
        assert(self.held@ =~= s.skip(pending_at as int));
        Ok(out)
    }

    /// The carrier still in hand, now that the stream has ended.
    pub fn finish(&mut self) -> (out: Result<Vec<Carried>, Error>)
        requires
            old(self)@.held.len() > 0 ==> old(self)@.index < u64::MAX,
        ensures
            carried_result(out) == Ok::<Seq<Carrier>, Error>(finish_answer(old(self)@)),
            final(self)@ == finish_leaves(old(self)@),
            valid(final(self)@),
    {
        let ghost before = self@;
        let mut out: Vec<Carried> = Vec::new();
        self.owed = 0;
        if self.held.len() == 0 {
            assert(carried_views(out@) =~= Seq::empty());
            assert(self.held@ =~= Seq::empty());
            return Ok(out);
        }
        let keyframe: bool = match self.kind {
            StreamKind::Nal(codec) => {
                let units: Vec<AccessUnit> = access_units(self.held.as_slice(), codec);
                assert(h26x::unit_places(units@).len() == units@.len());
                if units.len() > 0 {
                    assert(h26x::unit_places(units@)[0] == units@[0]@);
                    units[0].keyframe
                } else {
                    false
                }
            },
            StreamKind::Av1 => match obu::temporal_units(self.held.as_slice()) {
                Ok(units) => {
                    assert(obu::tu_places(units@).len() == units@.len());
                    if units.len() > 0 {
                        assert(obu::tu_places(units@)[0] == units@[0]@);
                        units[0].has_sequence_header
                    } else {
                        false
                    }
                },
                Err(_) => false,
            },
        };
        let end: usize = self.held.len();
        let last: Carried = self.carried(0, end, keyframe);
        assert(before.held.subrange(0, end as int) =~= before.held);
        self.held = Vec::new();
        assert(self.held@ =~= Seq::empty());
        out.push(last);
        assert(carried_views(out@) =~= finish_answer(before));
        Ok(out)
    }

    /// One finished carrier: its payloads taken off it and its bytes
    /// left behind.
    fn carried(&mut self, start: usize, end: usize, keyframe: bool) -> (one: Carried)
        requires
            start <= end <= old(self)@.held.len(),
            old(self)@.index < u64::MAX,
        ensures
            one@ == (Carrier {
                index: old(self)@.index,
                keyframe,
                payloads: payloads_in(
                    old(self)@.kind,
                    old(self)@.uuid,
                    old(self)@.metadata_type,
                    old(self)@.held.subrange(start as int, end as int),
                ),
            }),
            final(self)@ == (State { index: old(self)@.index + 1, ..old(self)@ }),
    {
        let bytes: &[u8] = slice_subrange(self.held.as_slice(), start, end);
        let payloads: Vec<Vec<u8>> = match self.kind {
            StreamKind::Nal(codec) => user_data_annexb(bytes, codec, &self.select.uuid),
            StreamKind::Av1 => obu::user_data(
                bytes,
                self.select.metadata_type,
                &self.select.uuid,
            ),
        };
        let index: u64 = self.index;
        self.index = self.index + 1;
        Carried { index, keyframe, payloads }
    }

    /// The carriers the held bytes have finished, and where the one
    /// still open begins.
    ///
    /// Each carrier is `(start, end, keyframe)` inside `held`.
    fn boundaries(&self) -> (out: Result<(Vec<(usize, usize, bool)>, usize), Error>)
        ensures
            cuts_result(out) == pieces(self@.kind, self@.held),
            out matches Ok((complete, at)) ==> cuts_in_range(complete@, at, self@.held.len()),
    {
        match self.kind {
            StreamKind::Nal(codec) => Ok(nal_boundaries(self.held.as_slice(), codec)),
            StreamKind::Av1 => av1_boundaries(self.held.as_slice()),
        }
    }
}

/// Cuts as places.
spec fn cuts(list: Seq<(usize, usize, bool)>) -> Seq<Piece> {
    Seq::new(
        list.len(),
        |i: int|
            Piece { start: list[i].0 as int, end: list[i].1 as int, keyframe: list[i].2 },
    )
}

/// What a look for boundaries returned.
spec fn cuts_result(r: Result<(Vec<(usize, usize, bool)>, usize), Error>) -> Result<
    (Seq<Piece>, int),
    Error,
> {
    match r {
        Ok((list, at)) => Ok((cuts(list@), at as int)),
        Err(e) => Err(e),
    }
}

/// Every cut lies in the bytes and takes at least one.
spec fn cuts_in_range(list: Seq<(usize, usize, bool)>, at: usize, len: nat) -> bool {
    &&& at <= len
    &&& list.len() <= len
    &&& forall|m: int|
        #![trigger list[m]]
        0 <= m < list.len() ==> list[m].0 < list[m].1 <= len
}

/// The finished access units of a prefix of a stream, and where the open
/// one begins.
fn nal_boundaries(bytes: &[u8], codec: Codec) -> (out: (Vec<(usize, usize, bool)>, usize))
    ensures
        cuts(out.0@) == nal_pieces(bytes@, codec).0,
        out.1 == nal_pieces(bytes@, codec).1,
        cuts_in_range(out.0@, out.1, bytes@.len()),
{
    let units: Vec<AccessUnit> = access_units(bytes, codec);
    let ghost found = h26x::units(bytes@, codec);
    let mut complete: Vec<(usize, usize, bool)> = Vec::new();
    assert(found.len() == units@.len());
    if units.len() == 0 {
        assert(cuts(complete@) =~= Seq::empty());
        return (complete, 0);
    }
    let last: usize = units.len() - 1;
    let mut k: usize = 0;
    while k < last
        invariant
            k <= last < units@.len(),
            h26x::unit_places(units@) == found,
            h26x::units_tiled(found, bytes@.len() as int),
            found.len() == units@.len(),
            complete@.len() == k,
            forall|m: int|
                #![trigger complete@[m]]
                0 <= m < k ==> complete@[m] == (
                    units@[m].start,
                    units@[m].end,
                    units@[m].keyframe,
                ),
            k <= found[k as int].start,
        decreases last - k,
    {
        let unit: AccessUnit = units[k];
        assert(found[k as int] == unit@);
        assert(found[k as int].end == found[k + 1].start);
        complete.push((unit.start, unit.end, unit.keyframe));
        k += 1;
    }
    proof {
        let want = nal_pieces(bytes@, codec).0;
        assert(found.last() == units@[last as int]@);
        assert forall|m: int| 0 <= m < last implies #[trigger] cuts(complete@)[m] == want[m] by {
            assert(found[m] == units@[m]@);
            assert(complete@[m].0 == units@[m].start);
        }
        assert(cuts(complete@) =~= want);
        assert(found[last as int].start < found[last as int].end);
        assert forall|m: int| #![trigger complete@[m]] 0 <= m < complete@.len() implies
            complete@[m].0 < complete@[m].1 <= bytes@.len() by {
            assert(found[m] == units@[m]@);
        }
    }
    (complete, units[last].start)
}

/// The complete temporal units of a prefix of an AV1 stream, and where
/// the open one begins.
///
/// An OBU that carries no size field runs to the end of the stream, so a
/// feed cannot tell where it ends and holds it: a writer of a growing
/// stream has to write sizes, and the low-overhead format every muxer
/// writes does.
fn av1_boundaries(bytes: &[u8]) -> (out: Result<(Vec<(usize, usize, bool)>, usize), Error>)
    ensures
        cuts_result(out) == pieces(StreamKind::Av1, bytes@),
        out matches Ok((complete, at)) ==> cuts_in_range(complete@, at, bytes@.len()),
{
    let obus: Vec<ObuRef<'_>> = match whole_obus(bytes) {
        Ok(obus) => obus,
        Err(e) => {
            return Err(e);
        },
    };
    let ghost list = obu::obu_places(obus@);
    let found: Vec<usize> = obu::find_openings(&obus);
    let ghost open = obu::openings(list);
    let mut complete: Vec<(usize, usize, bool)> = Vec::new();
    proof {
        marks::lemma_marks(obu::is_opening(list), list.len() as int);
        lemma_whole(bytes@, 0);
        assert(open.len() == found@.len());
        assert forall|m: int| 0 <= m < found@.len() implies #[trigger] found@[m] == open[m] by {
            assert(marks::as_ints(found@)[m] == found@[m]);
        }
    }
    if found.len() == 0 {
        assert(cuts(complete@) =~= Seq::empty());
        return Ok((complete, 0));
    }
    let last: usize = found.len() - 1;
    let mut k: usize = 0;
    assert(obus@.len() <= bytes@.len());
    while k < last
        invariant
            k <= last < found@.len(),
            list == obu::obu_places(obus@),
            open.len() == found@.len(),
            forall|m: int| 0 <= m < found@.len() ==> #[trigger] found@[m] == open[m],
            forall|m: int| 0 <= m < open.len() ==> 0 <= #[trigger] open[m] < list.len(),
            forall|a: int, b: int| 0 <= a < b < open.len() ==> open[a] < open[b],
            complete@.len() == k,
            forall|m: int|
                0 <= m < k ==> #[trigger] cuts(complete@)[m] == (Piece {
                    start: list[open[m]].start,
                    end: list[open[m + 1]].start,
                    keyframe: obu::sequence_header_in(list, open[m], open[m + 1]),
                }),
        decreases last - k,
    {
        let i: usize = found[k];
        let j: usize = found[k + 1];
        assert(i == open[k as int] && j == open[k + 1]);
        assert(open[k as int] < open[k + 1]);
        assert(list[i as int] == obus@[i as int]@);
        assert(list[j as int] == obus@[j as int]@);
        let ghost before = complete@;
        complete.push((obus[i].start, obus[j].start, obu::find_sequence_header(&obus, i, j)));
        assert forall|m: int| 0 <= m < k + 1 implies #[trigger] cuts(complete@)[m] == (Piece {
            start: list[open[m]].start,
            end: list[open[m + 1]].start,
            keyframe: obu::sequence_header_in(list, open[m], open[m + 1]),
        }) by {
            if m < k {
                assert(cuts(complete@)[m] == cuts(before)[m]);
            }
        }
        k += 1;
    }
    let at: usize = obus[found[last]].start;
    proof {
        assert(list[open[last as int]] == obus@[open[last as int]]@);
        assert(cuts(complete@) =~= obu_pieces(list).0);
        assert forall|m: int| #![trigger complete@[m]] 0 <= m < complete@.len() implies
            complete@[m].0 < complete@[m].1 <= bytes@.len() by {
            assert(cuts(complete@)[m].start == complete@[m].0);
            assert(open[m] < open[m + 1]);
            obu::lemma_starts_in_order(list, 0, list.last().end, open[m], open[m + 1]);
        }
    }
    Ok((complete, at))
}

/// The OBUs of a growing stream that are all there.
fn whole_obus(bytes: &[u8]) -> (out: Result<Vec<ObuRef<'_>>, Error>)
    ensures
        obu::obus_result(out) == whole_from(bytes@, 0),
{
    let mut out: Vec<ObuRef<'_>> = Vec::new();
    let mut at: usize = 0;
    let ghost all = whole_from(bytes@, 0);
    proof {
        if let Ok(list) = all {
            assert(obu::obu_places(out@) + list =~= list);
        }
    }
    while at < bytes.len()
        invariant_except_break
            at <= bytes@.len(),
            all == whole_from(bytes@, 0),
            all == (match whole_from(bytes@, at as int) {
                Ok(rest) => Ok::<Seq<Obu>, Error>(obu::obu_places(out@) + rest),
                Err(e) => Err(e),
            }),
        ensures
            all == Ok::<Seq<Obu>, Error>(obu::obu_places(out@)),
        decreases bytes.len() - at,
    {
        proof {
            obu::lemma_obu_at(bytes@, at as int);
            assert(obu::obu_places(out@) + Seq::empty() =~= obu::obu_places(out@));
        }
        let obu: ObuRef<'_> = match obu::read_obu(bytes, at) {
            Ok(obu) => obu,
            Err(Error::TooLarge { at }) => {
                return Err(Error::TooLarge { at });
            },
            Err(e) => {
                if bytes[at] & 0x80 != 0 {
                    return Err(e);
                }
                break;
            },
        };
        if bytes[at] & 0x02 == 0 {
            break;
        }
        let ghost before = out@;
        out.push(obu);
        at = obu.end;
        proof {
            if let Ok(rest) = whole_from(bytes@, at as int) {
                assert(obu::obu_places(before) + (seq![obu@] + rest) =~= obu::obu_places(out@)
                    + rest);
            }
            if at == bytes@.len() {
                assert(obu::obu_places(out@) + Seq::empty() =~= obu::obu_places(out@));
            }
        }
    }
    Ok(out)
}

/// Where the first OBU that is not all there begins, or how many bytes
/// there are.
fn find_open(bytes: &[u8]) -> (at: usize)
    ensures
        at == open_from(bytes@, 0),
        at <= bytes@.len(),
{
    let mut at: usize = 0;
    while at < bytes.len()
        invariant
            at <= bytes@.len(),
            open_from(bytes@, 0) == open_from(bytes@, at as int),
        decreases bytes.len() - at,
    {
        proof {
            obu::lemma_obu_at(bytes@, at as int);
        }
        match obu::read_obu(bytes, at) {
            Ok(obu) => {
                if bytes[at] & 0x02 == 0 {
                    return at;
                }
                at = obu.end;
            },
            Err(_) => {
                return at;
            },
        }
    }
    at
}

/// Where the next OBU begins that a feed can go on with.
fn find_next_obu(bytes: &[u8]) -> (next: Option<u128>)
    ensures
        match next {
            Some(at) => next_obu(bytes@) == Some(at as int),
            None => next_obu(bytes@) is None,
        },
        next matches Some(at) ==> at < 0x1_0000_0000_0000_0000_0000,
{
    let at: usize = find_open(bytes);
    if at >= bytes.len() {
        return Some(at as u128);
    }
    if bytes[at] & 0x02 == 0 {
        return None;
    }
    let mut from: usize = at + 1;
    if bytes[at] & 0x04 != 0 {
        if from >= bytes.len() {
            return Some(at as u128);
        }
        from += 1;
    }
    match obu::leb128(bytes, from) {
        Ok((size, next)) => Some(next as u128 + size as u128),
        Err(Error::Truncated { at: _ }) => Some(at as u128),
        Err(_) => None,
    }
}

/// The OBUs that are all there lie one behind the other.
pub proof fn lemma_whole(s: Seq<u8>, at: int)
    requires
        0 <= at <= s.len(),
    ensures
        whole_from(s, at) matches Ok(list) ==> {
            &&& list.len() <= s.len() - at
            &&& list.len() > 0 ==> obu::tiled(list, at, list.last().end) && list.last().end
                <= s.len()
            &&& forall|k: int|
                0 <= k < list.len() ==> step(s, (#[trigger] list[k]).start) == Step::Whole(list[k])
        },
    decreases s.len() - at,
{
    if at < s.len() && whole_from(s, at) is Ok {
        obu::lemma_obu_at(s, at);
        if let Step::Whole(obu) = step(s, at) {
            let rest = whole_from(s, obu.end)->Ok_0;
            let list = whole_from(s, at)->Ok_0;
            lemma_whole(s, obu.end);
            assert(list =~= seq![obu] + rest);
            if rest.len() > 0 {
                assert(list.last() == rest.last());
            }
            obu::lemma_tiled_front(obu, rest, list.last().end);
            assert forall|k: int| 0 <= k < list.len() implies step(s, (#[trigger] list[k]).start)
                == Step::Whole(list[k]) by {
                if k > 0 {
                    assert(list[k] == rest[k - 1]);
                }
            }
        }
    }
}

} // verus!
