//! Emulation prevention, ISO/IEC 14496-10 section 7.4.1.1: the
//! `emulation_prevention_three_byte` that keeps a NAL's payload from
//! growing a start code in the middle of itself.
//!
//! A NAL's bytes on the wire are the `rbsp` with a `03` pushed in
//! wherever two zeroes are followed by a byte of 0 to 3. Reading undoes
//! it; writing does it. A payload that holds no such sequence comes back
//! from [`insert_emulation_prevention`] unchanged, so there is no second,
//! unescaped spelling of a write.

use vstd::prelude::*;

verus! {

/// Whether the byte at `i` is an escape: a `03` behind two zeroes.
pub open spec fn is_escape(s: Seq<u8>, i: int) -> bool {
    2 <= i < s.len() && s[i - 2] == 0 && s[i - 1] == 0 && s[i] == 3
}

/// The bytes of `s` that are not escapes, in order.
pub open spec fn unescape(s: Seq<u8>) -> Seq<u8>
    decreases s.len(),
{
    if s.len() == 0 {
        Seq::empty()
    } else if is_escape(s, s.len() - 1) {
        unescape(s.drop_last())
    } else {
        unescape(s.drop_last()).push(s.last())
    }
}

/// Whether `s` ends in two zero bytes.
pub open spec fn ends_in_two_zeroes(s: Seq<u8>) -> bool {
    s.len() >= 2 && s[s.len() - 2] == 0 && s[s.len() - 1] == 0
}

/// `s` with a `03` before every byte of 0 to 3 that would otherwise
/// follow two zeroes.
pub open spec fn escape(s: Seq<u8>) -> Seq<u8>
    decreases s.len(),
{
    if s.len() == 0 {
        Seq::empty()
    } else {
        let before = escape(s.drop_last());
        if ends_in_two_zeroes(before) && s.last() <= 3 {
            before.push(3).push(s.last())
        } else {
            before.push(s.last())
        }
    }
}

/// Whether two zeroes and then a byte of at most `most` stand at `i`.
pub open spec fn zeroes_then(s: Seq<u8>, i: int, most: u8) -> bool {
    0 <= i && i + 2 < s.len() && s[i] == 0 && s[i + 1] == 0 && s[i + 2] <= most
}

/// Whether `s` holds no byte of 0 to 3 behind two zeroes, so that it
/// needs no escape.
pub open spec fn escape_free(s: Seq<u8>) -> bool {
    forall|i: int| !zeroes_then(s, i, 3)
}

/// Removes emulation prevention bytes: `00 00 03` becomes `00 00`.
pub fn remove_emulation_prevention(bytes: &[u8]) -> (out: Vec<u8>)
    ensures
        out@ == unescape(bytes@),
{
    let mut out: Vec<u8> = Vec::with_capacity(bytes.len());
    let mut at: usize = 0;
    assert(bytes@.take(0) =~= Seq::empty());
    while at < bytes.len()
        invariant
            at <= bytes.len(),
            out@ == unescape(bytes@.take(at as int)),
        decreases bytes.len() - at,
    {
        assert(bytes@.take(at + 1).drop_last() =~= bytes@.take(at as int));
        let escaped = at >= 2 && bytes[at] == 3 && bytes[at - 1] == 0 && bytes[at - 2] == 0;
        assert(escaped == is_escape(bytes@.take(at + 1), at as int));
        if !escaped {
            out.push(bytes[at]);
        }
        at += 1;
    }
    assert(bytes@.take(at as int) =~= bytes@);
    out
}

/// Inserts emulation prevention bytes, so no `00 00 00`, `00 00 01`,
/// `00 00 02` or `00 00 03` of the payload's own survives into the byte
/// stream.
///
/// This is what keeps a payload full of zeroes from growing a start
/// code in the middle of an SEI and cutting the stream in half. A
/// payload with no such sequence in it is returned byte for byte.
pub fn insert_emulation_prevention(rbsp: &[u8]) -> (out: Vec<u8>)
    ensures
        out@ == escape(rbsp@),
{
    let mut out: Vec<u8> = Vec::with_capacity(rbsp.len());
    let mut at: usize = 0;
    assert(rbsp@.take(0) =~= Seq::empty());
    while at < rbsp.len()
        invariant
            at <= rbsp.len(),
            out@ == escape(rbsp@.take(at as int)),
        decreases rbsp.len() - at,
    {
        assert(rbsp@.take(at + 1).drop_last() =~= rbsp@.take(at as int));
        let count: usize = out.len();
        if count >= 2 && out[count - 2] == 0 && out[count - 1] == 0 && rbsp[at] <= 3 {
            out.push(3);
        }
        out.push(rbsp[at]);
        at += 1;
    }
    assert(rbsp@.take(at as int) =~= rbsp@);
    out
}

/// What one more byte adds to the unescaped bytes.
proof fn lemma_unescape_push(s: Seq<u8>, b: u8)
    ensures
        unescape(s.push(b)) == if is_escape(s.push(b), s.len() as int) {
            unescape(s)
        } else {
            unescape(s).push(b)
        },
{
    assert(s.push(b).drop_last() =~= s);
}

/// Reading undoes writing: every payload comes back from its escaped
/// form byte for byte.
pub proof fn unescape_undoes_escape(s: Seq<u8>)
    ensures
        unescape(escape(s)) == s,
    decreases s.len(),
{
    if s.len() > 0 {
        let before = escape(s.drop_last());
        let b = s.last();
        unescape_undoes_escape(s.drop_last());
        if ends_in_two_zeroes(before) && b <= 3 {
            lemma_unescape_push(before, 3);
            lemma_unescape_push(before.push(3), b);
        } else {
            lemma_unescape_push(before, b);
        }
        assert(s.drop_last().push(b) =~= s);
    }
}

/// An escaped payload holds no `00 00 00`, `00 00 01` or `00 00 02`, and
/// every `00 00 03` in it is an escape: a byte of 0 to 3 follows.
pub proof fn escaped_bytes_hold_no_start_code(s: Seq<u8>)
    ensures
        forall|i: int| !zeroes_then(escape(s), i, 2),
        forall|i: int| #[trigger]
            is_escape(escape(s), i) ==> i + 1 < escape(s).len() && escape(s)[i + 1] <= 3,
    decreases s.len(),
{
    if s.len() > 0 {
        let before = escape(s.drop_last());
        let all = escape(s);
        escaped_bytes_hold_no_start_code(s.drop_last());
        assert forall|i: int| !zeroes_then(all, i, 2) by {
            if zeroes_then(all, i, 2) {
                assert(!zeroes_then(before, i, 2));
            }
        }
        assert forall|i: int| #[trigger] is_escape(all, i) implies i + 1 < all.len() && all[i + 1]
            <= 3 by {
            if i < before.len() {
                assert(is_escape(before, i));
            }
        }
    }
}

/// A payload that needs no escape is written as it is, and one that is
/// written as it is needed none.
pub proof fn escape_changes_only_what_needs_it(s: Seq<u8>)
    ensures
        escape(s) == s <==> escape_free(s),
        escape(s).len() >= s.len(),
        escape(s).len() == s.len() ==> escape(s) == s,
    decreases s.len(),
{
    if s.len() > 0 {
        let front = s.drop_last();
        let before = escape(front);
        escape_changes_only_what_needs_it(front);
        assert(front.push(s.last()) =~= s);
        if escape_free(s) {
            assert forall|i: int| !zeroes_then(front, i, 3) by {
                assert(!zeroes_then(s, i, 3));
            }
            assert(!zeroes_then(s, s.len() - 3, 3));
        }
        if escape(s) == s {
            assert(before =~= front);
            assert forall|i: int| !zeroes_then(s, i, 3) by {
                assert(!zeroes_then(front, i, 3));
            }
        }
    } else {
        assert(escape(s) =~= s);
    }
}

} // verus!
