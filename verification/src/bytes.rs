//! Byte strings: runs of zeroes, big-endian numbers, and the few slice
//! operations the rest of the crate is built from.

use vstd::prelude::*;
use vstd::slice::slice_subrange;

verus! {

/// Where the run of zero bytes that ends at `p` begins: `p` itself when
/// the byte before it is not zero.
pub open spec fn zero_run(s: Seq<u8>, p: int) -> int
    decreases p,
{
    if 0 < p <= s.len() && s[p - 1] == 0 {
        zero_run(s, p - 1)
    } else {
        p
    }
}

/// A run of zeroes is all zeroes, and the byte before it is not one.
pub proof fn lemma_zero_run(s: Seq<u8>, p: int)
    requires
        0 <= p <= s.len(),
    ensures
        0 <= zero_run(s, p) <= p,
        forall|i: int| zero_run(s, p) <= i < p ==> s[i] == 0,
        zero_run(s, p) > 0 ==> s[zero_run(s, p) - 1] != 0,
    decreases p,
{
    if p > 0 && s[p - 1] == 0 {
        lemma_zero_run(s, p - 1);
    }
}

/// The only place a run of zeroes ending at `p` can begin.
pub proof fn lemma_zero_run_is(s: Seq<u8>, p: int, r: int)
    requires
        0 <= r <= p <= s.len(),
        forall|i: int| r <= i < p ==> s[i] == 0,
        r > 0 ==> s[r - 1] != 0,
    ensures
        zero_run(s, p) == r,
    decreases p,
{
    if r < p {
        lemma_zero_run_is(s, p - 1, r);
    }
}

/// Where the run of zero bytes that ends at `p` begins.
pub(crate) fn find_zero_run(bytes: &[u8], p: usize) -> (r: usize)
    requires
        p <= bytes.len(),
    ensures
        r == zero_run(bytes@, p as int),
        r <= p,
{
    let mut r: usize = p;
    while r > 0 && bytes[r - 1] == 0
        invariant
            r <= p <= bytes.len(),
            zero_run(bytes@, p as int) == zero_run(bytes@, r as int),
        decreases r,
    {
        r -= 1;
    }
    r
}

/// Where the content of bytes closed by a stop bit ends: the trailing
/// zeroes come off, and then the one byte that holds the set bit, which
/// is `80` because the content is a whole number of bytes.
pub open spec fn content_end(s: Seq<u8>) -> int {
    let end = zero_run(s, s.len() as int);
    if end > 0 && s[end - 1] == 0x80 {
        end - 1
    } else {
        end
    }
}

/// Where the content of bytes closed by a stop bit ends.
pub(crate) fn find_content_end(bytes: &[u8]) -> (end: usize)
    ensures
        end == content_end(bytes@),
        end <= bytes.len(),
{
    let end: usize = find_zero_run(bytes, bytes.len());
    if end > 0 && bytes[end - 1] == 0x80 {
        end - 1
    } else {
        end
    }
}

/// Where content that a stop bit may close ends: before the `80` that
/// only zeroes follow or, where there is none, at the end of the bytes.
pub open spec fn closed_end(s: Seq<u8>) -> int {
    let end = zero_run(s, s.len() as int);
    if end > 0 && s[end - 1] == 0x80 {
        end - 1
    } else {
        s.len() as int
    }
}

/// Where content that a stop bit may close ends.
pub(crate) fn find_closed_end(bytes: &[u8]) -> (end: usize)
    ensures
        end == closed_end(bytes@),
        end <= bytes.len(),
{
    let end: usize = find_zero_run(bytes, bytes.len());
    if end > 0 && bytes[end - 1] == 0x80 {
        end - 1
    } else {
        bytes.len()
    }
}

/// Content closed by a stop byte is what the stop byte follows, whatever
/// the content ends in.
pub proof fn lemma_content_end_of_closed(s: Seq<u8>)
    ensures
        content_end(s.push(0x80)) == s.len(),
        closed_end(s.push(0x80)) == s.len(),
{
    lemma_zero_run_is(s.push(0x80), s.len() as int + 1, s.len() as int + 1);
}

/// `256` to the power `n`: one past the largest number `n` bytes spell.
pub open spec fn capacity(n: nat) -> nat
    decreases n,
{
    if n == 0 {
        1
    } else {
        256 * capacity((n - 1) as nat)
    }
}

/// The number `s` spells, most significant byte first.
pub open spec fn be_value(s: Seq<u8>) -> nat
    decreases s.len(),
{
    if s.len() == 0 {
        0
    } else {
        be_value(s.drop_last()) * 256 + s.last() as nat
    }
}

/// The low `n` bytes of `value`, most significant first.
pub open spec fn be_bytes(value: nat, n: nat) -> Seq<u8>
    decreases n,
{
    if n == 0 {
        Seq::empty()
    } else {
        be_bytes(value / 256, (n - 1) as nat).push((value % 256) as u8)
    }
}

/// A number of `n` bytes is below `capacity(n)`.
pub proof fn lemma_be_value_bound(s: Seq<u8>)
    ensures
        be_value(s) < capacity(s.len()),
    decreases s.len(),
{
    if s.len() > 0 {
        lemma_be_value_bound(s.drop_last());
    }
}

/// A number that fits `n` bytes is read back from them.
pub proof fn lemma_be_round_trip(value: nat, n: nat)
    requires
        value < capacity(n),
    ensures
        be_bytes(value, n).len() == n,
        be_value(be_bytes(value, n)) == value,
    decreases n,
{
    if n > 0 {
        lemma_be_round_trip(value / 256, (n - 1) as nat);
        let b = be_bytes(value, n);
        assert(b.drop_last() =~= be_bytes(value / 256, (n - 1) as nat));
    }
}

/// The bytes a number was read from are the bytes it is written as.
pub proof fn lemma_be_bytes_of_value(s: Seq<u8>)
    ensures
        be_bytes(be_value(s), s.len()) == s,
    decreases s.len(),
{
    if s.len() > 0 {
        lemma_be_bytes_of_value(s.drop_last());
        assert(be_value(s) / 256 == be_value(s.drop_last()));
        assert(be_bytes(be_value(s), s.len()) =~= s);
    } else {
        assert(be_bytes(be_value(s), s.len()) =~= s);
    }
}

/// The contents of a list of byte strings.
pub open spec fn contents(list: Seq<Vec<u8>>) -> Seq<Seq<u8>> {
    Seq::new(list.len(), |i: int| list[i]@)
}

/// The contents of a list of byte slices.
pub open spec fn slice_contents(list: Seq<&[u8]>) -> Seq<Seq<u8>> {
    Seq::new(list.len(), |i: int| list[i]@)
}

/// Whether `s` opens with `prefix`.
pub open spec fn opens_with(s: Seq<u8>, prefix: Seq<u8>) -> bool {
    prefix.len() <= s.len() && s.take(prefix.len() as int) == prefix
}

/// Whether `bytes` opens with the 16 bytes of `uuid`.
pub(crate) fn starts_with_uuid(bytes: &[u8], uuid: &[u8; 16]) -> (r: bool)
    ensures
        r == opens_with(bytes@, uuid@),
{
    if bytes.len() < 16 {
        return false;
    }
    let mut i: usize = 0;
    while i < 16
        invariant
            i <= 16 <= bytes.len(),
            forall|j: int| 0 <= j < i ==> bytes@[j] == uuid@[j],
        decreases 16 - i,
    {
        if bytes[i] != uuid[i] {
            assert(bytes@.take(16)[i as int] != uuid@[i as int]);
            return false;
        }
        i += 1;
    }
    assert(bytes@.take(16) =~= uuid@);
    true
}

/// Appends `tail` to `out`.
pub(crate) fn append(out: &mut Vec<u8>, tail: &[u8])
    ensures
        final(out)@ == old(out)@ + tail@,
{
    let ghost before = out@;
    out.extend_from_slice(tail);
    assert(out@ =~= before + tail@);
}

/// The bytes of `bytes` from `from` to `to`, copied.
pub(crate) fn copy_range(bytes: &[u8], from: usize, to: usize) -> (out: Vec<u8>)
    requires
        from <= to <= bytes.len(),
    ensures
        out@ == bytes@.subrange(from as int, to as int),
{
    let mut out: Vec<u8> = Vec::with_capacity(to - from);
    append(&mut out, slice_subrange(bytes, from, to));
    assert(out@ =~= bytes@.subrange(from as int, to as int));
    out
}

} // verus!
