//! Numbers as text, and telling one name from another.

use vstd::prelude::*;
use vstd::string::*;

verus! {

/// The digit for a number below 16.
pub open spec fn digit(n: int) -> char {
    seq![
        '0',
        '1',
        '2',
        '3',
        '4',
        '5',
        '6',
        '7',
        '8',
        '9',
        'a',
        'b',
        'c',
        'd',
        'e',
        'f',
    ][n]
}

/// A byte as two hexadecimal digits.
pub open spec fn hex_pair(byte: u8) -> Seq<char> {
    seq![digit(byte as int / 16), digit(byte as int % 16)]
}

/// A number in decimal, with no zeroes before it.
pub open spec fn decimal(n: nat) -> Seq<char>
    decreases n,
{
    if n < 10 {
        seq![digit(n as int)]
    } else {
        decimal(n / 10).push(digit(n as int % 10))
    }
}

/// Appends one digit.
fn put_digit(out: &mut String, n: u8)
    requires
        n < 16,
    ensures
        final(out)@ == old(out)@.push(digit(n as int)),
{
    proof {
        reveal_strlit("0");
        reveal_strlit("1");
        reveal_strlit("2");
        reveal_strlit("3");
        reveal_strlit("4");
        reveal_strlit("5");
        reveal_strlit("6");
        reveal_strlit("7");
        reveal_strlit("8");
        reveal_strlit("9");
        reveal_strlit("a");
        reveal_strlit("b");
        reveal_strlit("c");
        reveal_strlit("d");
        reveal_strlit("e");
        reveal_strlit("f");
    }
    let ghost before = out@;
    let one: &str = match n {
        0 => "0",
        1 => "1",
        2 => "2",
        3 => "3",
        4 => "4",
        5 => "5",
        6 => "6",
        7 => "7",
        8 => "8",
        9 => "9",
        10 => "a",
        11 => "b",
        12 => "c",
        13 => "d",
        14 => "e",
        _ => "f",
    };
    assert(one@.len() == 1 && one@[0] == digit(n as int));
    out.append(one);
    assert(out@ =~= before.push(digit(n as int)));
}

/// Appends a byte as two hexadecimal digits.
pub(crate) fn put_hex_pair(out: &mut String, byte: u8)
    ensures
        final(out)@ == old(out)@ + hex_pair(byte),
{
    let ghost before = out@;
    put_digit(out, byte / 16);
    put_digit(out, byte % 16);
    assert(out@ =~= before + hex_pair(byte));
}

/// Appends a number in decimal.
pub(crate) fn put_decimal(out: &mut String, n: usize)
    ensures
        final(out)@ == old(out)@ + decimal(n as nat),
    decreases n,
{
    let ghost before = out@;
    if n >= 10 {
        put_decimal(out, n / 10);
    }
    put_digit(out, (n % 10) as u8);
    assert(out@ =~= before + decimal(n as nat));
}

/// Whether two names are the same.
pub(crate) fn same(a: &str, b: &str) -> (r: bool)
    ensures
        r == (a@ == b@),
{
    let n: usize = a.unicode_len();
    if n != b.unicode_len() {
        return false;
    }
    let mut k: usize = 0;
    while k < n
        invariant
            k <= n,
            n == a@.len(),
            n == b@.len(),
            forall|i: int| 0 <= i < k ==> a@[i] == b@[i],
        decreases n - k,
    {
        if a.get_char(k) != b.get_char(k) {
            return false;
        }
        k += 1;
    }
    assert(a@ =~= b@);
    true
}

} // verus!
