//! The six-bit symbol alphabet `A-Z a-z 0-9 + /`.
use vstd::prelude::*;

verus! {

/// The ASCII byte of the symbol for `n` in `0..64`.
pub open spec fn sym(n: int) -> u8 {
    if n < 26 {
        (n + 65) as u8
    } else if n < 52 {
        (n - 26 + 97) as u8
    } else if n < 62 {
        (n - 52 + 48) as u8
    } else if n == 62 {
        43u8
    } else {
        47u8
    }
}

/// The value of a symbol character, or `None` outside the alphabet.
pub open spec fn val(c: char) -> Option<nat> {
    if 'A' <= c && c <= 'Z' {
        Some((c as nat - 65) as nat)
    } else if 'a' <= c && c <= 'z' {
        Some((c as nat - 97 + 26) as nat)
    } else if '0' <= c && c <= '9' {
        Some((c as nat - 48 + 52) as nat)
    } else if c == '+' {
        Some(62)
    } else if c == '/' {
        Some(63)
    } else {
        None
    }
}

/// The symbol for a six-bit number.
pub fn to_base64(n: usize) -> (r: u8)
    requires
        n < 64,
    ensures
        r == sym(n as int),
        r < 128,
{
    if n < 26 {
        (n + 65) as u8
    } else if n < 52 {
        (n - 26 + 97) as u8
    } else if n < 62 {
        (n - 52 + 48) as u8
    } else if n == 62 {
        43u8
    } else {
        47u8
    }
}

/// The value of a symbol character, or `None` outside the alphabet.
pub fn from_base64(c: char) -> (r: Option<usize>)
    ensures
        r is Some <==> val(c) is Some,
        r matches Some(v) ==> val(c) == Some(v as nat) && v < 64,
{
    if 'A' <= c && c <= 'Z' {
        Some(c as usize - 65)
    } else if 'a' <= c && c <= 'z' {
        Some(c as usize - 97 + 26)
    } else if '0' <= c && c <= '9' {
        Some(c as usize - 48 + 52)
    } else if c == '+' {
        Some(62)
    } else if c == '/' {
        Some(63)
    } else {
        None
    }
}

/// Reading a symbol back gives the number it was written from.
pub proof fn lemma_sym_round_trip(n: int)
    requires
        0 <= n < 64,
    ensures
        val(sym(n) as char) == Some(n as nat),
        sym(n) < 128,
{
}

/// Writing the value of a symbol character gives that character back.
pub proof fn lemma_val_round_trip(c: char)
    requires
        val(c) is Some,
    ensures
        val(c).unwrap() < 64,
        sym(val(c).unwrap() as int) as char == c,
{
}


} // verus!
