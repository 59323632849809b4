//! The percent-escape codec of JavaScript's historical `escape` / `unescape` pair.
use vstd::prelude::*;

verus! {

broadcast use vstd::seq_lib::group_seq_properties;

/// Whether a character is written as itself.
pub open spec fn passes_through(c: char) -> bool {
    ('a' <= c && c <= 'z') || ('A' <= c && c <= 'Z') || ('0' <= c && c <= '9') || c == '@'
        || c == '*' || c == '_' || c == '+' || c == '-' || c == '.' || c == '/'
}

/// The upper-case hexadecimal digit for `n` in `0..16`.
pub open spec fn hex_digit(n: int) -> u8 {
    if n < 10 {
        (48 + n) as u8
    } else {
        (55 + n) as u8
    }
}

/// `%uHHHH` for one UTF-16 code unit.
pub open spec fn unit_escape(u: int) -> Seq<u8> {
    seq![
        37u8,
        117u8,
        hex_digit(u / 4096 % 16),
        hex_digit(u / 256 % 16),
        hex_digit(u / 16 % 16),
        hex_digit(u % 16),
    ]
}

/// The escape form of one character.
pub open spec fn escape_char(c: char) -> Seq<u8> {
    let v = c as int;
    if passes_through(c) {
        seq![v as u8]
    } else if v <= 0xFF {
        seq![37u8, hex_digit(v / 16), hex_digit(v % 16)]
    } else if v < 0x10000 {
        unit_escape(v)
    } else {
        unit_escape(0xD800 + (v - 0x10000) / 1024) + unit_escape(0xDC00 + (v - 0x10000) % 1024)
    }
}

/// The escape form of a text: the escape forms of its characters, in order.
pub open spec fn escape_text(s: Seq<char>) -> Seq<u8>
    decreases s.len(),
{
    if s.len() == 0 {
        Seq::empty()
    } else {
        escape_text(s.drop_last()) + escape_char(s.last())
    }
}

/// Whether a byte is printable ASCII, `0x20..0x80`.
pub open spec fn printable(b: u8) -> bool {
    0x20 <= b < 0x80
}

fn hex(n: u32) -> (r: u8)
    requires
        n < 16,
    ensures
        r == hex_digit(n as int),
        printable(r),
{
    if n < 10 {
        (48 + n) as u8
    } else {
        (55 + n) as u8
    }
}

fn push_unit(out: &mut Vec<u8>, u: u32)
    requires
        u < 0x10000,
    ensures
        final(out)@ == old(out)@ + unit_escape(u as int),
{
    out.push(37u8);
    out.push(117u8);
    out.push(hex(u / 4096 % 16));
    out.push(hex(u / 256 % 16));
    out.push(hex(u / 16 % 16));
    out.push(hex(u % 16));
    assert(final(out)@ =~= old(out)@ + unit_escape(u as int));
}

/// The bytes of the escape form of one character are printable ASCII.
pub proof fn lemma_escape_char_printable(c: char)
    ensures
        forall|i: int| 0 <= i < escape_char(c).len() ==> printable(#[trigger] escape_char(c)[i]),
{
}

/// The bytes of the escape form of every text are printable ASCII.
pub proof fn lemma_escape_printable(s: Seq<char>)
    ensures
        forall|i: int| 0 <= i < escape_text(s).len() ==> printable(#[trigger] escape_text(s)[i]),
    decreases s.len(),
{
    if s.len() > 0 {
        lemma_escape_printable(s.drop_last());
        lemma_escape_char_printable(s.last());
        let a = escape_text(s.drop_last());
        let b = escape_char(s.last());
        assert forall|i: int| 0 <= i < escape_text(s).len() implies printable(
            #[trigger] escape_text(s)[i],
        ) by {
            if i < a.len() {
                assert(escape_text(s)[i] == a[i]);
            } else {
                assert(escape_text(s)[i] == b[i - a.len()]);
            }
        }
    }
}

/// The escape form of `s`: characters of `A-Z a-z 0-9 @ * _ + - . /` as themselves, other
/// characters up to `0xFF` as `%HH`, the rest as `%uHHHH` per UTF-16 code unit.
pub fn js_escape(s: &str) -> (r: Vec<u8>)
    ensures
        r@ == escape_text(s@),
        forall|i: int| 0 <= i < r@.len() ==> printable(#[trigger] r@[i]),
{
    let n = s.unicode_len();
    let mut out: Vec<u8> = Vec::new();
    let mut i: usize = 0;
    while i < n
        invariant
            0 <= i <= n,
            n == s@.len(),
            out@ == escape_text(s@.take(i as int)),
        decreases n - i,
    {
        let c = s.get_char(i);
        let v = c as u32;
        proof {
            assert(s@.take(i + 1).drop_last() == s@.take(i as int));
        }
        if ('a' <= c && c <= 'z') || ('A' <= c && c <= 'Z') || ('0' <= c && c <= '9') || c == '@'
            || c == '*' || c == '_' || c == '+' || c == '-' || c == '.' || c == '/' {
            out.push(v as u8);
        } else if v <= 0xFF {
            out.push(37u8);
            out.push(hex(v / 16));
            out.push(hex(v % 16));
        } else if v < 0x10000 {
            push_unit(&mut out, v);
        } else {
            push_unit(&mut out, 0xD800 + (v - 0x10000) / 1024);
            push_unit(&mut out, 0xDC00 + (v - 0x10000) % 1024);
        }
        proof {
            assert(out@ =~= escape_text(s@.take(i + 1)));
        }
        i = i + 1;
    }
    proof {
        assert(s@.take(n as int) == s@);
        lemma_escape_printable(s@);
    }
    out
}


/// The value of a hexadecimal digit byte (either case), or `None`.
pub open spec fn hex_value(b: u8) -> Option<int> {
    if 48 <= b <= 57 {
        Some(b - 48)
    } else if 65 <= b <= 70 {
        Some(b - 55)
    } else if 97 <= b <= 102 {
        Some(b - 87)
    } else {
        None
    }
}

/// The number that a run of digit bytes spells; bytes that are not hexadecimal digits are
/// passed over.
pub open spec fn hex_number(s: Seq<u8>) -> int
    decreases s.len(),
{
    if s.len() == 0 {
        0
    } else {
        match hex_value(s.last()) {
            Some(d) => hex_number(s.drop_last()) * 16 + d,
            None => hex_number(s.drop_last()),
        }
    }
}

/// Where the escape that starts at byte `i` ends: after `%u` and four bytes, after `%` and
/// two bytes, or after the byte itself; never past the end.
pub open spec fn escape_end(s: Seq<u8>, i: int) -> int {
    let w: int = if s[i] != 37u8 {
        1
    } else if i + 1 < s.len() && s[i + 1] == 117u8 {
        6
    } else {
        3
    };
    if i + w < s.len() {
        i + w
    } else {
        s.len() as int
    }
}

/// The code unit of the escape that starts at byte `i`.
pub open spec fn escape_unit(s: Seq<u8>, i: int) -> u16 {
    if s[i] != 37u8 {
        s[i] as u16
    } else {
        let start: int = if i + 1 < s.len() && s[i + 1] == 117u8 { i + 2 } else { i + 1 };
        hex_number(s.subrange(start, escape_end(s, i))) as u16
    }
}

/// The UTF-16 code units that an escape form stands for, read left to right.
pub open spec fn unescape_units(s: Seq<u8>) -> Seq<u16>
    decreases s.len(),
{
    if s.len() == 0 {
        Seq::empty()
    } else {
        seq![escape_unit(s, 0)] + unescape_units(s.subrange(escape_end(s, 0), s.len() as int))
    }
}

proof fn lemma_unescape_step(s: Seq<u8>, i: int)
    requires
        0 <= i < s.len(),
    ensures
        i < escape_end(s, i) <= s.len(),
        unescape_units(s.subrange(i, s.len() as int)) == seq![escape_unit(s, i)] + unescape_units(
            s.subrange(escape_end(s, i), s.len() as int),
        ),
{
    let rest = s.subrange(i, s.len() as int);
    assert(escape_end(rest, 0) == escape_end(s, i) - i);
    let start: int = if i + 1 < s.len() && s[i + 1] == 117u8 { i + 2 } else { i + 1 };
    if s[i] == 37u8 {
        assert(rest.subrange(start - i, escape_end(rest, 0)) == s.subrange(start, escape_end(s, i)));
    }
    assert(escape_unit(rest, 0) == escape_unit(s, i));
    assert(rest.subrange(escape_end(rest, 0), rest.len() as int) == s.subrange(
        escape_end(s, i),
        s.len() as int,
    ));
}

proof fn lemma_hex_number_bound(s: Seq<u8>)
    ensures
        0 <= hex_number(s) < pow16(s.len()),
    decreases s.len(),
{
    if s.len() > 0 {
        lemma_hex_number_bound(s.drop_last());
    }
    lemma_pow16_positive(s.len());
}

spec fn pow16(n: nat) -> int
    decreases n,
{
    if n == 0 {
        1
    } else {
        16 * pow16((n - 1) as nat)
    }
}

/// Reads the digits of one escape, `s[start..end]`.
fn read_hex(s: &Vec<u8>, start: usize, end: usize) -> (r: u16)
    requires
        start <= end <= s@.len(),
        end - start <= 4,
    ensures
        r as int == hex_number(s@.subrange(start as int, end as int)),
{
    let mut number: u16 = 0;
    let mut i: usize = start;
    while i < end
        invariant
            start <= i <= end <= s@.len(),
            end - start <= 4,
            number as int == hex_number(s@.subrange(start as int, i as int)),
        decreases end - i,
    {
        let b = s[i];
        proof {
            assert(s@.subrange(start as int, i + 1).drop_last() == s@.subrange(start as int, i as int));
            lemma_hex_number_bound(s@.subrange(start as int, i + 1));
            reveal_with_fuel(pow16, 5);
            lemma_pow16_mono((i + 1 - start) as nat, 4);
        }
        if 48 <= b && b <= 57 {
            number = number * 16 + (b - 48) as u16;
        } else if 65 <= b && b <= 70 {
            number = number * 16 + (b - 55) as u16;
        } else if 97 <= b && b <= 102 {
            number = number * 16 + (b - 87) as u16;
        }
        i = i + 1;
    }
    number
}

proof fn lemma_pow16_positive(n: nat)
    ensures
        pow16(n) >= 1,
    decreases n,
{
    if n > 0 {
        lemma_pow16_positive((n - 1) as nat);
    }
}

proof fn lemma_pow16_mono(a: nat, b: nat)
    requires
        a <= b,
    ensures
        pow16(a) <= pow16(b),
    decreases b,
{
    if a < b {
        lemma_pow16_mono(a, (b - 1) as nat);
        lemma_pow16_positive((b - 1) as nat);
    }
}

/// The UTF-16 code units of an escape form: `%uHHHH` and `%HH` give the number their digits
/// spell, any other byte gives itself.
pub fn js_unescape_units(s: &Vec<u8>) -> (r: Vec<u16>)
    ensures
        r@ == unescape_units(s@),
{
    let n = s.len();
    let mut out: Vec<u16> = Vec::new();
    let mut i: usize = 0;
    while i < n
        invariant
            0 <= i <= n,
            n == s@.len(),
            out@ + unescape_units(s@.subrange(i as int, n as int)) == unescape_units(s@),
        decreases n - i,
    {
        proof {
            lemma_unescape_step(s@, i as int);
        }
        if s[i] == 37u8 {
            let wide = i + 1 < n && s[i + 1] == 117u8;
            let start = if wide { i + 2 } else { i + 1 };
            let w: usize = if wide { 6 } else { 3 };
            let end = if n - i > w { i + w } else { n };
            let u = read_hex(s, start, end);
            out.push(u);
            i = end;
        } else {
            out.push(s[i] as u16);
            i = i + 1;
        }
        proof {
            assert(out@ + unescape_units(s@.subrange(i as int, n as int)) =~= unescape_units(s@));
        }
    }
    proof {
        assert(s@.subrange(n as int, n as int) =~= Seq::<u8>::empty());
        assert(out@ + unescape_units(Seq::<u8>::empty()) =~= out@);
    }
    out
}

/// What `String::from_utf16_lossy` makes of a sequence of UTF-16 code units.
pub uninterp spec fn utf16_lossy(units: Seq<u16>) -> Seq<char>;

/// Relies on `String::from_utf16_lossy`: decodes UTF-16, an unpaired surrogate becoming
/// U+FFFD; the result depends on the code units alone.
#[verifier::external_body]
fn from_utf16_lossy(units: &Vec<u16>) -> (r: String)
    ensures
        r@ == utf16_lossy(units@),
{
    String::from_utf16_lossy(units)
}

/// The text an escape form stands for: its code units decoded as UTF-16, each unpaired
/// surrogate read as U+FFFD.
pub fn js_unescape(s: &Vec<u8>) -> (r: String)
    ensures
        r@ == utf16_lossy(unescape_units(s@)),
{
    let units = js_unescape_units(s);
    from_utf16_lossy(&units)
}

} // verus!
