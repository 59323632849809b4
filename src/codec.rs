//! The `v115` stream: field deltas with empty-run compression, page records, comments.
use vstd::prelude::*;
use crate::base64::{sym, to_base64};
use crate::escape::{escape_text, js_escape, printable};
use crate::page::{
    cell_delta, default_page_view, empty_line, empty_row, fumen_field_delta, next_page_view, rows_of, wire_rows, Page, PageView,
};
use crate::types::{piece_number_of, CellColor};

verus! {

broadcast use vstd::seq_lib::group_seq_properties;

/// Two symbols holding a twelve-bit number, low bits first.
pub open spec fn syms2(n: int) -> Seq<u8> {
    seq![sym(n % 64), sym(n / 64 % 64)]
}

/// Three symbols holding an eighteen-bit number, low bits first.
pub open spec fn syms3(n: int) -> Seq<u8> {
    seq![sym(n % 64), sym(n / 64 % 64), sym(n / 4096 % 64)]
}

/// Five symbols holding a thirty-bit number, low bits first.
pub open spec fn syms5(n: int) -> Seq<u8> {
    seq![
        sym(n % 64),
        sym(n / 64 % 64),
        sym(n / 4096 % 64),
        sym(n / 262144 % 64),
        sym(n / 16777216 % 64),
    ]
}

/// The maximal runs of equal values of `d` from index `k` on, as (value, length) pairs,
/// where a run of `c` copies of `v` ends just before `k`.
pub open spec fn runs_from(d: Seq<int>, k: int, v: int, c: int) -> Seq<(int, int)>
    decreases d.len() - k,
{
    if k >= d.len() {
        seq![(v, c)]
    } else if d[k] == v {
        runs_from(d, k + 1, v, c + 1)
    } else {
        seq![(v, c)] + runs_from(d, k + 1, d[k], 1)
    }
}

/// The maximal runs of equal values of `d`, as (value, length) pairs, left to right.
pub open spec fn runs(d: Seq<int>) -> Seq<(int, int)> {
    if d.len() == 0 {
        Seq::empty()
    } else {
        runs_from(d, 1, d[0], 1)
    }
}

/// Each run written as the two symbols of `value * 240 + length - 1`.
pub open spec fn emit_runs(rs: Seq<(int, int)>) -> Seq<u8>
    decreases rs.len(),
{
    if rs.len() == 0 {
        Seq::empty()
    } else {
        syms2(rs[0].0 * 240 + rs[0].1 - 1) + emit_runs(rs.skip(1))
    }
}

proof fn lemma_emit_cons(r: (int, int), rs: Seq<(int, int)>)
    ensures
        emit_runs(seq![r] + rs) == syms2(r.0 * 240 + r.1 - 1) + emit_runs(rs),
{
    assert((seq![r] + rs).skip(1) =~= rs);
}

/// The 240 wire deltas, row by row from the top, between two wire grids.
pub open spec fn deltas_of(prev: Seq<Seq<CellColor>>, cur: Seq<Seq<CellColor>>) -> Seq<int> {
    Seq::new(240, |k: int| cell_delta(prev[k / 10][k % 10], cur[k / 10][k % 10]))
}

/// Whether every byte is ASCII.
pub open spec fn ascii(s: Seq<u8>) -> bool {
    forall|k: int| 0 <= k < s.len() ==> #[trigger] s[k] < 128
}

fn rle(deltas: &[[usize; 10]; 24], out: &mut Vec<u8>)
    requires
        ascii(old(out)@),
        forall|y: int, x: int| 0 <= y < 24 && 0 <= x < 10 ==> #[trigger] deltas[y][x] <= 16,
    ensures
        ascii(final(out)@),
        final(out)@ == old(out)@ + emit_runs(runs(Seq::new(240, |k: int| deltas[k / 10][k % 10] as int))),
{
    let ghost d = Seq::new(240, |k: int| deltas[k / 10][k % 10] as int);
    let ghost start = out@;
    let mut prev: usize = deltas[0][0];
    let mut count: usize = 1;
    let mut k: usize = 1;
    while k < 240
        invariant
            1 <= k <= 240,
            d == Seq::new(240, |k: int| deltas[k / 10][k % 10] as int),
            forall|y: int, x: int| 0 <= y < 24 && 0 <= x < 10 ==> #[trigger] deltas[y][x] <= 16,
            prev <= 16,
            1 <= count <= k,
            start + emit_runs(runs(d)) == out@ + emit_runs(runs_from(d, k as int, prev as int, count as int)),
            ascii(out@),
        decreases 240 - k,
    {
        let v = deltas[k / 10][k % 10];
        assert(d[k as int] == v as int);
        if v == prev {
            count = count + 1;
        } else {
            let num = prev * 240 + count - 1;
            let ghost before = out@;
            out.push(to_base64(num % 64));
            out.push(to_base64(num / 64 % 64));
            proof {
                lemma_emit_cons((prev as int, count as int), runs_from(d, k + 1, v as int, 1));
                assert(out@ =~= before + syms2(num as int));
            }
            prev = v;
            count = 1;
        }
        k = k + 1;
    }
    let num = prev * 240 + count - 1;
    let ghost before = out@;
    out.push(to_base64(num % 64));
    out.push(to_base64(num / 64 % 64));
    proof {
        lemma_emit_cons((prev as int, count as int), Seq::empty());
        assert(seq![(prev as int, count as int)] + Seq::<(int, int)>::empty() =~= seq![(prev as int, count as int)]);
        assert(emit_runs(Seq::<(int, int)>::empty()) =~= Seq::<u8>::empty());
        assert(out@ =~= before + syms2(num as int));
    }
}

/// The escape form of a comment as stored: cut to its first 4095 bytes.
pub open spec fn stored_escape(c: Seq<char>) -> Seq<u8> {
    let e = escape_text(c);
    if e.len() <= 4095 {
        e
    } else {
        e.take(4095)
    }
}

/// Byte `k` of an escape form less `0x20`, or zero past its end.
pub open spec fn comment_digit(e: Seq<u8>, k: int) -> int {
    if k < e.len() {
        e[k] - 32
    } else {
        0
    }
}

/// The base-96 number packing the four bytes of an escape form from byte `j` on.
pub open spec fn chunk_value(e: Seq<u8>, j: int) -> int {
    comment_digit(e, j) + 96 * comment_digit(e, j + 1) + 9216 * comment_digit(e, j + 2) + 884736
        * comment_digit(e, j + 3)
}

/// The first `t` four-byte groups of an escape form, five symbols each.
pub open spec fn packed_chunks(e: Seq<u8>, t: nat) -> Seq<u8>
    decreases t,
{
    if t == 0 {
        Seq::empty()
    } else {
        packed_chunks(e, (t - 1) as nat) + syms5(chunk_value(e, 4 * (t - 1)))
    }
}

/// A comment block: the length of the stored escape form, then its four-byte groups.
pub open spec fn comment_bytes(e: Seq<u8>) -> Seq<u8> {
    syms2(e.len() as int) + packed_chunks(e, ((e.len() + 3) / 4) as nat)
}

/// The comment block of a page; empty when it has no comment.
pub open spec fn comment_block(p: PageView) -> Seq<u8> {
    match p.comment {
        Some(c) => comment_bytes(stored_escape(c)),
        None => Seq::empty(),
    }
}

/// The packed number of a page's piece, zero when there is none.
pub open spec fn piece_part(p: PageView) -> int {
    match p.piece {
        Some(q) => piece_number_of(q),
        None => 0,
    }
}

/// The flag bits of a page record: rise, mirror, comment, no-lock, and the guideline bit.
pub open spec fn flag_bits(p: PageView, guideline: bool) -> int {
    (if p.rise { 1int } else { 0int }) + (if p.mirror { 2int } else { 0int }) + (if p.comment is Some {
        8int
    } else {
        0int
    }) + (if p.lock { 0int } else { 16int }) + (if guideline { 4int } else { 0int })
}

/// The number a page record holds before it is cut to eighteen bits.
pub open spec fn page_number(p: PageView, guideline: bool) -> int {
    piece_part(p) + 7680 * flag_bits(p, guideline)
}

/// The three symbols of a page record.
pub open spec fn record(p: PageView, guideline: bool) -> Seq<u8> {
    syms3(page_number(p, guideline) % 262144)
}

fn push_syms(out: &mut Vec<u8>, n: u64, count: usize)
    requires
        ascii(old(out)@),
        count == 2 || count == 3 || count == 5,
    ensures
        ascii(final(out)@),
        count == 2 ==> final(out)@ == old(out)@ + syms2(n as int),
        count == 3 ==> final(out)@ == old(out)@ + syms3(n as int),
        count == 5 ==> final(out)@ == old(out)@ + syms5(n as int),
{
    out.push(to_base64((n % 64) as usize));
    out.push(to_base64((n / 64 % 64) as usize));
    if count >= 3 {
        out.push(to_base64((n / 4096 % 64) as usize));
    }
    if count == 5 {
        out.push(to_base64((n / 262144 % 64) as usize));
        out.push(to_base64((n / 16777216 % 64) as usize));
    }
    assert(count == 2 ==> final(out)@ =~= old(out)@ + syms2(n as int));
    assert(count == 3 ==> final(out)@ =~= old(out)@ + syms3(n as int));
    assert(count == 5 ==> final(out)@ =~= old(out)@ + syms5(n as int));
}

fn write_comment(c: &String, out: &mut Vec<u8>)
    requires
        ascii(old(out)@),
    ensures
        ascii(final(out)@),
        final(out)@ == old(out)@ + comment_bytes(stored_escape(c@)),
{
    let mut esc = js_escape(c.as_str());
    if esc.len() > 4095 {
        esc.truncate(4095);
    }
    let ghost e = esc@;
    assert(e == stored_escape(c@));
    assert(forall|k: int| 0 <= k < e.len() ==> printable(#[trigger] e[k]));
    let len = esc.len();
    push_syms(out, len as u64, 2);
    let ghost start = out@;
    let chunks = (len + 3) / 4;
    let mut t: usize = 0;
    while t < chunks
        invariant
            0 <= t <= chunks,
            chunks == (len + 3) / 4,
            len == e.len(),
            esc@ == e,
            forall|k: int| 0 <= k < e.len() ==> printable(#[trigger] e[k]),
            ascii(out@),
            out@ == start + packed_chunks(e, t as nat),
        decreases chunks - t,
    {
        let j = 4 * t;
        let mut digits: [u64; 4] = [0; 4];
        let mut q: usize = 0;
        while q < 4
            invariant
                0 <= q <= 4,
                j == 4 * t,
                t < chunks,
                chunks == (len + 3) / 4,
                len == e.len(),
                esc@ == e,
                forall|k: int| 0 <= k < e.len() ==> printable(#[trigger] e[k]),
                forall|m: int| 0 <= m < q ==> #[trigger] digits[m] as int == comment_digit(e, j + m),
                forall|m: int| 0 <= m < 4 ==> #[trigger] digits[m] < 96,
            decreases 4 - q,
        {
            if j + q < len {
                digits[q] = (esc[j + q] - 32) as u64;
            } else {
                digits[q] = 0;
            }
            q = q + 1;
        }
        let v = digits[0] + 96 * digits[1] + 9216 * digits[2] + 884736 * digits[3];
        assert(v as int == chunk_value(e, j as int));
        push_syms(out, v, 5);
        t = t + 1;
    }
}

fn write_record(page: &Page, guideline: bool, out: &mut Vec<u8>)
    requires
        ascii(old(out)@),
    ensures
        ascii(final(out)@),
        final(out)@ == old(out)@ + record(page@, guideline),
{
    let piece: i64 = match page.piece {
        Some(p) => p.fumen_number(),
        None => 0,
    };
    let flags: i64 = (if page.rise { 1i64 } else { 0i64 }) + (if page.mirror { 2i64 } else { 0i64 })
        + (if page.get_comment().is_some() { 8i64 } else { 0i64 }) + (if page.lock { 0i64 } else { 16i64 })
        + (if guideline { 4i64 } else { 0i64 });
    let ghost n = page_number(page@, guideline);
    proof {
        assert(piece == piece_part(page@));
        assert(flags == flag_bits(page@, guideline));
        vstd::arithmetic::div_mod::lemma_mod_multiples_vanish(0x200_0000, n, 262144);
    }
    let shifted = (piece + 7680 * flags + 0x800_0000_0000) as u64;
    push_syms(out, shifted % 262144, 3);
}


/// A diagram: its pages in order, and the guideline flag.
#[derive(Clone, Debug, PartialEq, Eq, Hash)]
pub struct Fumen {
    pub pages: Vec<Page>,
    pub guideline: bool,
}

/// What a diagram holds: the views of its pages, and the guideline flag.
pub struct FumenView {
    pub pages: Seq<PageView>,
    pub guideline: bool,
}

impl View for Fumen {
    type V = FumenView;

    open spec fn view(&self) -> FumenView {
        FumenView { pages: self.pages@.map_values(|p: Page| p@), guideline: self.guideline }
    }
}

/// The all-empty wire grid that the first page is compared with.
pub open spec fn empty_wire() -> Seq<Seq<CellColor>> {
    Seq::new(24, |y: int| empty_row())
}

pub(crate) fn empty_wire_grid() -> (r: [[CellColor; 10]; 24])
    ensures
        rows_of(r) == empty_wire(),
{
    let e = empty_line();
    let mut r = [e; 24];
    let mut y: usize = 0;
    while y < 24
        invariant
            0 <= y <= 24,
            e@ == empty_row(),
            forall|k: int| 0 <= k < y ==> #[trigger] r[k] == e,
        decreases 24 - y,
    {
        r[y] = e;
        y = y + 1;
    }
    assert(rows_of(r) =~~= empty_wire());
    r
}

/// The wire grid that page `i` is compared with: the start of the page that its
/// predecessor leads to.
pub open spec fn baseline(pages: Seq<PageView>, i: int) -> Seq<Seq<CellColor>> {
    if i == 0 {
        empty_wire()
    } else {
        wire_rows(next_page_view(pages[i - 1]))
    }
}

/// The wire deltas of page `i` against its baseline.
pub open spec fn page_deltas(pages: Seq<PageView>, i: int) -> Seq<int> {
    deltas_of(baseline(pages, i), wire_rows(pages[i]))
}

/// Whether page `i` has the same wire grid as its baseline (every delta is 8).
pub open spec fn unchanged(pages: Seq<PageView>, i: int) -> bool {
    forall|k: int| 0 <= k < 240 ==> #[trigger] page_deltas(pages, i)[k] == 8
}

/// How many unchanged pages come right before page `i` within its empty run; a run
/// holds at most 64 pages.
pub open spec fn run_pos(pages: Seq<PageView>, i: int) -> nat
    decreases i,
{
    if i > 0 && unchanged(pages, i - 1) && run_pos(pages, i - 1) < 63 {
        run_pos(pages, i - 1) + 1
    } else {
        0
    }
}

/// The number of consecutive unchanged pages from page `j` on.
pub open spec fn unchanged_from(pages: Seq<PageView>, j: int) -> nat
    decreases pages.len() - j,
{
    if 0 <= j < pages.len() && unchanged(pages, j) {
        1 + unchanged_from(pages, j + 1)
    } else {
        0
    }
}

/// The count symbol of an empty run that page `i` opens: the unchanged pages that follow
/// it, at most 63.
pub open spec fn run_count(pages: Seq<PageView>, i: int) -> nat {
    let n = unchanged_from(pages, i + 1);
    if n < 63 {
        n
    } else {
        63
    }
}

/// The field part of page `i`: `vh` and a count where it opens an empty run, nothing where
/// it continues one, else its deltas run-length encoded.
pub open spec fn field_block(pages: Seq<PageView>, i: int) -> Seq<u8> {
    if unchanged(pages, i) {
        if run_pos(pages, i) == 0 {
            seq![118u8, 104u8, sym(run_count(pages, i) as int)]
        } else {
            Seq::empty()
        }
    } else {
        emit_runs(runs(page_deltas(pages, i)))
    }
}

/// Everything written for page `i`; the guideline bit goes on the first page only.
#[verifier::opaque]
pub open spec fn page_bytes(pages: Seq<PageView>, i: int, guideline: bool) -> Seq<u8> {
    field_block(pages, i) + record(pages[i], guideline && i == 0) + comment_block(pages[i])
}

/// Everything written for the first `n` pages.
pub open spec fn pages_bytes(pages: Seq<PageView>, n: nat, guideline: bool) -> Seq<u8>
    decreases n,
{
    if n == 0 {
        Seq::empty()
    } else {
        pages_bytes(pages, (n - 1) as nat, guideline) + page_bytes(pages, n - 1, guideline)
    }
}

/// The bytes of `v115@`.
pub open spec fn header() -> Seq<u8> {
    seq![118u8, 49u8, 49u8, 53u8, 64u8]
}

/// The encoded form of a diagram.
pub open spec fn encoding(f: FumenView) -> Seq<u8> {
    header() + pages_bytes(f.pages, f.pages.len(), f.guideline)
}

/// The characters of an ASCII byte string.
pub open spec fn chars_of(b: Seq<u8>) -> Seq<char> {
    b.map_values(|c: u8| c as char)
}

/// Relies on `String::from_utf8`: ASCII bytes are valid UTF-8, one character per byte.
#[verifier::external_body]
fn ascii_to_string(bytes: Vec<u8>) -> (r: String)
    requires
        ascii(bytes@),
    ensures
        r@ == chars_of(bytes@),
{
    String::from_utf8(bytes).unwrap()
}

pub(crate) fn all_eight(d: &[[usize; 10]; 24]) -> (r: bool)
    ensures
        r == forall|k: int| 0 <= k < 240 ==> #[trigger] d[k / 10][k % 10] == 8,
{
    let mut k: usize = 0;
    while k < 240
        invariant
            0 <= k <= 240,
            forall|j: int| 0 <= j < k ==> #[trigger] d[j / 10][j % 10] == 8,
        decreases 240 - k,
    {
        if d[k / 10][k % 10] != 8 {
            return false;
        }
        k = k + 1;
    }
    true
}

/// A stretch of unchanged pages adds its length to the count of unchanged pages that follow.
pub proof fn lemma_unchanged_from(pages: Seq<PageView>, a: int, b: int)
    requires
        0 <= a <= b <= pages.len(),
        forall|k: int| a <= k < b ==> unchanged(pages, k),
    ensures
        unchanged_from(pages, a) == (b - a) + unchanged_from(pages, b),
    decreases b - a,
{
    if a < b {
        lemma_unchanged_from(pages, a + 1, b);
    }
}

fn count_run(same: &Vec<bool>, i: usize, Ghost(pages): Ghost<Seq<PageView>>) -> (r: usize)
    requires
        i < same@.len() == pages.len(),
        forall|k: int| 0 <= k < same@.len() ==> #[trigger] same@[k] == unchanged(pages, k),
    ensures
        r == run_count(pages, i as int),
{
    let n = same.len();
    let mut j: usize = i + 1;
    while j < n && same[j] && j - i - 1 < 63
        invariant
            i < j <= n,
            n == same@.len() == pages.len(),
            forall|k: int| 0 <= k < same@.len() ==> #[trigger] same@[k] == unchanged(pages, k),
            forall|k: int| i < k < j ==> unchanged(pages, k),
            j - i - 1 <= 63,
        decreases n - j,
    {
        j = j + 1;
    }
    proof {
        lemma_unchanged_from(pages, i + 1, j as int);
    }
    j - i - 1
}


fn write_field_block(
    same: &Vec<bool>,
    deltas: &[[usize; 10]; 24],
    pos: usize,
    i: usize,
    out: &mut Vec<u8>,
    Ghost(pages): Ghost<Seq<PageView>>,
)
    requires
        i < same@.len() == pages.len(),
        forall|k: int| 0 <= k < same@.len() ==> #[trigger] same@[k] == unchanged(pages, k),
        Seq::new(240, |k: int| deltas[k / 10][k % 10] as int) == page_deltas(pages, i as int),
        forall|y: int, x: int| 0 <= y < 24 && 0 <= x < 10 ==> #[trigger] deltas[y][x] <= 16,
        pos == run_pos(pages, i as int),
        ascii(old(out)@),
    ensures
        ascii(final(out)@),
        final(out)@ == old(out)@ + field_block(pages, i as int),
{
    if same[i] {
        if pos == 0 {
            let c = count_run(same, i, Ghost(pages));
            out.push(118u8);
            out.push(104u8);
            out.push(to_base64(c));
        }
    } else {
        rle(deltas, out);
    }
    assert(final(out)@ =~= old(out)@ + field_block(pages, i as int));
}

fn write_page(
    page: &Page,
    same: &Vec<bool>,
    deltas: &[[usize; 10]; 24],
    pos: usize,
    i: usize,
    guideline: bool,
    out: &mut Vec<u8>,
    Ghost(pages): Ghost<Seq<PageView>>,
)
    requires
        i < same@.len() == pages.len(),
        pages[i as int] == page@,
        forall|k: int| 0 <= k < same@.len() ==> #[trigger] same@[k] == unchanged(pages, k),
        Seq::new(240, |k: int| deltas[k / 10][k % 10] as int) == page_deltas(pages, i as int),
        forall|y: int, x: int| 0 <= y < 24 && 0 <= x < 10 ==> #[trigger] deltas[y][x] <= 16,
        pos == run_pos(pages, i as int),
        ascii(old(out)@),
    ensures
        ascii(final(out)@),
        final(out)@ == old(out)@ + page_bytes(pages, i as int, guideline),
{
    write_field_block(same, deltas, pos, i, out, Ghost(pages));
    write_record(page, guideline && i == 0, out);
    match &page.comment {
        Some(c) => write_comment(c, out),
        None => {},
    }
    reveal(page_bytes);
    assert(final(out)@ =~= old(out)@ + page_bytes(pages, i as int, guideline));
}

impl Fumen {
    /// An empty diagram with the guideline flag set.
    pub fn new() -> (r: Fumen)
        ensures
            r@.pages.len() == 0,
            r@.guideline,
    {
        Fumen { pages: Vec::new(), guideline: true }
    }

    /// The encoded form: `v115@`, then per page its field part, its record and its comment
    /// block.
    pub fn encode(&self) -> (r: String)
        ensures
            r@ == chars_of(encoding(self@)),
    {
        let ghost pv = self@.pages;
        let n = self.pages.len();
        let mut deltas: Vec<[[usize; 10]; 24]> = Vec::new();
        let mut same: Vec<bool> = Vec::new();
        let mut prev = empty_wire_grid();
        let mut i: usize = 0;
        while i < n
            invariant
                0 <= i <= n,
                n == pv.len(),
                pv == self@.pages,
                deltas@.len() == i,
                same@.len() == i,
                i < n ==> rows_of(prev) == baseline(pv, i as int),
                forall|j: int| 0 <= j < i ==> #[trigger] same@[j] == unchanged(pv, j),
                forall|j: int|
                    0 <= j < i ==> Seq::new(240, |k: int| (#[trigger] deltas@[j])[k / 10][k % 10] as int)
                        == page_deltas(pv, j),
                forall|j: int, y: int, x: int|
                    0 <= j < i && 0 <= y < 24 && 0 <= x < 10 ==> #[trigger] deltas@[j][y][x] <= 16,
            decreases n - i,
        {
            let page = &self.pages[i];
            let d = fumen_field_delta(prev, page.fumen_field());
            let s = all_eight(&d);
            proof {
                let fd = Seq::new(240, |k: int| d[k / 10][k % 10] as int);
                assert(fd =~= page_deltas(pv, i as int));
                assert forall|y: int, x: int| 0 <= y < 24 && 0 <= x < 10 implies #[trigger] d[y][x]
                    <= 16 by {
                    assert(d[y][x] == fd[y * 10 + x]);
                }
                assert forall|k: int| 0 <= k < 240 implies #[trigger] page_deltas(pv, i as int)[k]
                    == d[k / 10][k % 10] as int by {
                    assert(fd[k] == d[k / 10][k % 10] as int);
                }
                if s {
                    assert forall|k: int| 0 <= k < 240 implies #[trigger] page_deltas(pv, i as int)[k]
                        == 8 by {
                        assert(d[k / 10][k % 10] == 8);
                    }
                } else {
                    let k = choose|k: int| 0 <= k < 240 && #[trigger] d[k / 10][k % 10] != 8;
                    assert(page_deltas(pv, i as int)[k] != 8);
                }
                assert(s == unchanged(pv, i as int));
            }
            deltas.push(d);
            same.push(s);
            prev = page.next_page().fumen_field();
            i = i + 1;
        }
        let mut out: Vec<u8> = Vec::new();
        out.push(118u8);
        out.push(49u8);
        out.push(49u8);
        out.push(53u8);
        out.push(64u8);
        proof {
            assert(out@ =~= header() + pages_bytes(pv, 0, self.guideline));
        }
        let mut pos: usize = 0;
        let mut i: usize = 0;
        while i < n
            invariant
                0 <= i <= n,
                n == pv.len(),
                pv == self@.pages,
                deltas@.len() == n,
                same@.len() == n,
                forall|j: int| 0 <= j < n ==> #[trigger] same@[j] == unchanged(pv, j),
                forall|j: int|
                    0 <= j < n ==> Seq::new(240, |k: int| (#[trigger] deltas@[j])[k / 10][k % 10] as int)
                        == page_deltas(pv, j),
                forall|j: int, y: int, x: int|
                    0 <= j < n && 0 <= y < 24 && 0 <= x < 10 ==> #[trigger] deltas@[j][y][x] <= 16,
                pos == run_pos(pv, i as int),
                ascii(out@),
                out@ == header() + pages_bytes(pv, i as nat, self.guideline),
            decreases n - i,
        {
            let ghost before = out@;
            write_page(&self.pages[i], &same, &deltas[i], pos, i, self.guideline, &mut out, Ghost(pv));
            proof {
                assert(pages_bytes(pv, (i + 1) as nat, self.guideline) == pages_bytes(
                    pv,
                    i as nat,
                    self.guideline,
                ) + page_bytes(pv, i as int, self.guideline));
            }
            pos = if same[i] && pos < 63 { pos + 1 } else { 0 };
            i = i + 1;
        }
        ascii_to_string(out)
    }
}

/// The page that `add_page` appends to a list of pages.
pub open spec fn appended_page(pages: Seq<PageView>) -> PageView {
    if pages.len() == 0 {
        default_page_view()
    } else {
        next_page_view(pages.last())
    }
}

impl Default for Fumen {
    fn default() -> (r: Fumen)
        ensures
            r@.pages.len() == 0,
            r@.guideline,
    {
        Fumen::new()
    }
}

impl Fumen {
    /// Appends a page started as fumen starts one: from the last page by the transition
    /// rules, or a default page when there is none; returns it for editing.
    pub fn add_page(&mut self) -> (r: &mut Page)
        ensures
            (*r)@ == appended_page(old(self)@.pages),
            final(self)@.pages == old(self)@.pages.push((*final(r))@),
            final(self).guideline == old(self).guideline,
    {
        let len = self.pages.len();
        let p = if len == 0 {
            Page::default()
        } else {
            self.pages[len - 1].next_page()
        };
        self.pages.push(p);
        &mut self.pages[len]
    }

    /// The pages, in order.
    pub fn get_pages(&self) -> (r: &Vec<Page>)
        ensures
            r@.map_values(|p: Page| p@) == self@.pages,
    {
        &self.pages
    }

    /// The pages, for editing.
    pub fn get_pages_mut(&mut self) -> (r: &mut Vec<Page>)
        ensures
            (*r)@.map_values(|p: Page| p@) == old(self)@.pages,
            final(self)@.pages == (*final(r))@.map_values(|p: Page| p@),
            final(self).guideline == old(self).guideline,
    {
        &mut self.pages
    }

    /// Copies of the pages, in order.
    pub fn pages(&self) -> (r: Vec<Page>)
        ensures
            r@.map_values(|p: Page| p@) == self@.pages,
    {
        let mut out: Vec<Page> = Vec::new();
        let mut i: usize = 0;
        while i < self.pages.len()
            invariant
                0 <= i <= self.pages@.len(),
                out@.map_values(|p: Page| p@) == self@.pages.take(i as int),
            decreases self.pages@.len() - i,
        {
            let ghost before = out@;
            let q = self.pages[i].duplicate();
            out.push(q);
            assert(out@.map_values(|p: Page| p@) =~= before.map_values(|p: Page| p@).push(q@));
            assert(self@.pages.take(i + 1) =~= self@.pages.take(i as int).push(self.pages@[i as int]@));
            i = i + 1;
        }
        assert(self@.pages.take(i as int) =~= self@.pages);
        out
    }
}

/// No empty run is longer than 64 pages, and the count symbol that opens a run never
/// holds more than 63.
pub proof fn lemma_empty_run_bound(pages: Seq<PageView>, i: int)
    requires
        0 <= i < pages.len(),
    ensures
        run_pos(pages, i) <= 63,
        run_count(pages, i) <= 63,
        unchanged(pages, i) && run_pos(pages, i) == 0 ==> field_block(pages, i) == seq![
            118u8,
            104u8,
            sym(run_count(pages, i) as int),
        ],
{
}

/// The escape form stored for a comment is a prefix of its full escape form, at most 4095
/// bytes long, and all of it when that is no longer.
pub proof fn lemma_comment_truncation(c: Seq<char>)
    ensures
        stored_escape(c).len() <= 4095,
        stored_escape(c) == escape_text(c).take(stored_escape(c).len() as int),
        escape_text(c).len() <= 4095 ==> stored_escape(c) == escape_text(c),
{
    assert(escape_text(c).take(escape_text(c).len() as int) =~= escape_text(c));
}

} // verus!
