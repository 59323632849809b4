//! Reading the `v115` stream back into a diagram.
use vstd::prelude::*;
use crate::base64::{from_base64, val};
use crate::codec::{all_eight, empty_wire, empty_wire_grid, Fumen, FumenView};
use crate::escape::{js_unescape, unescape_units, utf16_lossy};
use crate::page::{next_page_view, rows_of, wire_rows, Page, PageView};
use crate::types::{
    color_of_value, color_value, decode_cell_color, piece_from_number, piece_of_number, CellColor,
};

verus! {

broadcast use vstd::seq_lib::group_seq_properties;

/// The error of a string that does not hold valid fumen data.
#[derive(Clone, Copy, Debug, PartialEq, Eq, Hash, Structural)]
pub struct DecodeFumenError;

impl DecodeFumenError {
    /// The human-readable form of the error.
    pub fn message(&self) -> (r: String)
        ensures
            r@ == "the string does not contain valid fumen data"@,
    {
        String::from_str("the string does not contain valid fumen data")
    }
}

/// Whether a text starts with `v115@`.
pub open spec fn has_header(s: Seq<char>) -> bool {
    s.len() >= 5 && s[0] == 'v' && s[1] == '1' && s[2] == '1' && s[3] == '5' && s[4] == '@'
}

/// The symbol values of a payload with its `?` separators dropped; `None` when another
/// character is outside the alphabet.
pub open spec fn symbols_of(s: Seq<char>) -> Option<Seq<u8>>
    decreases s.len(),
{
    if s.len() == 0 {
        Some(Seq::empty())
    } else {
        match symbols_of(s.drop_last()) {
            None => None,
            Some(v) => if s.last() == '?' {
                Some(v)
            } else {
                match val(s.last()) {
                    Some(x) => Some(v.push(x as u8)),
                    None => None,
                }
            },
        }
    }
}

/// Two symbols from `a` read as one number, low first.
pub open spec fn num2(s: Seq<u8>, a: int) -> int {
    s[a] + 64 * s[a + 1]
}

/// Three symbols from `a` read as one number, low first.
pub open spec fn num3(s: Seq<u8>, a: int) -> int {
    s[a] + 64 * s[a + 1] + 4096 * s[a + 2]
}

/// Five symbols from `a` read as one number, low first.
pub open spec fn num5(s: Seq<u8>, a: int) -> int {
    s[a] + 64 * s[a + 1] + 4096 * s[a + 2] + 262144 * s[a + 3] + 16777216 * s[a + 4]
}

/// The deltas of the cells left to fill after `filled`, read as runs from symbol `a`, and
/// the position after them; `None` when the symbols end early or a run overruns the grid.
pub open spec fn parse_runs(s: Seq<u8>, a: int, filled: nat) -> Option<(Seq<int>, int)>
    decreases 240 - filled,
{
    if filled >= 240 {
        Some((Seq::empty(), a))
    } else if a < 0 || a + 1 >= s.len() {
        None
    } else {
        let num = num2(s, a);
        let rep = num % 240 + 1;
        if filled + rep > 240 {
            None
        } else {
            match parse_runs(s, a + 2, (filled + rep) as nat) {
                None => None,
                Some((rest, e)) => Some((Seq::new(rep as nat, |k: int| num / 240) + rest, e)),
            }
        }
    }
}

/// Whether every delta applied to the wire grid `w` gives a cell value in `0..=8`.
pub open spec fn deltas_fit(w: Seq<Seq<CellColor>>, d: Seq<int>) -> bool {
    forall|k: int| 0 <= k < 240 ==> 0 <= #[trigger] color_value(w[k / 10][k % 10]) + d[k] - 8 <= 8
}

/// The wire grid `w` with the deltas applied.
pub open spec fn apply_deltas(w: Seq<Seq<CellColor>>, d: Seq<int>) -> Seq<Seq<CellColor>> {
    Seq::new(
        24,
        |y: int|
            Seq::new(10, |x: int| color_of_value(color_value(w[y][x]) + d[y * 10 + x] - 8).unwrap()),
    )
}

/// Whether all 240 deltas are 8.
pub open spec fn all_unchanged(d: Seq<int>) -> bool {
    forall|k: int| 0 <= k < 240 ==> #[trigger] d[k] == 8
}

/// `96` to the power `m`, for `m` in `0..4`.
pub open spec fn pow96(m: int) -> int {
    if m == 0 {
        1
    } else if m == 1 {
        96
    } else if m == 2 {
        9216
    } else {
        884736
    }
}

/// Where a comment block that starts at `a` ends.
pub open spec fn comment_end(s: Seq<u8>, a: int) -> int {
    a + 2 + 5 * ((num2(s, a) + 3) / 4)
}

/// Byte `k` of the escape form held by the comment block at `a`.
pub open spec fn comment_byte(s: Seq<u8>, a: int, k: int) -> u8 {
    (num5(s, a + 2 + 5 * (k / 4)) / pow96(k % 4) % 96 + 32) as u8
}

/// The escape form held by the comment block at `a`, and the position after the block.
pub open spec fn parse_comment(s: Seq<u8>, a: int) -> Option<(Seq<u8>, int)> {
    if 0 <= a && a + 1 < s.len() && comment_end(s, a) <= s.len() {
        Some((Seq::new(num2(s, a) as nat, |k: int| comment_byte(s, a, k)), comment_end(s, a)))
    } else {
        None
    }
}

/// The field part of a page at `a`: the page's wire grid, the position after the part and
/// the pages still to skip.
pub open spec fn parse_field(s: Seq<u8>, a: int, prev: Seq<Seq<CellColor>>, skips: nat) -> Option<
    (Seq<Seq<CellColor>>, int, nat),
> {
    if skips > 0 {
        Some((prev, a, (skips - 1) as nat))
    } else {
        match parse_runs(s, a, 0) {
            None => None,
            Some((d, e)) => if !deltas_fit(prev, d) {
                None
            } else if all_unchanged(d) {
                if e < s.len() {
                    Some((apply_deltas(prev, d), e + 1, s[e] as nat))
                } else {
                    None
                }
            } else {
                Some((apply_deltas(prev, d), e, 0))
            },
        }
    }
}

/// The page with wire grid `w` and the record number `n`, and comment `c`.
pub open spec fn page_from(w: Seq<Seq<CellColor>>, n: int, c: Option<Seq<char>>) -> PageView {
    let flags = n / 7680;
    PageView {
        piece: piece_of_number(n),
        rise: flags % 2 == 1,
        mirror: flags / 2 % 2 == 1,
        lock: flags / 16 % 2 == 0,
        comment: c,
        field: Seq::new(23, |y: int| w[22 - y]),
        garbage_row: w[23],
    }
}

/// One page at `a`: the page, the position after it, the pages still to skip, and the
/// guideline bit of its record.
pub open spec fn parse_page(s: Seq<u8>, a: int, prev: Seq<Seq<CellColor>>, skips: nat) -> Option<
    (PageView, int, nat, bool),
> {
    match parse_field(s, a, prev, skips) {
        None => None,
        Some((w, b, sk)) => if b + 2 >= s.len() {
            None
        } else {
            let n = num3(s, b);
            if n / 7680 / 8 % 2 == 1 {
                match parse_comment(s, b + 3) {
                    None => None,
                    Some((bytes, e)) => Some(
                        (
                            page_from(w, n, Some(utf16_lossy(unescape_units(bytes)))),
                            e,
                            sk,
                            n / 7680 / 4 % 2 == 1,
                        ),
                    ),
                }
            } else {
                Some((page_from(w, n, None), b + 3, sk, n / 7680 / 4 % 2 == 1))
            }
        },
    }
}

/// The diagram read from position `a` on, given the pages read so far.
pub open spec fn parse_from(
    s: Seq<u8>,
    a: int,
    prev: Seq<Seq<CellColor>>,
    skips: nat,
    acc: Seq<PageView>,
    guideline: bool,
) -> Option<FumenView>
    decreases s.len() - a,
{
    if a >= s.len() {
        Some(FumenView { pages: acc, guideline })
    } else {
        match parse_page(s, a, prev, skips) {
            None => None,
            Some((p, e, sk, g)) => if e <= a {
                None
            } else {
                parse_from(
                    s,
                    e,
                    wire_rows(next_page_view(p)),
                    sk,
                    acc.push(p),
                    if acc.len() == 0 { g } else { guideline },
                )
            },
        }
    }
}

/// The diagram a string holds, or `None` when it holds no valid fumen data.
pub open spec fn decoded(data: Seq<char>) -> Option<FumenView> {
    if !has_header(data) {
        None
    } else {
        match symbols_of(data.skip(5)) {
            None => None,
            Some(s) => parse_from(s, 0, empty_wire(), 0, Seq::empty(), true),
        }
    }
}


proof fn lemma_symbols_prefix_none(s: Seq<char>, j: int)
    requires
        0 <= j <= s.len(),
        symbols_of(s.take(j)) is None,
    ensures
        symbols_of(s) is None,
    decreases s.len(),
{
    if j < s.len() {
        assert(s.drop_last().take(j) == s.take(j));
        lemma_symbols_prefix_none(s.drop_last(), j);
    } else {
        assert(s.take(j) == s);
    }
}

fn symbols(data: &str) -> (r: Option<Vec<u8>>)
    requires
        data@.len() >= 5,
    ensures
        r matches Some(v) ==> symbols_of(data@.skip(5)) == Some(v@),
        r is None ==> symbols_of(data@.skip(5)) is None,
{
    let ghost p = data@.skip(5);
    let n = data.unicode_len();
    let mut out: Vec<u8> = Vec::new();
    let mut i: usize = 5;
    proof {
        assert(p.take(0) =~= Seq::<char>::empty());
    }
    while i < n
        invariant
            5 <= i <= n,
            n == data@.len(),
            p == data@.skip(5),
            symbols_of(p.take(i - 5)) == Some(out@),
        decreases n - i,
    {
        let c = data.get_char(i);
        proof {
            assert(p.take(i + 1 - 5).drop_last() == p.take(i - 5));
            assert(p.take(i + 1 - 5).last() == c);
        }
        if c != '?' {
            match from_base64(c) {
                Some(v) => out.push(v as u8),
                None => {
                    proof {
                        lemma_symbols_prefix_none(p, i + 1 - 5);
                    }
                    return None;
                },
            }
        }
        i = i + 1;
    }
    proof {
        assert(p.take(n - 5) == p);
    }
    Some(out)
}

/// `pre` put before the deltas of a run parse, if it succeeded.
pub open spec fn prepend_runs(pre: Seq<int>, o: Option<(Seq<int>, int)>) -> Option<(Seq<int>, int)> {
    match o {
        Some((r, e)) => Some((pre + r, e)),
        None => None,
    }
}

/// The 240 cells of a delta grid, row by row.
pub open spec fn flat(d: [[usize; 10]; 24]) -> Seq<int> {
    Seq::new(240, |k: int| d[k / 10][k % 10] as int)
}

fn decode_runs(s: &Vec<u8>, a: usize) -> (r: Option<([[usize; 10]; 24], usize)>)
    requires
        forall|k: int| 0 <= k < s@.len() ==> #[trigger] s@[k] < 64,
    ensures
        r matches Some((d, e)) ==> parse_runs(s@, a as int, 0) == Some((flat(d), e as int)),
        r is None ==> parse_runs(s@, a as int, 0) is None,
{
    let mut d = [[0usize; 10]; 24];
    let mut filled: usize = 0;
    let mut at: usize = a;
    let n = s.len();
    proof {
        assert(flat(d).take(0) =~= Seq::<int>::empty());
        assert(prepend_runs(Seq::empty(), parse_runs(s@, a as int, 0)) =~~= parse_runs(s@, a as int, 0));
    }
    while filled < 240
        invariant
            0 <= filled <= 240,
            n == s@.len(),
            a <= at,
            forall|k: int| 0 <= k < s@.len() ==> #[trigger] s@[k] < 64,
            parse_runs(s@, a as int, 0) == prepend_runs(flat(d).take(filled as int), parse_runs(s@, at as int, filled as nat)),
        decreases 240 - filled,
    {
        if at >= n || n - at < 2 {
            return None;
        }
        let num = s[at] as usize + 64 * s[at + 1] as usize;
        let value = num / 240;
        let rep = num % 240 + 1;
        if filled + rep > 240 {
            return None;
        }
        let ghost before = flat(d).take(filled as int);
        let ghost f0 = filled;
        let mut j: usize = 0;
        while j < rep
            invariant
                0 <= j <= rep,
                f0 + rep <= 240,
                filled == f0 + j,
                before.len() == f0,
                flat(d).take(filled as int) == before + Seq::new(j as nat, |k: int| value as int),
            decreases rep - j,
        {
            let ghost old_flat = flat(d);
            let ghost old_d = d;
            let mut row = d[filled / 10];
            row[filled % 10] = value;
            d[filled / 10] = row;
            proof {
                assert forall|k: int| 0 <= k < filled implies #[trigger] flat(d)[k] == old_flat[k] by {
                    if k / 10 == filled / 10 {
                        assert(k % 10 != filled % 10);
                        assert(d[k / 10][k % 10] == old_d[k / 10][k % 10]);
                    } else {
                        assert(d[k / 10] == old_d[k / 10]);
                    }
                }
                assert(flat(d)[filled as int] == value as int);
                let lhs = flat(d).take(filled + 1);
                let rhs = before + Seq::new((j + 1) as nat, |k: int| value as int);
                let mid = before + Seq::new(j as nat, |k: int| value as int);
                assert(old_flat.take(filled as int) == mid);
                assert forall|k: int| 0 <= k < filled + 1 implies lhs[k] == rhs[k] by {
                    if k < filled {
                        assert(old_flat.take(filled as int)[k] == mid[k]);
                        assert(mid[k] == rhs[k]);
                    }
                }
                assert(lhs.len() == rhs.len());
                assert(flat(d).take(filled + 1) =~= before + Seq::new((j + 1) as nat, |k: int| value as int));
            }
            filled = filled + 1;
            j = j + 1;
        }
        proof {
            let pre = before;
            let mid = Seq::new(rep as nat, |k: int| value as int);
            assert(num as int == num2(s@, at as int));
            assert(mid =~= Seq::new((num as int % 240 + 1) as nat, |k: int| num as int / 240));
            match parse_runs(s@, at + 2, filled as nat) {
                Some((rest, e)) => {
                    assert(pre + (mid + rest) =~= (pre + mid) + rest);
                },
                None => {},
            }
        }
        at = at + 2;
    }
    proof {
        assert(flat(d).take(240) =~= flat(d));
        match parse_runs(s@, at as int, 240) {
            Some((rest, e)) => {
                assert(rest =~= Seq::<int>::empty());
                assert(flat(d) + rest =~= flat(d));
            },
            None => {},
        }
    }
    Some((d, at))
}


fn apply(prev: &[[CellColor; 10]; 24], d: &[[usize; 10]; 24]) -> (r: Option<[[CellColor; 10]; 24]>)
    requires
        forall|y: int, x: int| 0 <= y < 24 && 0 <= x < 10 ==> #[trigger] d[y][x] < 64,
    ensures
        r matches Some(w) ==> deltas_fit(rows_of(*prev), flat(*d)) && rows_of(w) == apply_deltas(
            rows_of(*prev),
            flat(*d),
        ),
        r is None ==> !deltas_fit(rows_of(*prev), flat(*d)),
{
    let ghost pw = rows_of(*prev);
    let ghost fd = flat(*d);
    let mut out = *prev;
    let mut y: usize = 0;
    while y < 24
        invariant
            0 <= y <= 24,
            pw == rows_of(*prev),
            fd == flat(*d),
            forall|yy: int, x: int| 0 <= yy < 24 && 0 <= x < 10 ==> #[trigger] d[yy][x] < 64,
            forall|k: int| 0 <= k < 10 * y ==> 0 <= #[trigger] color_value(pw[k / 10][k % 10]) + fd[k] - 8 <= 8,
            forall|yy: int, x: int|
                0 <= yy < y && 0 <= x < 10 ==> Some(#[trigger] out[yy][x]) == color_of_value(
                    color_value(prev[yy][x]) + d[yy][x] - 8,
                ),
        decreases 24 - y,
    {
        let mut row = prev[y];
        let mut x: usize = 0;
        while x < 10
            invariant
                0 <= x <= 10,
                0 <= y < 24,
                pw == rows_of(*prev),
                fd == flat(*d),
                forall|yy: int, xx: int| 0 <= yy < 24 && 0 <= xx < 10 ==> #[trigger] d[yy][xx] < 64,
                forall|k: int| 0 <= k < 10 * y + x ==> 0 <= #[trigger] color_value(pw[k / 10][k % 10]) + fd[k] - 8 <= 8,
                forall|xx: int| 0 <= xx < x ==> Some(#[trigger] row[xx]) == color_of_value(
                    color_value(prev[y as int][xx]) + d[y as int][xx] - 8,
                ),
            decreases 10 - x,
        {
            let v = d[y][x] + prev[y][x].value() as usize;
            proof {
                let k = 10 * y + x;
                assert(k / 10 == y && k % 10 == x);
                assert(fd[k] == d[y as int][x as int]);
                assert(pw[y as int][x as int] == prev[y as int][x as int]);
            }
            if v < 8 {
                return None;
            }
            match decode_cell_color(v - 8) {
                Some(c) => row[x] = c,
                None => return None,
            }
            x = x + 1;
        }
        out[y] = row;
        y = y + 1;
    }
    proof {
        assert forall|yy: int| 0 <= yy < 24 implies #[trigger] rows_of(out)[yy] =~= apply_deltas(pw, fd)[yy] by {
            assert forall|x: int| 0 <= x < 10 implies out[yy][x] == apply_deltas(pw, fd)[yy][x] by {
                let k = yy * 10 + x;
                assert(k / 10 == yy && k % 10 == x);
            }
        }
        assert(rows_of(out) =~= apply_deltas(pw, fd));
    }
    Some(out)
}

fn decode_comment(s: &Vec<u8>, a: usize) -> (r: Option<(Vec<u8>, usize)>)
    requires
        forall|k: int| 0 <= k < s@.len() ==> #[trigger] s@[k] < 64,
    ensures
        r matches Some((b, e)) ==> parse_comment(s@, a as int) == Some((b@, e as int)),
        r is None ==> parse_comment(s@, a as int) is None,
{
    let n = s.len();
    if a >= n || n - a < 2 {
        return None;
    }
    let len = s[a] as usize + 64 * s[a + 1] as usize;
    let groups = (len + 3) / 4;
    if n - a - 2 < 5 * groups {
        return None;
    }
    let ghost sv = s@;
    let mut out: Vec<u8> = Vec::new();
    let mut k: usize = 0;
    while k < len
        invariant
            0 <= k <= len,
            len == num2(sv, a as int),
            sv == s@,
            n == sv.len(),
            groups == (len + 3) / 4,
            a + 2 + 5 * groups <= n,
            forall|j: int| 0 <= j < sv.len() ==> #[trigger] sv[j] < 64,
            out@ == Seq::new(k as nat, |j: int| comment_byte(sv, a as int, j)),
        decreases len - k,
    {
        let g = a + 2 + 5 * (k / 4);
        let v: u64 = s[g] as u64 + 64 * s[g + 1] as u64 + 4096 * s[g + 2] as u64 + 262144 * s[g + 3] as u64
            + 16777216 * s[g + 4] as u64;
        let m = k % 4;
        let p: u64 = if m == 0 {
            1
        } else if m == 1 {
            96
        } else if m == 2 {
            9216
        } else {
            884736
        };
        let b = (v / p % 96 + 32) as u8;
        proof {
            assert(v as int == num5(sv, g as int));
            assert(p as int == pow96(m as int));
            assert(b == comment_byte(sv, a as int, k as int));
        }
        out.push(b);
        assert(out@ =~= Seq::new((k + 1) as nat, |j: int| comment_byte(sv, a as int, j)));
        k = k + 1;
    }
    Some((out, a + 2 + 5 * groups))
}


fn page_from_wire(w: &[[CellColor; 10]; 24], n: usize, comment: Option<String>) -> (r: Page)
    ensures
        r@ == page_from(
            rows_of(*w),
            n as int,
            match comment {
                Some(c) => Some(c@),
                None => None,
            },
        ),
{
    let mut field = [[CellColor::Empty; 10]; 23];
    let mut y: usize = 0;
    while y < 23
        invariant
            0 <= y <= 23,
            forall|k: int| 0 <= k < y ==> #[trigger] field[k] == w[22 - k],
        decreases 23 - y,
    {
        field[y] = w[22 - y];
        y = y + 1;
    }
    let flags = n / 7680;
    let r = Page {
        piece: piece_from_number(n),
        rise: flags % 2 == 1,
        mirror: flags / 2 % 2 == 1,
        lock: flags / 16 % 2 == 0,
        comment,
        field,
        garbage_row: w[23],
    };
    assert(r@.field =~= page_from(rows_of(*w), n as int, r@.comment).field);
    r
}

fn decode_field(s: &Vec<u8>, a: usize, prev: &[[CellColor; 10]; 24], skips: usize) -> (r: Option<
    ([[CellColor; 10]; 24], usize, usize),
>)
    requires
        forall|k: int| 0 <= k < s@.len() ==> #[trigger] s@[k] < 64,
        a <= s@.len(),
    ensures
        r matches Some((w, b, sk)) ==> parse_field(s@, a as int, rows_of(*prev), skips as nat) == Some(
            (rows_of(w), b as int, sk as nat),
        ) && a <= b <= s@.len(),
        r is None ==> parse_field(s@, a as int, rows_of(*prev), skips as nat) is None,
{
    if skips > 0 {
        return Some((*prev, a, skips - 1));
    }
    let (d, e) = match decode_runs(s, a) {
        Some(x) => x,
        None => return None,
    };
    proof {
        assert forall|y: int, x: int| 0 <= y < 24 && 0 <= x < 10 implies #[trigger] d[y][x] < 64 by {
            lemma_runs_values(s@, a as int, 0);
            assert(flat(d)[y * 10 + x] == d[y][x]);
        }
        lemma_runs_bounds(s@, a as int, 0);
    }
    let w = match apply(prev, &d) {
        Some(w) => w,
        None => return None,
    };
    if all_eight(&d) {
        proof {
            assert forall|k: int| 0 <= k < 240 implies #[trigger] flat(d)[k] == 8 by {
                assert(d[k / 10][k % 10] == 8);
            }
        }
        if e < s.len() {
            Some((w, e + 1, s[e] as usize))
        } else {
            None
        }
    } else {
        proof {
            let k = choose|k: int| 0 <= k < 240 && #[trigger] d[k / 10][k % 10] != 8;
            assert(flat(d)[k] != 8);
        }
        Some((w, e, 0))
    }
}

proof fn lemma_runs_values(s: Seq<u8>, a: int, filled: nat)
    requires
        forall|k: int| 0 <= k < s.len() ==> #[trigger] s[k] < 64,
    ensures
        parse_runs(s, a, filled) matches Some((d, e)) ==> forall|k: int| 0 <= k < d.len() ==> 0 <= #[trigger] d[k] < 64,
    decreases 240 - filled,
{
    if filled < 240 && 0 <= a && a + 1 < s.len() {
        let num = num2(s, a);
        let rep = num % 240 + 1;
        if filled + rep <= 240 {
            lemma_runs_values(s, a + 2, (filled + rep) as nat);
        }
    }
}

proof fn lemma_runs_bounds(s: Seq<u8>, a: int, filled: nat)
    requires
        0 <= a,
    ensures
        parse_runs(s, a, filled) matches Some((d, e)) ==> a <= e <= s.len() || (filled >= 240 && e == a),
    decreases 240 - filled,
{
    if filled < 240 && 0 <= a && a + 1 < s.len() {
        let num = num2(s, a);
        let rep = num % 240 + 1;
        if filled + rep <= 240 {
            lemma_runs_bounds(s, a + 2, (filled + rep) as nat);
        }
    }
}


fn decode_page(s: &Vec<u8>, a: usize, prev: &[[CellColor; 10]; 24], skips: usize) -> (r: Option<
    (Page, usize, usize, bool),
>)
    requires
        forall|k: int| 0 <= k < s@.len() ==> #[trigger] s@[k] < 64,
        a <= s@.len(),
    ensures
        r matches Some((p, e, sk, g)) ==> parse_page(s@, a as int, rows_of(*prev), skips as nat)
            == Some((p@, e as int, sk as nat, g)) && a < e <= s@.len(),
        r is None ==> parse_page(s@, a as int, rows_of(*prev), skips as nat) is None,
{
    let n = s.len();
    let (w, b, sk) = match decode_field(s, a, prev, skips) {
        Some(x) => x,
        None => return None,
    };
    if b >= n || n - b < 3 {
        return None;
    }
    let num = s[b] as usize + 64 * s[b + 1] as usize + 4096 * s[b + 2] as usize;
    let g = num / 7680 / 4 % 2 == 1;
    if num / 7680 / 8 % 2 == 1 {
        match decode_comment(s, b + 3) {
            None => None,
            Some((bytes, e)) => {
                let text = js_unescape(&bytes);
                let p = page_from_wire(&w, num, Some(text));
                Some((p, e, sk, g))
            },
        }
    } else {
        let p = page_from_wire(&w, num, None);
        Some((p, b + 3, sk, g))
    }
}

impl Fumen {
    /// Reads a diagram back from its encoded form; fails exactly when the string holds no
    /// valid fumen data (see `decoded`).
    pub fn decode(data: &str) -> (r: Result<Fumen, DecodeFumenError>)
        ensures
            r matches Ok(f) ==> decoded(data@) == Some(f@),
            r is Err <==> decoded(data@) is None,
    {
        match Fumen::decode_opt(data) {
            Some(f) => Ok(f),
            None => Err(DecodeFumenError),
        }
    }

    fn decode_opt(data: &str) -> (r: Option<Fumen>)
        ensures
            r matches Some(f) ==> decoded(data@) == Some(f@),
            r is None ==> decoded(data@) is None,
    {
        let len = data.unicode_len();
        if len < 5 {
            return None;
        }
        if !(data.get_char(0) == 'v' && data.get_char(1) == '1' && data.get_char(2) == '1'
            && data.get_char(3) == '5' && data.get_char(4) == '@') {
            return None;
        }
        let s = match symbols(data) {
            Some(s) => s,
            None => return None,
        };
        proof {
            lemma_symbols_in_range(data@.skip(5));
        }
        let ghost sv = s@;
        let ghost goal = parse_from(sv, 0, empty_wire(), 0, Seq::empty(), true);
        let n = s.len();
        let mut fumen = Fumen { pages: Vec::new(), guideline: true };
        let mut prev = empty_wire_grid();
        let mut skips: usize = 0;
        let mut at: usize = 0;
        proof {
            assert(fumen@.pages =~= Seq::<PageView>::empty());
        }
        while at < n
            invariant
                sv == s@,
                n == sv.len(),
                at <= n,
                forall|k: int| 0 <= k < sv.len() ==> #[trigger] sv[k] < 64,
                decoded(data@) == goal,
                goal == parse_from(sv, 0, empty_wire(), 0, Seq::empty(), true),
                parse_from(sv, at as int, rows_of(prev), skips as nat, fumen@.pages, fumen.guideline)
                    == goal,
            decreases n - at,
        {
            match decode_page(&s, at, &prev, skips) {
                None => return None,
                Some((p, e, sk, g)) => {
                    if fumen.pages.len() == 0 {
                        fumen.guideline = g;
                    }
                    prev = p.next_page().fumen_field();
                    let ghost before = fumen@.pages;
                    fumen.pages.push(p);
                    proof {
                        assert(fumen@.pages =~= before.push(p@));
                    }
                    at = e;
                    skips = sk;
                },
            }
        }
        Some(fumen)
    }
}

proof fn lemma_symbols_in_range(s: Seq<char>)
    ensures
        symbols_of(s) matches Some(v) ==> forall|k: int| 0 <= k < v.len() ==> #[trigger] v[k] < 64,
    decreases s.len(),
{
    if s.len() > 0 {
        lemma_symbols_in_range(s.drop_last());
    }
}


} // verus!
