//! Decoding an encoded diagram gives the diagram back.
use vstd::prelude::*;
use crate::base64::{lemma_sym_round_trip, sym, val};
use crate::codec::{
    baseline, chars_of, comment_block, comment_bytes, stored_escape, deltas_of, emit_runs, encoding, field_block, flag_bits,
    header, lemma_unchanged_from, page_bytes, page_deltas, page_number, pages_bytes, piece_part,
    record, run_count, run_pos, runs, runs_from, syms2, syms3, unchanged, unchanged_from, Fumen,
    FumenView,
};
use crate::decode::{
    all_unchanged, apply_deltas, decoded, deltas_fit, has_header, num2, num3, page_from,
    parse_comment, parse_field, parse_from, parse_page, parse_runs, symbols_of,
};
use crate::page::{lemma_next_well_shaped, well_shaped, wire_rows, PageView};
use crate::comment_block::lemma_comment_block_round_trip;
use crate::escape::{escape_text, lemma_escape_printable, printable, unescape_units, utf16_lossy};
use crate::types::{
    color_value, lemma_color_value_round_trip, lemma_piece_number_round_trip, on_grid,
    piece_of_number, CellColor,
};

verus! {

broadcast use vstd::seq_lib::group_seq_properties;

/// The symbol value of each byte of an encoded string.
pub open spec fn sym_values(b: Seq<u8>) -> Seq<u8> {
    b.map_values(|x: u8| val(x as char).unwrap() as u8)
}

/// Whether every byte is one of the 64 symbols.
pub open spec fn all_syms(b: Seq<u8>) -> bool {
    forall|k: int| 0 <= k < b.len() ==> (#[trigger] val(b[k] as char)) is Some
}

/// The symbol bytes of a string of symbols are read back as their values.
pub proof fn lemma_symbols_of_chars(b: Seq<u8>)
    requires
        all_syms(b),
    ensures
        symbols_of(chars_of(b)) == Some(sym_values(b)),
    decreases b.len(),
{
    if b.len() > 0 {
        let c = chars_of(b);
        assert(c.drop_last() =~= chars_of(b.drop_last()));
        assert(all_syms(b.drop_last())) by {
            assert forall|k: int| 0 <= k < b.drop_last().len() implies (#[trigger] val(
                b.drop_last()[k] as char,
            )) is Some by {
                assert(b.drop_last()[k] == b[k]);
            }
        }
        lemma_symbols_of_chars(b.drop_last());
        assert(val(b[b.len() - 1] as char) is Some);
        assert(c.last() == b.last() as char);
        assert(c.last() != '?');
        assert(sym_values(b) =~= sym_values(b.drop_last()).push(val(c.last()).unwrap() as u8));
    } else {
        assert(chars_of(b) =~= Seq::<char>::empty());
        assert(sym_values(b) =~= Seq::<u8>::empty());
    }
}

/// The values of two symbols written for `n` in `0..4096` read back as `n`.
pub proof fn lemma_syms2(n: int)
    requires
        0 <= n < 4096,
    ensures
        sym_values(syms2(n)).len() == 2,
        num2(sym_values(syms2(n)), 0) == n,
        all_syms(syms2(n)),
{
    lemma_sym_round_trip(n % 64);
    lemma_sym_round_trip(n / 64 % 64);
    let v = sym_values(syms2(n));
    assert(v[0] == n % 64 && v[1] == n / 64 % 64);
    assert(syms2(n)[0] == sym(n % 64));
    assert(syms2(n)[1] == sym(n / 64 % 64));
}

/// The values of three symbols written for `n` in `0..262144` read back as `n`.
pub proof fn lemma_syms3(n: int)
    requires
        0 <= n < 262144,
    ensures
        sym_values(syms3(n)).len() == 3,
        num3(sym_values(syms3(n)), 0) == n,
        all_syms(syms3(n)),
{
    lemma_sym_round_trip(n % 64);
    lemma_sym_round_trip(n / 64 % 64);
    lemma_sym_round_trip(n / 4096 % 64);
    let v = sym_values(syms3(n));
    assert(v[0] == n % 64 && v[1] == n / 64 % 64 && v[2] == n / 4096 % 64);
    assert(syms3(n)[0] == sym(n % 64));
    assert(syms3(n)[1] == sym(n / 64 % 64));
    assert(syms3(n)[2] == sym(n / 4096 % 64));
}


proof fn lemma_sym_values_concat(x: Seq<u8>, y: Seq<u8>)
    ensures
        sym_values(x + y) == sym_values(x) + sym_values(y),
{
    assert(sym_values(x + y) =~= sym_values(x) + sym_values(y));
}

pub(crate) proof fn lemma_all_syms_concat(x: Seq<u8>, y: Seq<u8>)
    requires
        all_syms(x),
        all_syms(y),
    ensures
        all_syms(x + y),
{
    assert forall|k: int| 0 <= k < (x + y).len() implies (#[trigger] val((x + y)[k] as char)) is Some by {
        if k < x.len() {
            assert((x + y)[k] == x[k]);
        } else {
            assert((x + y)[k] == y[k - x.len()]);
        }
    }
}

/// Whether `e` stands in `s` from position `a` on.
pub open spec fn stands_at(s: Seq<u8>, a: int, e: Seq<u8>) -> bool {
    0 <= a && a + e.len() <= s.len() && s.subrange(a, a + e.len()) == e
}

proof fn lemma_runs_parse(s: Seq<u8>, a: int, d: Seq<int>, k: int, v: int, c: int)
    requires
        d.len() == 240,
        1 <= c <= k <= 240,
        0 <= v <= 16,
        forall|t: int| k - c <= t < k ==> d[t] == v,
        forall|t: int| 0 <= t < 240 ==> 0 <= #[trigger] d[t] <= 16,
        stands_at(s, a, sym_values(emit_runs(runs_from(d, k, v, c)))),
    ensures
        parse_runs(s, a, (k - c) as nat) == Some(
            (d.subrange(k - c, 240), a + sym_values(emit_runs(runs_from(d, k, v, c))).len()),
        ),
        all_syms(emit_runs(runs_from(d, k, v, c))),
    decreases 240 - k,
{
    let e = emit_runs(runs_from(d, k, v, c));
    let num = v * 240 + c - 1;
    assert(0 <= num < 4096);
    assert(num / 240 == v && num % 240 == c - 1) by (nonlinear_arith)
        requires
            num == v * 240 + c - 1,
            1 <= c <= 240,
            0 <= v,
    ;
    lemma_syms2(num);
    if k >= 240 {
        assert((seq![(v, c)]).skip(1) =~= Seq::<(int, int)>::empty());
        assert(e == syms2(num) + emit_runs(Seq::<(int, int)>::empty()));
        assert(e =~= syms2(num));
        assert(s.subrange(a, a + 2) == sym_values(syms2(num)));
        assert(num2(s, a) == num2(sym_values(syms2(num)), 0));
        assert(parse_runs(s, a + 2, 240) == Some((Seq::<int>::empty(), a + 2)));
        assert(Seq::new(c as nat, |t: int| num / 240) + Seq::<int>::empty() =~= d.subrange(k - c, 240));
    } else if d[k] == v {
        lemma_runs_parse(s, a, d, k + 1, v, c + 1);
    } else {
        let rest = runs_from(d, k + 1, d[k], 1);
        assert((seq![(v, c)] + rest).skip(1) =~= rest);
        let er = emit_runs(rest);
        assert(e == syms2(num) + er);
        lemma_sym_values_concat(syms2(num), er);
        assert(s.subrange(a, a + 2) =~= sym_values(syms2(num)));
        assert(num2(s, a) == num2(sym_values(syms2(num)), 0));
        let big = sym_values(e);
        assert(big == sym_values(syms2(num)) + sym_values(er));
        assert(s.subrange(a, a + big.len()) == big);
        assert(s.subrange(a + 2, a + 2 + sym_values(er).len()) =~= big.subrange(2, big.len() as int));
        assert(big.subrange(2, big.len() as int) =~= sym_values(er));
        lemma_runs_parse(s, a + 2, d, k + 1, d[k], 1);
        assert(Seq::new(c as nat, |t: int| num / 240) + d.subrange(k, 240) =~= d.subrange(k - c, 240));
        lemma_all_syms_concat(syms2(num), er);
    }
}

/// The run-length symbols of 240 deltas in `0..=16` are read back as those deltas.
pub proof fn lemma_rle_round_trip(s: Seq<u8>, a: int, d: Seq<int>)
    requires
        d.len() == 240,
        forall|t: int| 0 <= t < 240 ==> 0 <= #[trigger] d[t] <= 16,
        stands_at(s, a, sym_values(emit_runs(runs(d)))),
    ensures
        parse_runs(s, a, 0) == Some((d, a + sym_values(emit_runs(runs(d))).len())),
        all_syms(emit_runs(runs(d))),
{
    lemma_runs_parse(s, a, d, 1, d[0], 1);
    assert(d.subrange(0, 240) =~= d);
}


/// The pages the decoder still skips after page `j`: the rest of the empty run `j` is in.
pub open spec fn skips_after(pages: Seq<PageView>, j: int) -> nat {
    if unchanged(pages, j) {
        let p = run_pos(pages, j);
        let c = run_count(pages, j - p);
        if c > p {
            (c - p) as nat
        } else {
            0
        }
    } else {
        0
    }
}

/// The pages the decoder still skips when it reaches page `i`.
pub open spec fn skips_before(pages: Seq<PageView>, i: int) -> nat {
    if i == 0 {
        0
    } else {
        skips_after(pages, i - 1)
    }
}

proof fn lemma_run_chain(pages: Seq<PageView>, x: int)
    requires
        0 <= x,
    ensures
        run_pos(pages, x) <= x,
        run_pos(pages, x) <= 63,
        forall|u: int| x - run_pos(pages, x) <= u < x ==> unchanged(pages, u),
        run_pos(pages, x - run_pos(pages, x)) == 0,
    decreases x,
{
    if x > 0 && unchanged(pages, x - 1) && run_pos(pages, x - 1) < 63 {
        lemma_run_chain(pages, x - 1);
    }
}

proof fn lemma_unchanged_prefix(pages: Seq<PageView>, a: int, m: nat)
    requires
        0 <= a,
        unchanged_from(pages, a) >= m,
    ensures
        forall|u: int| a <= u < a + m ==> #[trigger] unchanged(pages, u) && u < pages.len(),
    decreases m,
{
    if m > 0 {
        assert(a < pages.len() && unchanged(pages, a));
        lemma_unchanged_prefix(pages, a + 1, (m - 1) as nat);

    }
}

proof fn lemma_skip_continues(pages: Seq<PageView>, i: int)
    requires
        0 < i < pages.len(),
        skips_before(pages, i) > 0,
    ensures
        unchanged(pages, i),
        run_pos(pages, i) > 0,
        skips_after(pages, i) == skips_before(pages, i) - 1,
{
    let j = i - 1;
    let p = run_pos(pages, j);
    let st = j - p;
    lemma_run_chain(pages, j);
    let c = run_count(pages, st);
    assert(c > p);
    assert(run_pos(pages, i) == p + 1);
    lemma_unchanged_prefix(pages, st + 1, (p + 1) as nat);
    assert(unchanged(pages, st + 1 + p));
    assert(i - run_pos(pages, i) == st);
}

proof fn lemma_run_opens(pages: Seq<PageView>, i: int)
    requires
        0 <= i < pages.len(),
        skips_before(pages, i) == 0,
        unchanged(pages, i),
    ensures
        run_pos(pages, i) == 0,
        skips_after(pages, i) == run_count(pages, i),
{
    if run_pos(pages, i) > 0 {
        let j = i - 1;
        let p = run_pos(pages, j);
        let st = j - p;
        lemma_run_chain(pages, j);
        assert forall|u: int| st + 1 <= u < i + 1 implies unchanged(pages, u) by {}
        lemma_unchanged_from(pages, st + 1, i + 1);
        assert(false);
    }
}

/// Whether a wire grid has 24 rows of ten cells.
pub open spec fn wire_shaped(w: Seq<Seq<CellColor>>) -> bool {
    w.len() == 24 && forall|y: int| 0 <= y < 24 ==> (#[trigger] w[y]).len() == 10
}

/// Whether page `i` and the page before it have page shape.
#[verifier::opaque]
pub open spec fn shaped_at(pages: Seq<PageView>, i: int) -> bool {
    well_shaped(pages[i]) && (i > 0 ==> well_shaped(pages[i - 1]))
}

/// Whether page `i` and the page before it are plain.
#[verifier::opaque]
pub open spec fn plain_at(pages: Seq<PageView>, i: int) -> bool {
    plain_page(pages[i]) && (i > 0 ==> plain_page(pages[i - 1]))
}

proof fn lemma_baseline_shaped(pages: Seq<PageView>, i: int)
    requires
        0 <= i < pages.len(),
        shaped_at(pages, i),
    ensures
        wire_shaped(baseline(pages, i)),
        wire_shaped(wire_rows(pages[i])),
{
    reveal(shaped_at);
    if i > 0 {
        lemma_next_well_shaped(pages[i - 1]);
    }
}

proof fn lemma_apply_deltas(prev: Seq<Seq<CellColor>>, cur: Seq<Seq<CellColor>>)
    requires
        wire_shaped(prev),
        wire_shaped(cur),
    ensures
        deltas_fit(prev, deltas_of(prev, cur)),
        apply_deltas(prev, deltas_of(prev, cur)) == cur,
        forall|k: int| 0 <= k < 240 ==> 0 <= #[trigger] deltas_of(prev, cur)[k] <= 16,
        all_unchanged(deltas_of(prev, cur)) ==> prev == cur,
{
    let d = deltas_of(prev, cur);
    assert forall|k: int| 0 <= k < 240 implies 0 <= #[trigger] color_value(prev[k / 10][k % 10]) + d[k] - 8
        <= 8 && 0 <= d[k] <= 16 by {
        lemma_color_value_round_trip(prev[k / 10][k % 10]);
        lemma_color_value_round_trip(cur[k / 10][k % 10]);
    }
    let a = apply_deltas(prev, d);
    assert forall|y: int| 0 <= y < 24 implies #[trigger] a[y] =~= cur[y] by {
        assert forall|x: int| 0 <= x < 10 implies a[y][x] == cur[y][x] by {
            let k = y * 10 + x;
            assert(k / 10 == y && k % 10 == x);
            lemma_color_value_round_trip(cur[y][x]);
        }
    }
    assert(a =~= cur);
    if all_unchanged(d) {
        assert forall|y: int| 0 <= y < 24 implies #[trigger] prev[y] =~= cur[y] by {
            assert forall|x: int| 0 <= x < 10 implies prev[y][x] == cur[y][x] by {
                let k = y * 10 + x;
                assert(k / 10 == y && k % 10 == x);
                assert(d[k] == 8);
                lemma_color_value_round_trip(cur[y][x]);
                lemma_color_value_round_trip(prev[y][x]);
            }
        }
        assert(prev =~= cur);
    }
}

/// The field part written for page `i` is read back, from the decoder's state before page
/// `i`, as page `i`'s wire grid, leaving the decoder's state after page `i`.
pub proof fn lemma_field_round_trip(pages: Seq<PageView>, i: int, s: Seq<u8>, a: int)
    requires
        0 <= i < pages.len(),
        shaped_at(pages, i),
        stands_at(s, a, sym_values(field_block(pages, i))),
    ensures
        parse_field(s, a, baseline(pages, i), skips_before(pages, i)) == Some(
            (wire_rows(pages[i]), a + field_block(pages, i).len(), skips_after(pages, i)),
        ),
        all_syms(field_block(pages, i)),
{
    let prev = baseline(pages, i);
    let cur = wire_rows(pages[i]);
    lemma_baseline_shaped(pages, i);
    lemma_apply_deltas(prev, cur);
    let d = page_deltas(pages, i);
    assert(d == deltas_of(prev, cur));
    assert(unchanged(pages, i) <==> all_unchanged(d));
    if skips_before(pages, i) > 0 {
        lemma_skip_continues(pages, i);
        assert(field_block(pages, i) =~= Seq::<u8>::empty());
        assert(all_syms(field_block(pages, i)));
    } else if unchanged(pages, i) {
        lemma_run_opens(pages, i);
        let c = run_count(pages, i);
        let fb = field_block(pages, i);
        assert(fb == seq![118u8, 104u8, sym(c as int)]);
        crate::base64::lemma_sym_round_trip(c as int);
        let v = sym_values(fb);
        assert(v[0] == 47 && v[1] == 33 && v[2] == c);
        assert(s[a] == v[0] && s[a + 1] == v[1] && s[a + 2] == v[2]) by {
            assert(s.subrange(a, a + 3) == v);
            assert(s.subrange(a, a + 3)[0] == s[a]);
            assert(s.subrange(a, a + 3)[1] == s[a + 1]);
            assert(s.subrange(a, a + 3)[2] == s[a + 2]);
        }
        assert(num2(s, a) == 2159);
        assert(parse_runs(s, a + 2, 240) == Some((Seq::<int>::empty(), a + 2)));
        let eights = Seq::new(240, |k: int| 8int);
        assert(Seq::new(240, |k: int| 2159int / 240) + Seq::<int>::empty() =~= eights);
        assert(parse_runs(s, a, 0) == Some((eights, a + 2)));
        assert(eights =~= d) by {
            assert forall|k: int| 0 <= k < 240 implies d[k] == 8 by {
                assert(d[k] == 8);
            }
        }
        assert(all_syms(fb)) by {
            assert(val(fb[0] as char) is Some);
            assert(val(fb[1] as char) is Some);
        }
    } else {
        lemma_rle_round_trip(s, a, d);
    }
}

/// Whether decoding the stored escape form of a comment as UTF-16 gives the comment back.
pub open spec fn comment_survives(c: Seq<char>) -> bool {
    utf16_lossy(unescape_units(stored_escape(c))) == c
}

/// Whether a page is one that the round trip here covers: it has page shape, its piece
/// (if any) has its fumen centre on the grid, and its comment (if any) survives.
pub open spec fn plain_page(p: PageView) -> bool {
    &&& well_shaped(p)
    &&& (p.piece matches Some(q) ==> on_grid(q))
    &&& (p.comment matches Some(c) ==> comment_survives(c))
}

proof fn lemma_piece_bits(pp: int, f: int)
    requires
        0 <= pp < 7680,
        0 <= f,
    ensures
        piece_of_number(pp + 7680 * f) == piece_of_number(pp),
        (pp + 7680 * f) / 7680 == f,
{
    let n = pp + 7680 * f;
    assert(n % 8 == pp % 8 && n / 8 % 4 == pp / 8 % 4 && n / 32 % 240 == pp / 32 % 240 && n / 7680 == f)
        by (nonlinear_arith)
        requires
            n == pp + 7680 * f,
            0 <= pp < 7680,
            0 <= f,
    ;
}

/// The record written for a plain page is read back as that page, with the guideline bit
/// it was written with.
pub proof fn lemma_record_round_trip(p: PageView, g: bool)
    requires
        plain_page(p),
    ensures
        0 <= page_number(p, g) < 262144,
        page_from(wire_rows(p), page_number(p, g), p.comment) == p,
        (page_number(p, g) / 7680 / 4 % 2 == 1) == g,
        (page_number(p, g) / 7680 / 8 % 2 == 1) == (p.comment is Some),
{
    let pp = piece_part(p);
    let f = flag_bits(p, g);
    match p.piece {
        Some(q) => {
            lemma_piece_number_round_trip(q);
        },
        None => {},
    }
    assert(0 <= pp < 7680);
    assert(0 <= f < 32);
    lemma_piece_bits(pp, f);
    let n = page_number(p, g);
    assert(piece_of_number(n) == p.piece);
    let w = wire_rows(p);
    let v = page_from(w, n, p.comment);
    assert(v.field =~= p.field);
    assert(v == p);
}

pub(crate) proof fn lemma_split_stands(s: Seq<u8>, a: int, x: Seq<u8>, y: Seq<u8>)
    requires
        stands_at(s, a, sym_values(x + y)),
    ensures
        stands_at(s, a, sym_values(x)),
        stands_at(s, a + x.len(), sym_values(y)),
{
    lemma_sym_values_concat(x, y);
    let v = sym_values(x + y);
    assert(s.subrange(a, a + x.len()) =~= v.subrange(0, x.len() as int));
    assert(s.subrange(a + x.len(), a + x.len() + y.len()) =~= v.subrange(x.len() as int, v.len() as int));
}

proof fn lemma_read3(s: Seq<u8>, b: int, n: int)
    requires
        0 <= n < 262144,
        stands_at(s, b, sym_values(syms3(n))),
    ensures
        num3(s, b) == n,
        b + 2 < s.len(),
{
    lemma_syms3(n);
    let v = sym_values(syms3(n));
    assert(s[b] == s.subrange(b, b + 3)[0]);
    assert(s[b + 1] == s.subrange(b, b + 3)[1]);
    assert(s[b + 2] == s.subrange(b, b + 3)[2]);
}

proof fn lemma_parse_page_plain(
    s: Seq<u8>,
    a: int,
    prev: Seq<Seq<CellColor>>,
    skips: nat,
    w: Seq<Seq<CellColor>>,
    b: int,
    sk: nat,
    n: int,
    com: Option<Seq<char>>,
    bytes: Seq<u8>,
    end: int,
)
    requires
        parse_field(s, a, prev, skips) == Some((w, b, sk)),
        b + 2 < s.len(),
        num3(s, b) == n,
        n / 7680 / 8 % 2 == 1 ==> parse_comment(s, b + 3) == Some((bytes, end)) && com == Some(
            utf16_lossy(unescape_units(bytes)),
        ),
        n / 7680 / 8 % 2 != 1 ==> com is None && end == b + 3,
    ensures
        parse_page(s, a, prev, skips) == Some((page_from(w, n, com), end, sk, n / 7680 / 4 % 2 == 1)),
{
}

proof fn lemma_record_parts(pages: Seq<PageView>, i: int, g: bool)
    requires
        0 <= i < pages.len(),
        plain_at(pages, i),
    ensures
        shaped_at(pages, i),
        page_bytes(pages, i, g) == (field_block(pages, i) + syms3(page_number(pages[i], g && i == 0)))
            + comment_block(pages[i]),
        0 <= page_number(pages[i], g && i == 0) < 262144,
        page_from(wire_rows(pages[i]), page_number(pages[i], g && i == 0), pages[i].comment)
            == pages[i],
        (page_number(pages[i], g && i == 0) / 7680 / 4 % 2 == 1) == (g && i == 0),
        (page_number(pages[i], g && i == 0) / 7680 / 8 % 2 == 1) == (pages[i].comment is Some),
        pages[i].comment matches Some(c) ==> comment_survives(c),
{
    reveal(plain_at);
    reveal(shaped_at);
    reveal(page_bytes);
    let p = pages[i];
    let gi = g && i == 0;
    lemma_record_round_trip(p, gi);
    assert(record(p, gi) == syms3(page_number(p, gi)));
}

proof fn lemma_stored_printable(c: Seq<char>)
    ensures
        stored_escape(c).len() <= 4095,
        forall|k: int| 0 <= k < stored_escape(c).len() ==> printable(#[trigger] stored_escape(c)[k]),
{
    lemma_escape_printable(c);
    let e = escape_text(c);
    assert forall|k: int| 0 <= k < stored_escape(c).len() implies printable(
        #[trigger] stored_escape(c)[k],
    ) by {
        assert(stored_escape(c)[k] == e[k]);
    }
}

/// Everything written for a plain page `i` is read back, from the decoder's state before
/// page `i`, as that page, leaving the decoder's state after page `i`.
pub proof fn lemma_page_round_trip(pages: Seq<PageView>, g: bool, i: int, s: Seq<u8>, a: int)
    requires
        0 <= i < pages.len(),
        plain_at(pages, i),
        stands_at(s, a, sym_values(page_bytes(pages, i, g))),
    ensures
        parse_page(s, a, baseline(pages, i), skips_before(pages, i)) == Some(
            (pages[i], a + page_bytes(pages, i, g).len(), skips_after(pages, i), g && i == 0),
        ),
        all_syms(page_bytes(pages, i, g)),
        page_bytes(pages, i, g).len() > 0,
{
    let gi = g && i == 0;
    lemma_record_parts(pages, i, g);
    let fb = field_block(pages, i);
    let n = page_number(pages[i], gi);
    let rec = syms3(n);
    let cb = comment_block(pages[i]);
    lemma_split_stands(s, a, fb + rec, cb);
    lemma_split_stands(s, a, fb, rec);
    lemma_field_round_trip(pages, i, s, a);
    let b = a + fb.len();
    lemma_read3(s, b, n);
    lemma_syms3(n);
    lemma_all_syms_concat(fb, rec);
    let com = pages[i].comment;
    let bytes = match com {
        Some(c) => stored_escape(c),
        None => Seq::<u8>::empty(),
    };
    match com {
        Some(c) => {
            lemma_stored_printable(c);
            lemma_comment_block_round_trip(bytes, s, b + 3);
            assert(cb == comment_bytes(bytes));
        },
        None => {
            assert(cb =~= Seq::<u8>::empty());
            assert(all_syms(cb));
        },
    }
    lemma_all_syms_concat(fb + rec, cb);
    lemma_parse_page_plain(
        s,
        a,
        baseline(pages, i),
        skips_before(pages, i),
        wire_rows(pages[i]),
        b,
        skips_after(pages, i),
        n,
        com,
        bytes,
        b + 3 + cb.len(),
    );
}

/// Whether every page is plain.
#[verifier::opaque]
pub open spec fn all_plain(pages: Seq<PageView>) -> bool {
    forall|j: int| 0 <= j < pages.len() ==> #[trigger] plain_page(pages[j])
}

proof fn lemma_plain_at(pages: Seq<PageView>, i: int)
    requires
        all_plain(pages),
        0 <= i < pages.len(),
    ensures
        plain_at(pages, i),
{
    reveal(all_plain);
    reveal(plain_at);
    assert(plain_page(pages[i]));
    if i > 0 {
        assert(plain_page(pages[i - 1]));
    }
}

proof fn lemma_pages_bytes_prefix(pages: Seq<PageView>, m: nat, n: nat, g: bool)
    requires
        m <= n,
    ensures
        pages_bytes(pages, m, g).len() <= pages_bytes(pages, n, g).len(),
        pages_bytes(pages, n, g).subrange(0, pages_bytes(pages, m, g).len() as int) == pages_bytes(
            pages,
            m,
            g,
        ),
    decreases n - m,
{
    if m < n {
        lemma_pages_bytes_prefix(pages, m, (n - 1) as nat, g);
        let a = pages_bytes(pages, (n - 1) as nat, g);
        let b = pages_bytes(pages, n, g);
        assert(b == a + page_bytes(pages, n - 1, g));
        assert(b.subrange(0, pages_bytes(pages, m, g).len() as int) =~= a.subrange(
            0,
            pages_bytes(pages, m, g).len() as int,
        ));
    } else {
        assert(pages_bytes(pages, n, g).subrange(0, pages_bytes(pages, n, g).len() as int)
            =~= pages_bytes(pages, n, g));
    }
}

proof fn lemma_all_syms_pages(pages: Seq<PageView>, m: nat, g: bool)
    requires
        all_plain(pages),
        m <= pages.len(),
    ensures
        all_syms(pages_bytes(pages, m, g)),
    decreases m,
{
    if m > 0 {
        lemma_all_syms_pages(pages, (m - 1) as nat, g);
        let pb = page_bytes(pages, m - 1, g);
        lemma_plain_at(pages, m - 1);
        assert(sym_values(pb).subrange(0, sym_values(pb).len() as int) =~= sym_values(pb));
        lemma_page_round_trip(pages, g, m - 1, sym_values(pb), 0);
        lemma_all_syms_concat(pages_bytes(pages, (m - 1) as nat, g), pb);
    } else {
        assert(pages_bytes(pages, 0, g) =~= Seq::<u8>::empty());
    }
}

proof fn lemma_parse_rest(pages: Seq<PageView>, g: bool, i: nat, s: Seq<u8>)
    requires
        i <= pages.len(),
        all_plain(pages),
        s == sym_values(pages_bytes(pages, pages.len(), g)),
    ensures
        parse_from(
            s,
            pages_bytes(pages, i, g).len() as int,
            baseline(pages, i as int),
            skips_before(pages, i as int),
            pages.take(i as int),
            if i == 0 { true } else { g },
        ) == Some(FumenView { pages, guideline: if pages.len() == 0 { true } else { g } }),
    decreases pages.len() - i,
{
    let n = pages.len();
    let a = pages_bytes(pages, i, g).len() as int;
    if i < n {
        let pb = page_bytes(pages, i as int, g);
        lemma_pages_bytes_prefix(pages, i + 1, n, g);
        let whole = pages_bytes(pages, n, g);
        let upto = pages_bytes(pages, i + 1, g);
        assert(upto == pages_bytes(pages, i, g) + pb);
        assert(s.subrange(a, a + sym_values(pb).len()) =~= sym_values(pb)) by {
            assert(whole.subrange(0, upto.len() as int) == upto);
            assert forall|k: int| 0 <= k < sym_values(pb).len() implies s.subrange(
                a,
                a + sym_values(pb).len(),
            )[k] == sym_values(pb)[k] by {
                assert(whole[a + k] == upto[a + k]);
                assert(upto[a + k] == pb[k]);
            }
        }
        lemma_plain_at(pages, i as int);
        lemma_page_round_trip(pages, g, i as int, s, a);
        assert(pages.take(i as int).push(pages[i as int]) =~= pages.take((i + 1) as int));
        lemma_parse_rest(pages, g, i + 1, s);
    } else {
        assert(pages.take(i as int) =~= pages);
    }
}

/// Decoding the encoded form of a diagram gives the diagram back, for every diagram that
/// has a page or the guideline flag set and whose pages are plain: each piece has its
/// fumen centre on the grid, and each comment is given back by UTF-16 decoding of its
/// stored escape form.
pub proof fn lemma_round_trip(f: Fumen)
    requires
        all_plain(f@.pages),
        f@.pages.len() > 0 || f@.guideline,
    ensures
        decoded(chars_of(encoding(f@))) == Some(f@),
{
    let v = f@;
    let g = v.guideline;
    let body = pages_bytes(v.pages, v.pages.len(), g);
    let data = chars_of(encoding(v));
    assert(encoding(v) == header() + body);
    assert(has_header(data));
    assert(data.skip(5) =~= chars_of(body));
    lemma_all_syms_pages(v.pages, v.pages.len(), g);
    lemma_symbols_of_chars(body);
    lemma_parse_rest(v.pages, g, 0, sym_values(body));
    assert(v.pages.take(0) =~= Seq::<PageView>::empty());
    assert(pages_bytes(v.pages, 0, g).len() == 0);
}

/// An encoded form of a diagram as above decodes, and encoding the result gives the same
/// string back.
pub proof fn lemma_canonical(f: Fumen)
    requires
        all_plain(f@.pages),
        f@.pages.len() > 0 || f@.guideline,
    ensures
        decoded(chars_of(encoding(f@))) matches Some(g) && encoding(g) == encoding(f@),
{
    lemma_round_trip(f);
}

} // verus!
