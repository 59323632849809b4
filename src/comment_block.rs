//! Reading a comment block back gives the stored escape form.
use vstd::prelude::*;
use crate::base64::{lemma_sym_round_trip, sym};
use crate::codec::{chunk_value, comment_bytes, comment_digit, packed_chunks, syms2, syms5};
use crate::decode::{comment_byte, comment_end, num2, num5, parse_comment, pow96};
use crate::escape::printable;
use crate::round_trip::{
    all_syms, lemma_all_syms_concat, lemma_split_stands, lemma_syms2, stands_at, sym_values,
};

verus! {

broadcast use vstd::seq_lib::group_seq_properties;

proof fn lemma_syms5(n: int)
    requires
        0 <= n < 0x4000_0000,
    ensures
        sym_values(syms5(n)).len() == 5,
        num5(sym_values(syms5(n)), 0) == n,
        all_syms(syms5(n)),
{
    lemma_sym_round_trip(n % 64);
    lemma_sym_round_trip(n / 64 % 64);
    lemma_sym_round_trip(n / 4096 % 64);
    lemma_sym_round_trip(n / 262144 % 64);
    lemma_sym_round_trip(n / 16777216 % 64);
    let w = syms5(n);
    let v = sym_values(w);
    assert(w[0] == sym(n % 64));
    assert(w[1] == sym(n / 64 % 64));
    assert(w[2] == sym(n / 4096 % 64));
    assert(w[3] == sym(n / 262144 % 64));
    assert(w[4] == sym(n / 16777216 % 64));
    assert(v[0] == n % 64);
    assert(v[1] == n / 64 % 64);
    assert(v[2] == n / 4096 % 64);
    assert(v[3] == n / 262144 % 64);
    assert(v[4] == n / 16777216 % 64);
    assert(num5(v, 0) == n) by (nonlinear_arith)
        requires
            v[0] == n % 64,
            v[1] == n / 64 % 64,
            v[2] == n / 4096 % 64,
            v[3] == n / 262144 % 64,
            v[4] == n / 16777216 % 64,
            0 <= n < 0x4000_0000,
            num5(v, 0) == v[0] + 64 * v[1] + 4096 * v[2] + 262144 * v[3] + 16777216 * v[4],
    ;
}

proof fn lemma_packed_chunks(e: Seq<u8>, t: nat)
    requires
        forall|k: int| 0 <= k < e.len() ==> printable(#[trigger] e[k]),
    ensures
        all_syms(packed_chunks(e, t)),
        packed_chunks(e, t).len() == 5 * t,
        forall|u: int|
            0 <= u < t ==> #[trigger] packed_chunks(e, t).subrange(5 * u, 5 * u + 5) == syms5(
                chunk_value(e, 4 * u),
            ),
    decreases t,
{
    if t > 0 {
        lemma_packed_chunks(e, (t - 1) as nat);
        let prev = packed_chunks(e, (t - 1) as nat);
        let cur = packed_chunks(e, t);
        let j = 4 * (t - 1);
        assert(0 <= comment_digit(e, j) < 96 && 0 <= comment_digit(e, j + 1) < 96);
        assert(0 <= comment_digit(e, j + 2) < 96 && 0 <= comment_digit(e, j + 3) < 96);
        lemma_syms5(chunk_value(e, j));
        lemma_all_syms_concat(prev, syms5(chunk_value(e, j)));
        assert forall|u: int| 0 <= u < t implies #[trigger] cur.subrange(5 * u, 5 * u + 5) == syms5(
            chunk_value(e, 4 * u),
        ) by {
            if u < t - 1 {
                assert(cur.subrange(5 * u, 5 * u + 5) =~= prev.subrange(5 * u, 5 * u + 5));
            } else {
                assert(cur.subrange(5 * u, 5 * u + 5) =~= syms5(chunk_value(e, 4 * u)));
            }
        }
    }
}

proof fn lemma_base96_digit(d0: int, d1: int, d2: int, d3: int, m: int)
    requires
        0 <= d0 < 96,
        0 <= d1 < 96,
        0 <= d2 < 96,
        0 <= d3 < 96,
        0 <= m < 4,
    ensures
        (d0 + 96 * d1 + 9216 * d2 + 884736 * d3) / pow96(m) % 96 == if m == 0 {
            d0
        } else if m == 1 {
            d1
        } else if m == 2 {
            d2
        } else {
            d3
        },
{
    let v = d0 + 96 * d1 + 9216 * d2 + 884736 * d3;
    if m == 0 {
        assert(v % 96 == d0) by (nonlinear_arith)
            requires
                v == d0 + 96 * (d1 + 96 * d2 + 9216 * d3),
                0 <= d0 < 96,
        ;
    } else if m == 1 {
        assert(v / 96 == d1 + 96 * d2 + 9216 * d3) by (nonlinear_arith)
            requires
                v == d0 + 96 * (d1 + 96 * d2 + 9216 * d3),
                0 <= d0 < 96,
        ;
        assert((d1 + 96 * d2 + 9216 * d3) % 96 == d1) by (nonlinear_arith)
            requires
                0 <= d1 < 96,
        ;
    } else if m == 2 {
        assert(v / 9216 == d2 + 96 * d3) by (nonlinear_arith)
            requires
                v == (d0 + 96 * d1) + 9216 * (d2 + 96 * d3),
                0 <= d0 + 96 * d1 < 9216,
        ;
        assert((d2 + 96 * d3) % 96 == d2) by (nonlinear_arith)
            requires
                0 <= d2 < 96,
        ;
    } else {
        assert(v / 884736 == d3) by (nonlinear_arith)
            requires
                v == (d0 + 96 * d1 + 9216 * d2) + 884736 * d3,
                0 <= d0 + 96 * d1 + 9216 * d2 < 884736,
        ;
    }
}

/// The comment block written for a stored escape form (printable, at most 4095 bytes) is
/// read back as exactly that escape form.
pub proof fn lemma_comment_block_round_trip(e: Seq<u8>, s: Seq<u8>, a: int)
    requires
        e.len() <= 4095,
        forall|k: int| 0 <= k < e.len() ==> printable(#[trigger] e[k]),
        stands_at(s, a, sym_values(comment_bytes(e))),
    ensures
        parse_comment(s, a) == Some((e, a + comment_bytes(e).len())),
        all_syms(comment_bytes(e)),
{
    let len = e.len() as int;
    let t = ((len + 3) / 4) as nat;
    lemma_packed_chunks(e, t);
    lemma_syms2(len);
    let head = syms2(len);
    let body = packed_chunks(e, t);
    assert(comment_bytes(e) == head + body);
    lemma_split_stands(s, a, head, body);
    assert(num2(s, a) == len) by {
        assert(s[a] == s.subrange(a, a + 2)[0]);
        assert(s[a + 1] == s.subrange(a, a + 2)[1]);
    }
    assert(comment_end(s, a) == a + comment_bytes(e).len());
    let got = Seq::new(len as nat, |k: int| comment_byte(s, a, k));
    assert forall|k: int| 0 <= k < len implies got[k] == e[k] by {
        let u = k / 4;
        let j = 4 * u;
        assert(0 <= u < t);
        let cv = chunk_value(e, j);
        let d0 = comment_digit(e, j);
        let d1 = comment_digit(e, j + 1);
        let d2 = comment_digit(e, j + 2);
        let d3 = comment_digit(e, j + 3);
        assert(0 <= d0 < 96 && 0 <= d1 < 96 && 0 <= d2 < 96 && 0 <= d3 < 96);
        assert(0 <= cv < 0x4000_0000);
        lemma_syms5(cv);
        let b = a + 2 + 5 * u;
        let sv = sym_values(body);
        assert(body.subrange(5 * u, 5 * u + 5) == syms5(cv));
        assert forall|q: int| 0 <= q < 5 implies s[b + q] == sym_values(syms5(cv))[q] by {
            assert(s[b + q] == s.subrange(a + 2, a + 2 + sv.len())[5 * u + q]);
            assert(sv[5 * u + q] == sym_values(body.subrange(5 * u, 5 * u + 5))[q]);
        }
        assert(num5(s, b) == cv);
        lemma_base96_digit(d0, d1, d2, d3, k % 4);
        assert(k == j + k % 4);
    }
    assert(got =~= e);
    lemma_all_syms_concat(head, body);
}

} // verus!
