//! Similarity scoring between two routes: the pair count of equal keyword
//! tokens weighted by both token-set sizes, compared exactly as a rational,
//! the product of the two coverage ratios.

use vstd::prelude::*;
use vstd::arithmetic::div_mod::{lemma_fundamental_div_mod, lemma_mod_bound};
use crate::tokens::{tokenize, tokens_spec};

verus! {

/// How many entries of `js` equal `t`.
pub open spec fn count_token(js: Seq<Seq<char>>, t: Seq<char>) -> nat
    decreases js.len(),
{
    if js.len() == 0 {
        0
    } else {
        count_token(js.drop_last(), t) + (if js.last() == t {
            1nat
        } else {
            0nat
        })
    }
}

/// How many pairs of one entry of `is` and one entry of `js` are equal:
/// a token counts once for every partner it matches, with multiplicity on
/// both sides.
pub open spec fn pair_count(is: Seq<Seq<char>>, js: Seq<Seq<char>>) -> nat
    decreases is.len(),
{
    if is.len() == 0 {
        0
    } else {
        pair_count(is.drop_last(), js) + count_token(js, is.last())
    }
}

/// Caps a count at the largest representable value.
pub open spec fn sat64(n: nat) -> nat {
    if n > u64::MAX as nat {
        u64::MAX as nat
    } else {
        n
    }
}

/// The similarity score of one route against another, kept as the exact
/// counts it is made of: `cnt` matching pairs over token sets of `left` and
/// `right` entries. The score's value is `(cnt/left)*(cnt/right)`, and zero
/// whenever either token set is empty.
#[derive(Clone, Copy, PartialEq, Eq, Structural, Debug)]
pub struct Score {
    pub cnt: u64,
    pub left: u64,
    pub right: u64,
}

/// The score that comparing routes `i` and `j` yields.
pub open spec fn score_of(i: Seq<char>, j: Seq<char>) -> Score {
    Score {
        cnt: sat64(pair_count(tokens_spec(i), tokens_spec(j))) as u64,
        left: sat64(tokens_spec(i).len()) as u64,
        right: sat64(tokens_spec(j).len()) as u64,
    }
}

/// Numerator of a score's value as a fraction.
pub open spec fn score_num(s: Score) -> int {
    if s.left == 0 || s.right == 0 {
        0
    } else {
        s.cnt as int * s.cnt as int
    }
}

/// Denominator of a score's value as a fraction; always positive.
pub open spec fn score_den(s: Score) -> int {
    if s.left == 0 || s.right == 0 {
        1
    } else {
        s.left as int * s.right as int
    }
}

/// One score's value is strictly greater than another's.
pub open spec fn score_gt_spec(x: Score, y: Score) -> bool {
    score_num(x) * score_den(y) > score_num(y) * score_den(x)
}

/// Appending one entry to the left side adds that entry's matches in `js`.
pub proof fn lemma_pair_count_step(is: Seq<Seq<char>>, js: Seq<Seq<char>>, a: int)
    requires
        0 <= a < is.len(),
    ensures
        pair_count(is.take(a + 1), js) == pair_count(is.take(a), js) + count_token(
            js,
            is[a],
        ),
{
    assert(is.take(a + 1).drop_last() =~= is.take(a));
    assert(is.take(a + 1).last() == is[a]);
}

/// Appending one entry to the counted side adds one exactly when it matches.
pub proof fn lemma_count_token_step(js: Seq<Seq<char>>, t: Seq<char>, b: int)
    requires
        0 <= b < js.len(),
    ensures
        count_token(js.take(b + 1), t) == count_token(js.take(b), t) + (if js[b] == t {
            1nat
        } else {
            0nat
        }),
{
    assert(js.take(b + 1).drop_last() =~= js.take(b));
    assert(js.take(b + 1).last() == js[b]);
}

/// The score of route `i` against route `j`: the exact pair count (capped at
/// the largest representable value) and both token-set sizes.
pub fn avg_key_match(i: &str, j: &str) -> (r: Score)
    ensures
        r == score_of(i@, j@),
{
    let ti: Vec<String> = tokenize(i);
    let tj: Vec<String> = tokenize(j);
    let ghost tid: Seq<Seq<char>> = ti.deep_view();
    let ghost tjd: Seq<Seq<char>> = tj.deep_view();
    let mut cnt: u64 = 0;
    let mut a: usize = 0;
    proof {
        assert(tid.take(0) =~= Seq::<Seq<char>>::empty());
    }
    while a < ti.len()
        invariant
            0 <= a <= ti.len(),
            tid == ti.deep_view(),
            tjd == tj.deep_view(),
            tid.len() == ti.len(),
            tjd.len() == tj.len(),
            cnt as nat == sat64(pair_count(tid.take(a as int), tjd)),
        decreases ti.len() - a,
    {
        let mut b: usize = 0;
        proof {
            assert(tjd.take(0) =~= Seq::<Seq<char>>::empty());
        }
        while b < tj.len()
            invariant
                0 <= a < ti.len(),
                0 <= b <= tj.len(),
                tid == ti.deep_view(),
                tjd == tj.deep_view(),
                tid.len() == ti.len(),
                tjd.len() == tj.len(),
                cnt as nat == sat64(
                    pair_count(tid.take(a as int), tjd) + count_token(
                        tjd.take(b as int),
                        tid[a as int],
                    ),
                ),
            decreases tj.len() - b,
        {
            if ti[a] == tj[b] {
                if cnt < u64::MAX {
                    cnt = cnt + 1;
                }
            }
            proof {
                lemma_count_token_step(tjd, tid[a as int], b as int);
            }
            b = b + 1;
        }
        proof {
            assert(tjd.take(tjd.len() as int) =~= tjd);
            lemma_pair_count_step(tid, tjd, a as int);
        }
        a = a + 1;
    }
    proof {
        assert(tid.take(tid.len() as int) =~= tid);
    }
    let left: u64 = ti.len() as u64;
    let right: u64 = tj.len() as u64;
    Score { cnt, left, right }
}

/// Exact comparison of the fractions `a / b` and `c / d` by repeated
/// division, free of overflow: true exactly when `a / b > c / d`.
fn frac_gt(a: u128, b: u128, c: u128, d: u128) -> (r: bool)
    requires b >= 1, d >= 1,
    ensures r == (a as int * d as int > c as int * b as int),
    decreases b + d,
{
    let qa: u128 = a / b;
    let qc: u128 = c / d;
    let ra: u128 = a % b;
    let rc: u128 = c % d;
    proof {
        lemma_fundamental_div_mod(a as int, b as int);
        lemma_fundamental_div_mod(c as int, d as int);
        lemma_mod_bound(a as int, b as int);
        lemma_mod_bound(c as int, d as int);
    }
    if qa > qc {
        proof {
            assert(a as int * d as int > c as int * b as int) by (nonlinear_arith)
                requires
                    a as int == b as int * qa as int + ra as int,
                    c as int == d as int * qc as int + rc as int,
                    0 <= ra as int && (ra as int) < (b as int),
                    0 <= rc as int && (rc as int) < (d as int),
                    b >= 1, d >= 1,
                    qa as int >= qc as int + 1,
                    qc >= 0,
            ;
        }
        return true;
    }
    if qc > qa {
        proof {
            assert(c as int * b as int > a as int * d as int) by (nonlinear_arith)
                requires
                    a as int == b as int * qa as int + ra as int,
                    c as int == d as int * qc as int + rc as int,
                    0 <= ra as int && (ra as int) < (b as int),
                    0 <= rc as int && (rc as int) < (d as int),
                    b >= 1, d >= 1,
                    qc as int >= qa as int + 1,
                    qa >= 0,
            ;
        }
        return false;
    }
    proof {
        assert((a as int * d as int > c as int * b as int) == (ra as int * d as int > rc as int
            * b as int)) by (nonlinear_arith)
            requires
                a as int == b as int * qa as int + ra as int,
                c as int == d as int * qc as int + rc as int,
                qa == qc,
        ;
    }
    if rc == 0 {
        proof {
            assert((ra as int * d as int > 0) == (ra > 0)) by (nonlinear_arith)
                requires d >= 1, ra >= 0,
            ;
            assert(rc as int * b as int == 0) by (nonlinear_arith)
                requires rc == 0,
            ;
        }
        return ra > 0;
    }
    if ra == 0 {
        proof {
            assert(rc as int * b as int > 0) by (nonlinear_arith)
                requires rc >= 1, b >= 1,
            ;
            assert(ra as int * d as int == 0) by (nonlinear_arith)
                requires ra == 0,
            ;
        }
        return false;
    }
    let r: bool = frac_gt(d, rc, b, ra);
    proof {
        assert(d as int * ra as int == ra as int * d as int) by (nonlinear_arith);
        assert(b as int * rc as int == rc as int * b as int) by (nonlinear_arith);
    }
    r
}

/// The product of two values that fit in 64 bits fits in 128 bits.
proof fn lemma_u64_product_fits(p: int, q: int)
    requires
        0 <= p <= u64::MAX as int,
        0 <= q <= u64::MAX as int,
    ensures
        p * q <= u128::MAX as int,
{
    assert(p * q <= u64::MAX as int * u64::MAX as int) by (nonlinear_arith)
        requires
            0 <= p <= u64::MAX as int,
            0 <= q <= u64::MAX as int,
    ;
    assert(u64::MAX as int * u64::MAX as int == 0xfffffffffffffffe0000000000000001int)
        by (nonlinear_arith);
}

/// Whether score `x` is strictly greater than score `y`, compared exactly as
/// rationals.
pub fn score_gt(x: &Score, y: &Score) -> (r: bool)
    ensures
        r == score_gt_spec(*x, *y),
{
    let ghost nx: int = score_num(*x);
    let ghost dx: int = score_den(*x);
    let ghost ny: int = score_num(*y);
    let ghost dy: int = score_den(*y);
    proof {
        assert(nx == 0 || nx == x.cnt as int * x.cnt as int);
        assert(ny == 0 || ny == y.cnt as int * y.cnt as int);
        assert(ny >= 0) by (nonlinear_arith)
            requires
                ny == 0 || ny == y.cnt as int * y.cnt as int,
        ;
        assert(nx >= 0) by (nonlinear_arith)
            requires
                nx == 0 || nx == x.cnt as int * x.cnt as int,
        ;
        assert(dx == 1 || (dx == x.left as int * x.right as int && x.left >= 1 && x.right >= 1));
        assert(dy == 1 || (dy == y.left as int * y.right as int && y.left >= 1 && y.right >= 1));
        assert(dx >= 1) by (nonlinear_arith)
            requires
                dx == 1 || (dx == x.left as int * x.right as int && x.left >= 1 && x.right >= 1),
        ;
        assert(dy >= 1) by (nonlinear_arith)
            requires
                dy == 1 || (dy == y.left as int * y.right as int && y.left >= 1 && y.right >= 1),
        ;
    }
    if x.left == 0 || x.right == 0 || x.cnt == 0 {
        proof {
            assert(nx == 0);
            assert(nx * dy == 0) by (nonlinear_arith)
                requires
                    nx == 0,
            ;
            assert(ny * dx >= 0) by (nonlinear_arith)
                requires
                    ny >= 0,
                    dx >= 1,
            ;
        }
        return false;
    }
    if y.left == 0 || y.right == 0 || y.cnt == 0 {
        proof {
            assert(ny == 0);
            assert(nx == x.cnt as int * x.cnt as int);
            assert(nx * dy > 0) by (nonlinear_arith)
                requires
                    nx == x.cnt as int * x.cnt as int,
                    dy >= 1,
                    x.cnt >= 1,
            ;
        }
        return true;
    }
    proof {
        lemma_u64_product_fits(x.cnt as int, x.cnt as int);
        lemma_u64_product_fits(x.left as int, x.right as int);
        lemma_u64_product_fits(y.cnt as int, y.cnt as int);
        lemma_u64_product_fits(y.left as int, y.right as int);
    }
    let xn: u128 = (x.cnt as u128) * (x.cnt as u128);
    let xd: u128 = (x.left as u128) * (x.right as u128);
    let yn: u128 = (y.cnt as u128) * (y.cnt as u128);
    let yd: u128 = (y.left as u128) * (y.right as u128);
    proof {
        assert(xd >= 1 && yd >= 1) by (nonlinear_arith)
            requires
                xd as int == x.left as int * x.right as int,
                yd as int == y.left as int * y.right as int,
                x.left >= 1,
                x.right >= 1,
                y.left >= 1,
                y.right >= 1,
        ;
    }
    frac_gt(xn, xd, yn, yd)
}

/// A score's numerator is never negative and its denominator is positive.
pub proof fn lemma_score_bounds(s: Score)
    ensures
        score_num(s) >= 0,
        score_den(s) >= 1,
{
    assert(score_num(s) == 0 || score_num(s) == s.cnt as int * s.cnt as int);
    assert(score_num(s) >= 0) by (nonlinear_arith)
        requires
            score_num(s) == 0 || score_num(s) == s.cnt as int * s.cnt as int,
    ;
    assert(score_den(s) == 1 || (score_den(s) == s.left as int * s.right as int && s.left >= 1
        && s.right >= 1));
    assert(score_den(s) >= 1) by (nonlinear_arith)
        requires
            score_den(s) == 1 || (score_den(s) == s.left as int * s.right as int && s.left >= 1
                && s.right >= 1),
    ;
}

/// A score above `y` is also above everything that does not exceed `y`.
pub proof fn lemma_score_gt_ge_trans(x: Score, y: Score, z: Score)
    requires
        score_gt_spec(x, y),
        !score_gt_spec(z, y),
    ensures
        score_gt_spec(x, z),
{
    lemma_score_bounds(x);
    lemma_score_bounds(y);
    lemma_score_bounds(z);
    assert(score_num(x) * score_den(z) > score_num(z) * score_den(x)) by (nonlinear_arith)
        requires
            score_num(x) * score_den(y) > score_num(y) * score_den(x),
            score_num(z) * score_den(y) <= score_num(y) * score_den(z),
            score_num(x) >= 0,
            score_num(y) >= 0,
            score_num(z) >= 0,
            score_den(x) >= 1,
            score_den(y) >= 1,
            score_den(z) >= 1,
    ;
}

} // verus!
