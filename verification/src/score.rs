//! Exact match scores.
//!
//! The engine never stores a floating-point similarity.  A score is kept in
//! an exact integer form from which the conventional real-valued similarity
//! can be recovered:
//!
//! * `Edit { dist, max_len }` stands for `1 - dist / max_len` (and for `1`
//!   when both strings are empty, so `max_len` is zero);
//! * `Cosine { dot, qsq, msq }` stands for `dot / (sqrt(qsq) * sqrt(msq))`,
//!   where `qsq` and `msq` are the squared Euclidean norms of the query's
//!   and the stored item's gram-count vectors.
//!
//! Comparisons multiply the inequalities out, so they are exact.

use crate::edit::{edit_dist, lemma_edit_dist_le_max, lemma_edit_dist_nonneg};
use crate::text::chars_vec;
use vstd::prelude::*;

verus! {

/// An exact similarity score in `[0, 1]`.
#[derive(Clone, Copy, Debug, PartialEq, Eq, Structural)]
pub enum Score {
    /// Edit-distance similarity `1 - dist / max_len` (`1` when `max_len == 0`).
    Edit { dist: usize, max_len: usize },
    /// Cosine similarity `dot / (sqrt(qsq) * sqrt(msq))`.
    Cosine { dot: u64, qsq: u64, msq: u64 },
}

/// Numerator of an edit score, as a fraction with `edit_den` below.
pub open spec fn edit_num(dist: int, max_len: int) -> int {
    if max_len == 0 {
        1
    } else {
        max_len - dist
    }
}

/// Denominator of an edit score.
pub open spec fn edit_den(max_len: int) -> int {
    if max_len == 0 {
        1
    } else {
        max_len
    }
}

/// Whether the two scores came from the same scoring policy, so that they
/// are comparable.
pub open spec fn same_kind(x: Score, y: Score) -> bool {
    match (x, y) {
        (Score::Edit { .. }, Score::Edit { .. }) => true,
        (Score::Cosine { .. }, Score::Cosine { .. }) => true,
        _ => false,
    }
}

/// `x >= y`, as real-valued similarities.  For edit scores this multiplies
/// the two fractions out; for cosine scores it compares the squares, which
/// preserves the order because both values are nonnegative.  Scores of
/// different kinds are never compared.
pub open spec fn score_ge(x: Score, y: Score) -> bool {
    match (x, y) {
        (
            Score::Edit { dist: d1, max_len: l1 },
            Score::Edit { dist: d2, max_len: l2 },
        ) => edit_num(d1 as int, l1 as int) * edit_den(l2 as int) >= edit_num(d2 as int, l2 as int)
            * edit_den(l1 as int),
        (
            Score::Cosine { dot: d1, qsq: q1, msq: m1 },
            Score::Cosine { dot: d2, qsq: q2, msq: m2 },
        ) => (d1 * d1) * (q2 * m2) >= (d2 * d2) * (q1 * m1),
        _ => false,
    }
}

/// `x >= num / den`, the score measured against a rational threshold.
pub open spec fn score_at_least_frac(x: Score, num: int, den: int) -> bool {
    match x {
        Score::Edit { dist, max_len } => edit_num(dist as int, max_len as int) * den >= num
            * edit_den(max_len as int),
        Score::Cosine { dot, qsq, msq } => (dot * den) * (dot * den) >= (num * num) * (qsq * msq),
    }
}

/// The score stands for the exact value `1`.
pub open spec fn score_is_one(x: Score) -> bool {
    match x {
        Score::Edit { dist, max_len } => dist == 0,
        Score::Cosine { dot, qsq, msq } => dot * dot == qsq * msq,
    }
}

/// All fields small enough that comparisons cannot overflow in `u128`.
pub open spec fn score_bounded(x: Score) -> bool {
    match x {
        Score::Edit { dist, max_len } => dist <= max_len <= u32::MAX,
        Score::Cosine { dot, qsq, msq } => dot <= u32::MAX && qsq <= u32::MAX && msq
            <= u32::MAX,
    }
}

/// A product of two 64-bit values, which always fits in 128 bits.
fn mul_u64(a: u64, b: u64) -> (r: u128)
    ensures
        r == (a as int) * (b as int),
{
    proof {
        assert((a as int) * (b as int) < 0x1_0000_0000_0000_0000_0000_0000_0000_0000)
            by (nonlinear_arith)
            requires
                0 <= a < 0x1_0000_0000_0000_0000,
                0 <= b < 0x1_0000_0000_0000_0000,
        ;
        assert((a as int) * (b as int) >= 0) by (nonlinear_arith)
            requires
                0 <= a,
                0 <= b,
        ;
    }
    (a as u128) * (b as u128)
}

/// A product of two 128-bit values each below `2^64`.
fn mul_small_u128(a: u128, b: u128) -> (r: u128)
    requires
        a < 0x1_0000_0000_0000_0000,
        b < 0x1_0000_0000_0000_0000,
    ensures
        r == (a as int) * (b as int),
{
    proof {
        assert((a as int) * (b as int) < 0x1_0000_0000_0000_0000_0000_0000_0000_0000)
            by (nonlinear_arith)
            requires
                0 <= a < 0x1_0000_0000_0000_0000,
                0 <= b < 0x1_0000_0000_0000_0000,
        ;
        assert((a as int) * (b as int) >= 0) by (nonlinear_arith)
            requires
                0 <= a,
                0 <= b,
        ;
    }
    a * b
}

/// Comparing two scores of the same kind always orders them one way or the
/// other.
pub proof fn lemma_score_ge_total(x: Score, y: Score)
    requires
        same_kind(x, y),
    ensures
        score_ge(x, y) || score_ge(y, x),
{
}

/// Scores the index actually produces: bounded, and with strictly
/// positive squared norms for cosine scores, so that comparisons behave
/// like comparisons of the real-valued similarities.
pub open spec fn score_sortable(x: Score) -> bool {
    score_bounded(x) && match x {
        Score::Edit { .. } => true,
        Score::Cosine { dot, qsq, msq } => 1 <= qsq && 1 <= msq,
    }
}

/// Transitivity of `n1/e1 >= n2/e2 >= n3/e3` for nonnegative fractions
/// with positive denominators, in multiplied-out form.
proof fn lemma_frac_ge_trans(n1: int, e1: int, n2: int, e2: int, n3: int, e3: int)
    requires
        n1 >= 0,
        n2 >= 0,
        n3 >= 0,
        e1 >= 1,
        e2 >= 1,
        e3 >= 1,
        n1 * e2 >= n2 * e1,
        n2 * e3 >= n3 * e2,
    ensures
        n1 * e3 >= n3 * e1,
{
    assert(n1 * e3 >= n3 * e1) by (nonlinear_arith)
        requires
            n1 >= 0,
            n2 >= 0,
            n3 >= 0,
            e1 >= 1,
            e2 >= 1,
            e3 >= 1,
            n1 * e2 >= n2 * e1,
            n2 * e3 >= n3 * e2,
    ;
}

/// Comparison of sortable scores of one kind is transitive.
pub proof fn lemma_score_ge_trans(x: Score, y: Score, z: Score)
    requires
        score_sortable(x),
        score_sortable(y),
        score_sortable(z),
        same_kind(x, y),
        same_kind(y, z),
        score_ge(x, y),
        score_ge(y, z),
    ensures
        score_ge(x, z),
{
    match (x, y, z) {
        (
            Score::Edit { dist: d1, max_len: l1 },
            Score::Edit { dist: d2, max_len: l2 },
            Score::Edit { dist: d3, max_len: l3 },
        ) => {
            lemma_frac_ge_trans(
                edit_num(d1 as int, l1 as int),
                edit_den(l1 as int),
                edit_num(d2 as int, l2 as int),
                edit_den(l2 as int),
                edit_num(d3 as int, l3 as int),
                edit_den(l3 as int),
            );
        },
        (
            Score::Cosine { dot: d1, qsq: q1, msq: m1 },
            Score::Cosine { dot: d2, qsq: q2, msq: m2 },
            Score::Cosine { dot: d3, qsq: q3, msq: m3 },
        ) => {
            assert((d1 as int) * (d1 as int) >= 0 && (d2 as int) * (d2 as int) >= 0 && (d3 as int)
                * (d3 as int) >= 0 && (q1 as int) * (m1 as int) >= 1 && (q2 as int) * (m2 as int)
                >= 1 && (q3 as int) * (m3 as int) >= 1) by (nonlinear_arith)
                requires
                    d1 >= 0 && d2 >= 0 && d3 >= 0 && q1 >= 1 && m1 >= 1 && q2 >= 1 && m2 >= 1
                        && q3 >= 1 && m3 >= 1,
            ;
            lemma_frac_ge_trans(
                (d1 as int) * (d1 as int),
                (q1 as int) * (m1 as int),
                (d2 as int) * (d2 as int),
                (q2 as int) * (m2 as int),
                (d3 as int) * (d3 as int),
                (q3 as int) * (m3 as int),
            );
        },
        _ => {
            assert(false);
        },
    }
}

/// Exact comparison of two scores of the same kind.
pub fn score_ge_exec(x: &Score, y: &Score) -> (r: bool)
    requires
        score_bounded(*x),
        score_bounded(*y),
    ensures
        r == score_ge(*x, *y),
{
    match (x, y) {
        (
            Score::Edit { dist: d1, max_len: l1 },
            Score::Edit { dist: d2, max_len: l2 },
        ) => {
            let (n1, e1): (u64, u64) = if *l1 == 0 {
                (1, 1)
            } else {
                ((l1 - d1) as u64, *l1 as u64)
            };
            let (n2, e2): (u64, u64) = if *l2 == 0 {
                (1, 1)
            } else {
                ((l2 - d2) as u64, *l2 as u64)
            };
            mul_u64(n1, e2) >= mul_u64(n2, e1)
        },
        (
            Score::Cosine { dot: d1, qsq: q1, msq: m1 },
            Score::Cosine { dot: d2, qsq: q2, msq: m2 },
        ) => {
            let s1: u128 = mul_u64(*d1, *d1);
            let s2: u128 = mul_u64(*d2, *d2);
            let t1: u128 = mul_u64(*q1, *m1);
            let t2: u128 = mul_u64(*q2, *m2);
            proof {
                lemma_prod_fits(*d1 as int, *d1 as int);
                lemma_prod_fits(*d2 as int, *d2 as int);
                lemma_prod_fits(*q1 as int, *m1 as int);
                lemma_prod_fits(*q2 as int, *m2 as int);
            }
            mul_small_u128(s1, t2) >= mul_small_u128(s2, t1)
        },
        _ => false,
    }
}

/// A product of two values below `2^32` stays below `2^64`.
proof fn lemma_prod_fits(a: int, b: int)
    requires
        0 <= a <= u32::MAX,
        0 <= b <= u32::MAX,
    ensures
        0 <= a * b < 0x1_0000_0000_0000_0000,
{
    assert(0 <= a * b < 0x1_0000_0000_0000_0000) by (nonlinear_arith)
        requires
            0 <= a <= 0xFFFF_FFFF,
            0 <= b <= 0xFFFF_FFFF,
    ;
}

/// Exact comparison of a score against a rational threshold `num / den`.
pub fn score_at_least_frac_exec(x: &Score, num: u32, den: u32) -> (r: bool)
    requires
        score_bounded(*x),
        1 <= den,
    ensures
        r == score_at_least_frac(*x, num as int, den as int),
{
    match x {
        Score::Edit { dist, max_len } => {
            let (n1, e1): (u64, u64) = if *max_len == 0 {
                (1, 1)
            } else {
                ((max_len - dist) as u64, *max_len as u64)
            };
            mul_u64(n1, den as u64) >= mul_u64(num as u64, e1)
        },
        Score::Cosine { dot, qsq, msq } => {
            let lhs: u128 = mul_u64(*dot, den as u64);
            let nn: u128 = mul_u64(num as u64, num as u64);
            let qm: u128 = mul_u64(*qsq, *msq);
            proof {
                lemma_prod_fits(*dot as int, den as int);
                lemma_prod_fits(num as int, num as int);
                lemma_prod_fits(*qsq as int, *msq as int);
            }
            mul_small_u128(lhs, lhs) >= mul_small_u128(nn, qm)
        },
    }
}

/// Edit-distance similarity of two strings, as an exact score: the
/// similarity `1 - d / max_len` where `d` is the Levenshtein distance and
/// `max_len` the longer operand's character length.
pub fn distance(str1: &str, str2: &str) -> (r: Score)
    requires
        str1@.len() < usize::MAX,
        str2@.len() < usize::MAX,
    ensures
        r == (Score::Edit {
            dist: edit_dist(str1@, str2@) as usize,
            max_len: if str1@.len() >= str2@.len() {
                str1@.len() as usize
            } else {
                str2@.len() as usize
            },
        }),
        score_is_one(r) <==> str1@ == str2@,
{
    let a = chars_vec(str1);
    let b = chars_vec(str2);
    let d = crate::edit::levenshtein_chars(&a, &b);
    let ml = if a.len() >= b.len() {
        a.len()
    } else {
        b.len()
    };
    proof {
        lemma_edit_dist_nonneg(str1@, str2@);
        lemma_edit_dist_le_max(str1@, str2@);
        crate::edit::lemma_edit_dist_zero_iff_eq(str1@, str2@);
    }
    Score::Edit { dist: d, max_len: ml }
}

} // verus!
