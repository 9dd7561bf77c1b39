//! Levenshtein edit distance: specification, verified dynamic-programming
//! implementation, and its algebraic laws.

use crate::text::chars_vec;
use vstd::prelude::*;

verus! {

/// The smaller of two integers.
pub open spec fn min2(a: int, b: int) -> int {
    if a <= b {
        a
    } else {
        b
    }
}

/// The smallest of three integers.
pub open spec fn min3(a: int, b: int, c: int) -> int {
    min2(min2(a, b), c)
}

/// Levenshtein distance between two character sequences: the least number
/// of single-character insertions, deletions and substitutions that turns
/// `a` into `b`.
pub open spec fn edit_dist(a: Seq<char>, b: Seq<char>) -> int
    decreases a.len(), b.len(),
{
    if a.len() == 0 {
        b.len() as int
    } else if b.len() == 0 {
        a.len() as int
    } else if a.last() == b.last() {
        edit_dist(a.drop_last(), b.drop_last())
    } else {
        1 + min3(
            edit_dist(a.drop_last(), b),
            edit_dist(a, b.drop_last()),
            edit_dist(a.drop_last(), b.drop_last()),
        )
    }
}

/// The distance is never negative.
pub proof fn lemma_edit_dist_nonneg(a: Seq<char>, b: Seq<char>)
    ensures
        edit_dist(a, b) >= 0,
    decreases a.len(), b.len(),
{
    if a.len() == 0 || b.len() == 0 {
    } else if a.last() == b.last() {
        lemma_edit_dist_nonneg(a.drop_last(), b.drop_last());
    } else {
        lemma_edit_dist_nonneg(a.drop_last(), b);
        lemma_edit_dist_nonneg(a, b.drop_last());
        lemma_edit_dist_nonneg(a.drop_last(), b.drop_last());
    }
}

/// The distance never exceeds the length of the longer sequence, so the
/// derived similarity `1 - d / max(|a|, |b|)` always lies in `[0, 1]`.
pub proof fn lemma_edit_dist_le_max(a: Seq<char>, b: Seq<char>)
    ensures
        edit_dist(a, b) <= if a.len() >= b.len() {
            a.len() as int
        } else {
            b.len() as int
        },
    decreases a.len(), b.len(),
{
    if a.len() == 0 || b.len() == 0 {
    } else if a.last() == b.last() {
        lemma_edit_dist_le_max(a.drop_last(), b.drop_last());
    } else {
        lemma_edit_dist_le_max(a.drop_last(), b);
        lemma_edit_dist_le_max(a, b.drop_last());
        lemma_edit_dist_le_max(a.drop_last(), b.drop_last());
    }
}

/// The distance is symmetric in its arguments.
pub proof fn lemma_edit_dist_symmetric(a: Seq<char>, b: Seq<char>)
    ensures
        edit_dist(a, b) == edit_dist(b, a),
    decreases a.len(), b.len(),
{
    if a.len() == 0 || b.len() == 0 {
    } else if a.last() == b.last() {
        lemma_edit_dist_symmetric(a.drop_last(), b.drop_last());
    } else {
        lemma_edit_dist_symmetric(a.drop_last(), b);
        lemma_edit_dist_symmetric(a, b.drop_last());
        lemma_edit_dist_symmetric(a.drop_last(), b.drop_last());
    }
}

/// The distance is zero exactly when the two sequences are
/// character-identical.
pub proof fn lemma_edit_dist_zero_iff_eq(a: Seq<char>, b: Seq<char>)
    ensures
        edit_dist(a, b) == 0 <==> a == b,
    decreases a.len(), b.len(),
{
    lemma_edit_dist_nonneg(a, b);
    if a.len() == 0 || b.len() == 0 {
        if a.len() == 0 && b.len() == 0 {
            assert(a =~= b);
        }
    } else if a.last() == b.last() {
        lemma_edit_dist_zero_iff_eq(a.drop_last(), b.drop_last());
        if edit_dist(a, b) == 0 {
            assert(a =~= a.drop_last().push(a.last()));
            assert(b =~= b.drop_last().push(b.last()));
        }
        if a == b {
            assert(a.drop_last() =~= b.drop_last());
        }
    } else {
        lemma_edit_dist_nonneg(a.drop_last(), b);
        lemma_edit_dist_nonneg(a, b.drop_last());
        lemma_edit_dist_nonneg(a.drop_last(), b.drop_last());
        assert(edit_dist(a, b) > 0);
        assert(a != b) by {
            if a == b {
                assert(a.last() == b.last());
            }
        }
    }
}

/// One step of the dynamic-programming recurrence, phrased over prefixes.
proof fn lemma_edit_dist_step(a: Seq<char>, b: Seq<char>, i: int, j: int)
    requires
        0 <= i < a.len(),
        0 <= j < b.len(),
    ensures
        edit_dist(a.take(i + 1), b.take(j + 1)) == if a[i] == b[j] {
            edit_dist(a.take(i), b.take(j))
        } else {
            1 + min3(
                edit_dist(a.take(i), b.take(j + 1)),
                edit_dist(a.take(i + 1), b.take(j)),
                edit_dist(a.take(i), b.take(j)),
            )
        },
{
    let ai = a.take(i + 1);
    let bj = b.take(j + 1);
    assert(ai.len() == i + 1 && bj.len() == j + 1);
    assert(ai.last() == a[i]);
    assert(bj.last() == b[j]);
    assert(ai.drop_last() =~= a.take(i));
    assert(bj.drop_last() =~= b.take(j));
}

/// A sequence taken to its full length is itself.
proof fn lemma_take_full(a: Seq<char>)
    ensures
        a.take(a.len() as int) == a,
{
    assert(a.take(a.len() as int) =~= a);
}

/// Distance from the empty prefix.
proof fn lemma_edit_dist_empty(a: Seq<char>, b: Seq<char>, i: int, j: int)
    requires
        0 <= i <= a.len(),
        0 <= j <= b.len(),
    ensures
        edit_dist(a.take(0), b.take(j)) == j,
        edit_dist(a.take(i), b.take(0)) == i,
{
    assert(a.take(0).len() == 0);
    assert(b.take(0).len() == 0);
    assert(b.take(j).len() == j);
    assert(a.take(i).len() == i);
}

/// Levenshtein distance over character vectors, by the classic two-row
/// dynamic programming over character positions.
pub(crate) fn levenshtein_chars(a: &Vec<char>, b: &Vec<char>) -> (r: usize)
    requires
        a@.len() < usize::MAX,
        b@.len() < usize::MAX,
    ensures
        r as int == edit_dist(a@, b@),
{
    let m = a.len();
    let n = b.len();
    let mut prev: Vec<usize> = Vec::new();
    let mut j: usize = 0;
    while j <= n
        invariant
            n == b@.len() < usize::MAX,
            0 <= j <= n + 1,
            prev@.len() == j,
            forall|t: int| 0 <= t < j ==> prev@[t] == t,
        decreases n + 1 - j,
    {
        prev.push(j);
        j += 1;
    }
    proof {
        lemma_edit_dist_empty(a@, b@, 0, 0);
    }
    let mut i: usize = 0;
    while i < m
        invariant
            m == a@.len() < usize::MAX,
            n == b@.len() < usize::MAX,
            0 <= i <= m,
            prev@.len() == n + 1,
            forall|t: int| 0 <= t <= n ==> prev@[t] == edit_dist(a@.take(i as int), b@.take(t)),
        decreases m - i,
    {
        let mut curr: Vec<usize> = Vec::new();
        proof {
            lemma_edit_dist_empty(a@, b@, i + 1, 0);
        }
        curr.push(i + 1);
        let mut j: usize = 0;
        while j < n
            invariant
                m == a@.len() < usize::MAX,
                n == b@.len() < usize::MAX,
                0 <= i < m,
                0 <= j <= n,
                prev@.len() == n + 1,
                forall|t: int| 0 <= t <= n ==> prev@[t] == edit_dist(a@.take(i as int), b@.take(t)),
                curr@.len() == j + 1,
                forall|t: int| 0 <= t <= j ==> curr@[t] == edit_dist(
                    a@.take(i + 1),
                    b@.take(t),
                ),
            decreases n - j,
        {
            proof {
                lemma_edit_dist_step(a@, b@, i as int, j as int);
                lemma_edit_dist_nonneg(a@.take(i as int), b@.take(j as int));
                lemma_edit_dist_nonneg(a@.take(i as int), b@.take(j + 1));
                lemma_edit_dist_nonneg(a@.take(i + 1), b@.take(j as int));
                lemma_edit_dist_le_max(a@.take(i as int), b@.take(j as int));
                lemma_edit_dist_le_max(a@.take(i as int), b@.take(j + 1));
                lemma_edit_dist_le_max(a@.take(i + 1), b@.take(j as int));
            }
            let c: usize = if a[i] == b[j] {
                prev[j]
            } else {
                let del = prev[j + 1] + 1;
                let ins = curr[j] + 1;
                let sub = prev[j] + 1;
                let mut v = if del <= ins {
                    del
                } else {
                    ins
                };
                if sub < v {
                    v = sub;
                }
                v
            };
            curr.push(c);
            j += 1;
        }
        prev = curr;
        i += 1;
    }
    proof {
        lemma_take_full(a@);
        lemma_take_full(b@);
    }
    prev[n]
}

/// Levenshtein distance between two strings, counted over characters.
pub fn levenshtein(str1: &str, str2: &str) -> (r: usize)
    requires
        str1@.len() < usize::MAX,
        str2@.len() < usize::MAX,
    ensures
        r as int == edit_dist(str1@, str2@),
{
    let a = chars_vec(str1);
    let b = chars_vec(str2);
    levenshtein_chars(&a, &b)
}

} // verus!
