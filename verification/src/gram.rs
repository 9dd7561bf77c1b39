//! N-gram vectorization: character filtering, boundary padding, gram
//! extraction and gram counting, together with the specification-level
//! model of gram-count vectors (multiplicities, dot products, squared
//! norms) that the index's contracts are stated over.

use crate::text::{chars_vec, clone_chars, eq_chars, string_from_chars};
use vstd::prelude::*;

verus! {

/// Characters kept by the filter: Latin letters, ASCII digits, Latin-1
/// supplement letters, Arabic letters and digits, comma and space.
pub open spec fn is_word_char(c: char) -> bool {
    let u = c as u32;
    (0x41 <= u && u <= 0x5A) || (0x61 <= u && u <= 0x7A) || (0x30 <= u && u <= 0x39) || (0xC0 <= u
        && u <= 0xFF) || (0x621 <= u && u <= 0x64A) || (0x660 <= u && u <= 0x669) || u == 0x2C || u
        == 0x20
}

/// The subsequence of word characters of `s`, in order.
pub open spec fn filtered(s: Seq<char>) -> Seq<char>
    decreases s.len(),
{
    if s.len() == 0 {
        Seq::empty()
    } else {
        filtered(s.drop_last()) + if is_word_char(s.last()) {
            seq![s.last()]
        } else {
            Seq::empty()
        }
    }
}

/// The filtered word wrapped in boundary markers and right-padded with
/// further markers until at least `gs` characters long.
pub open spec fn padded(s: Seq<char>, gs: int) -> Seq<char> {
    let w = seq!['-'] + filtered(s) + seq!['-'];
    if w.len() >= gs {
        w
    } else {
        w + Seq::new((gs - w.len()) as nat, |i: int| '-')
    }
}

/// Every contiguous window of exactly `gs` characters of the padded word,
/// sliding by one character.
pub open spec fn gram_seq(s: Seq<char>, gs: int) -> Seq<Seq<char>> {
    let p = padded(s, gs);
    Seq::new((p.len() - gs + 1) as nat, |i: int| p.subrange(i, i + gs))
}

/// Number of occurrences of `g` in the sequence `s`.
pub open spec fn occ(s: Seq<Seq<char>>, g: Seq<char>) -> nat
    decreases s.len(),
{
    if s.len() == 0 {
        0
    } else {
        occ(s.drop_last(), g) + if s.last() == g {
            1nat
        } else {
            0nat
        }
    }
}

/// Multiplicity of the gram `g` in the gram bag of `s` at gram size `gs`.
pub open spec fn gram_mult(s: Seq<char>, gs: int, g: Seq<char>) -> nat {
    occ(gram_seq(s, gs), g)
}

/// `s` with later duplicates removed: each element once, in order of its
/// first occurrence.
pub open spec fn dedup(s: Seq<Seq<char>>) -> Seq<Seq<char>>
    decreases s.len(),
{
    if s.len() == 0 {
        Seq::empty()
    } else if s.drop_last().contains(s.last()) {
        dedup(s.drop_last())
    } else {
        dedup(s.drop_last()).push(s.last())
    }
}

/// The distinct grams of `s` at gram size `gs`, in first-occurrence order.
pub open spec fn distinct_grams(s: Seq<char>, gs: int) -> Seq<Seq<char>> {
    dedup(gram_seq(s, gs))
}

/// Sum over the grams listed in `d` of the product of their multiplicities
/// in `q` and in `k`.
pub open spec fn pair_sum(d: Seq<Seq<char>>, q: Seq<char>, k: Seq<char>, gs: int) -> int
    decreases d.len(),
{
    if d.len() == 0 {
        0
    } else {
        pair_sum(d.drop_last(), q, k, gs) + gram_mult(q, gs, d.last()) * gram_mult(k, gs, d.last())
    }
}

/// Dot product of the gram-count vectors of `q` and `k` at gram size `gs`.
pub open spec fn dot_of(q: Seq<char>, k: Seq<char>, gs: int) -> int {
    pair_sum(distinct_grams(q, gs), q, k, gs)
}

/// Squared Euclidean norm of the gram-count vector of `s` at size `gs`.
pub open spec fn sq_sum(s: Seq<char>, gs: int) -> int {
    dot_of(s, s, gs)
}

/// No element of `d` occurs twice.
pub open spec fn nodup(d: Seq<Seq<char>>) -> bool {
    forall|i: int, j: int| 0 <= i < j < d.len() ==> d[i] != d[j]
}

/// Sum over the grams listed in `d` of their multiplicities in `s`.
pub open spec fn osum(d: Seq<Seq<char>>, s: Seq<Seq<char>>) -> int
    decreases d.len(),
{
    if d.len() == 0 {
        0
    } else {
        osum(d.drop_last(), s) + occ(s, d.last())
    }
}

/// Filtering never lengthens a sequence.
pub proof fn lemma_filtered_len(s: Seq<char>)
    ensures
        filtered(s).len() <= s.len(),
    decreases s.len(),
{
    if s.len() > 0 {
        lemma_filtered_len(s.drop_last());
    }
}

/// The length of the padded word, and its lower bounds.
pub proof fn lemma_padded_len(s: Seq<char>, gs: int)
    requires
        1 <= gs,
    ensures
        padded(s, gs).len() == if filtered(s).len() + 2 >= gs {
            filtered(s).len() + 2
        } else {
            gs as nat
        },
        padded(s, gs).len() >= gs,
        padded(s, gs).len() >= 2,
{
}

/// There is always at least one gram, and each gram is `gs` characters.
pub proof fn lemma_gram_seq_basics(s: Seq<char>, gs: int)
    requires
        1 <= gs,
    ensures
        gram_seq(s, gs).len() == padded(s, gs).len() - gs + 1,
        gram_seq(s, gs).len() >= 1,
        forall|i: int|
            0 <= i < gram_seq(s, gs).len() ==> (#[trigger] gram_seq(s, gs)[i]).len() == gs,
{
    lemma_padded_len(s, gs);
}

/// A prefix of length `t + 1` is the prefix of length `t` plus `s[t]`.
pub proof fn lemma_take_step(s: Seq<Seq<char>>, t: int)
    requires
        0 <= t < s.len(),
    ensures
        s.take(t + 1).drop_last() == s.take(t),
        s.take(t + 1).last() == s[t],
{
    assert(s.take(t + 1).drop_last() =~= s.take(t));
}

/// A prefix of length `t + 1` is the prefix of length `t` plus `s[t]`,
/// for character sequences.
pub proof fn lemma_take_step_chars(s: Seq<char>, t: int)
    requires
        0 <= t < s.len(),
    ensures
        s.take(t + 1).drop_last() == s.take(t),
        s.take(t + 1).last() == s[t],
{
    assert(s.take(t + 1).drop_last() =~= s.take(t));
}

/// A gram occurs no more often than the sequence is long.
pub proof fn lemma_occ_le_len(s: Seq<Seq<char>>, g: Seq<char>)
    ensures
        0 <= occ(s, g) <= s.len(),
    decreases s.len(),
{
    if s.len() > 0 {
        lemma_occ_le_len(s.drop_last(), g);
    }
}

/// A gram occurs at least once exactly when the sequence contains it.
pub proof fn lemma_occ_pos_iff_contains(s: Seq<Seq<char>>, g: Seq<char>)
    ensures
        occ(s, g) > 0 <==> s.contains(g),
    decreases s.len(),
{
    if s.len() > 0 {
        lemma_occ_pos_iff_contains(s.drop_last(), g);
        if s.last() == g {
            assert(s.contains(g));
        } else {
            if s.drop_last().contains(g) {
                let i = choose|i: int| 0 <= i < s.drop_last().len() && s.drop_last()[i] == g;
                assert(s[i] == g);
                assert(s.contains(g));
            }
            if s.contains(g) {
                let i = choose|i: int| 0 <= i < s.len() && s[i] == g;
                assert(i < s.len() - 1);
                assert(s.drop_last()[i] == g);
                assert(s.drop_last().contains(g));
            }
        }
    }
}

/// Deduplication keeps exactly the elements of the sequence.
pub proof fn lemma_dedup_contains(s: Seq<Seq<char>>, g: Seq<char>)
    ensures
        dedup(s).contains(g) <==> s.contains(g),
    decreases s.len(),
{
    if s.len() > 0 {
        lemma_dedup_contains(s.drop_last(), g);
        let dl = s.drop_last();
        assert(s.contains(g) <==> (dl.contains(g) || s.last() == g)) by {
            if s.contains(g) {
                let i = choose|i: int| 0 <= i < s.len() && s[i] == g;
                if i < s.len() - 1 {
                    assert(dl[i] == g);
                    assert(dl.contains(g));
                }
            }
            if dl.contains(g) {
                let i = choose|i: int| 0 <= i < dl.len() && dl[i] == g;
                assert(s[i] == g);
                assert(s.contains(g));
            }
            if s.last() == g {
                assert(s[s.len() - 1] == g);
                assert(s.contains(g));
            }
        }
        if !dl.contains(s.last()) {
            let d = dedup(dl);
            assert(dedup(s) == d.push(s.last()));
            assert(dedup(s).contains(g) <==> (d.contains(g) || s.last() == g)) by {
                if dedup(s).contains(g) {
                    let i = choose|i: int| 0 <= i < dedup(s).len() && dedup(s)[i] == g;
                    if i < d.len() {
                        assert(d[i] == g);
                        assert(d.contains(g));
                    } else {
                        assert(dedup(s)[i] == s.last());
                    }
                }
                if d.contains(g) {
                    let i = choose|i: int| 0 <= i < d.len() && d[i] == g;
                    assert(d.push(s.last())[i] == g);
                    assert(dedup(s).contains(g));
                }
                if s.last() == g {
                    assert(d.push(s.last())[d.len() as int] == g);
                    assert(dedup(s).contains(g));
                }
            }
        }
    }
}

/// Deduplication leaves no duplicates.
pub proof fn lemma_dedup_nodup(s: Seq<Seq<char>>)
    ensures
        nodup(dedup(s)),
    decreases s.len(),
{
    if s.len() > 0 {
        lemma_dedup_nodup(s.drop_last());
        let dl = s.drop_last();
        if !dl.contains(s.last()) {
            lemma_dedup_contains(dl, s.last());
            let d = dedup(dl);
            assert(!d.contains(s.last()));
            assert(forall|i: int| 0 <= i < d.len() ==> d[i] != s.last()) by {
                if exists|i: int| 0 <= i < d.len() && d[i] == s.last() {
                    let i = choose|i: int| 0 <= i < d.len() && d[i] == s.last();
                    assert(d.contains(s.last()));
                }
            }
            assert(forall|i: int, j: int|
                0 <= i < j < d.push(s.last()).len() ==> d.push(s.last())[i] != d.push(
                    s.last(),
                )[j]);
        }
    }
}

/// Every deduplicated element comes from the sequence.
pub proof fn lemma_dedup_elem(s: Seq<Seq<char>>, u: int)
    requires
        0 <= u < dedup(s).len(),
    ensures
        s.contains(dedup(s)[u]),
{
    assert(dedup(s).contains(dedup(s)[u]));
    lemma_dedup_contains(s, dedup(s)[u]);
}

/// Appending one element to `s` raises `osum` by the number of listed
/// grams it equals.
pub proof fn lemma_osum_push(d: Seq<Seq<char>>, s: Seq<Seq<char>>, x: Seq<char>)
    ensures
        osum(d, s.push(x)) == osum(d, s) + occ(d, x),
    decreases d.len(),
{
    if d.len() > 0 {
        lemma_osum_push(d.drop_last(), s, x);
        assert(s.push(x).drop_last() =~= s);
        assert(s.push(x).last() == x);
    }
}

/// Over an empty sequence every multiplicity is zero.
pub proof fn lemma_osum_empty(d: Seq<Seq<char>>)
    ensures
        osum(d, Seq::empty()) == 0,
    decreases d.len(),
{
    if d.len() > 0 {
        lemma_osum_empty(d.drop_last());
    }
}

/// In a duplicate-free list every gram occurs at most once.
pub proof fn lemma_nodup_occ(d: Seq<Seq<char>>, x: Seq<char>)
    requires
        nodup(d),
    ensures
        occ(d, x) <= 1,
    decreases d.len(),
{
    if d.len() > 0 {
        let dl = d.drop_last();
        assert(nodup(dl)) by {
            assert(forall|i: int, j: int|
                0 <= i < j < dl.len() ==> dl[i] == d[i] && dl[j] == d[j]);
        }
        lemma_nodup_occ(dl, x);
        if d.last() == x {
            lemma_occ_pos_iff_contains(dl, x);
            if occ(dl, x) > 0 {
                let i = choose|i: int| 0 <= i < dl.len() && dl[i] == x;
                assert(d[i] == x && d[d.len() - 1] == x);
                assert(false);
            }
        }
    }
}

/// Summed over a duplicate-free list, multiplicities cannot exceed the
/// length of the counted sequence.
pub proof fn lemma_osum_le(d: Seq<Seq<char>>, s: Seq<Seq<char>>)
    requires
        nodup(d),
    ensures
        0 <= osum(d, s) <= s.len(),
    decreases s.len(),
{
    if s.len() == 0 {
        assert(s =~= Seq::empty());
        lemma_osum_empty(d);
    } else {
        let dl = s.drop_last();
        lemma_osum_le(d, dl);
        lemma_osum_push(d, dl, s.last());
        assert(dl.push(s.last()) =~= s);
        assert(osum(d, s) == osum(d, dl.push(s.last())));
        lemma_nodup_occ(d, s.last());
        assert(osum(d, s) <= dl.len() + 1);
    }
}

/// Each term of `pair_sum` is nonnegative, so the sum is monotone in the
/// listed grams and nonnegative.
pub proof fn lemma_pair_sum_nonneg(d: Seq<Seq<char>>, q: Seq<char>, k: Seq<char>, gs: int)
    ensures
        pair_sum(d, q, k, gs) >= 0,
    decreases d.len(),
{
    if d.len() > 0 {
        lemma_pair_sum_nonneg(d.drop_last(), q, k, gs);
        let a = gram_mult(q, gs, d.last());
        let b = gram_mult(k, gs, d.last());
        assert(a * b >= 0) by (nonlinear_arith)
            requires
                a >= 0,
                b >= 0,
        ;
    }
}

/// If every multiplicity in `k` is at most `cap`, the pair sum is at most
/// `cap` times the summed multiplicities in `q`.
pub proof fn lemma_pair_sum_le(d: Seq<Seq<char>>, q: Seq<char>, k: Seq<char>, gs: int, cap: int)
    requires
        cap >= 0,
        forall|g: Seq<char>| #[trigger] gram_mult(k, gs, g) <= cap,
    ensures
        pair_sum(d, q, k, gs) <= cap * osum(d, gram_seq(q, gs)),
    decreases d.len(),
{
    if d.len() == 0 {
        assert(cap * 0 == 0) by (nonlinear_arith);
    } else {
        lemma_pair_sum_le(d.drop_last(), q, k, gs, cap);
        let a = gram_mult(q, gs, d.last());
        let b = gram_mult(k, gs, d.last());
        let o = osum(d.drop_last(), gram_seq(q, gs));
        assert(a * b <= a * cap) by (nonlinear_arith)
            requires
                a >= 0,
                b <= cap,
        ;
        assert(cap * (o + a) == cap * o + a * cap) by (nonlinear_arith);
    }
}

/// The pair sum is positive exactly when some listed gram occurs in both
/// operands.
pub proof fn lemma_pair_sum_pos_iff(d: Seq<Seq<char>>, q: Seq<char>, k: Seq<char>, gs: int)
    ensures
        pair_sum(d, q, k, gs) > 0 <==> exists|j: int|
            0 <= j < d.len() && gram_mult(q, gs, #[trigger] d[j]) > 0 && gram_mult(k, gs, d[j])
                > 0,
    decreases d.len(),
{
    if d.len() > 0 {
        let dl = d.drop_last();
        lemma_pair_sum_pos_iff(dl, q, k, gs);
        lemma_pair_sum_nonneg(dl, q, k, gs);
        let a = gram_mult(q, gs, d.last());
        let b = gram_mult(k, gs, d.last());
        assert(a * b >= 0 && (a * b > 0 <==> (a > 0 && b > 0))) by (nonlinear_arith)
            requires
                a >= 0,
                b >= 0,
        ;
        if pair_sum(d, q, k, gs) > 0 {
            if a > 0 && b > 0 {
                assert(0 <= d.len() - 1 < d.len() && gram_mult(q, gs, d[d.len() - 1]) > 0
                    && gram_mult(k, gs, d[d.len() - 1]) > 0);
            } else {
                let j = choose|j: int|
                    0 <= j < dl.len() && gram_mult(q, gs, #[trigger] dl[j]) > 0 && gram_mult(
                        k,
                        gs,
                        dl[j],
                    ) > 0;
                assert(d[j] == dl[j]);
            }
        } else {
            if exists|j: int|
                0 <= j < d.len() && gram_mult(q, gs, #[trigger] d[j]) > 0 && gram_mult(k, gs, d[j])
                    > 0 {
                let j = choose|j: int|
                    0 <= j < d.len() && gram_mult(q, gs, #[trigger] d[j]) > 0 && gram_mult(
                        k,
                        gs,
                        d[j],
                    ) > 0;
                if j < d.len() - 1 {
                    assert(dl[j] == d[j]);
                }
                assert(false);
            }
        }
    }
}

/// With text and gram size bounded by the index's limits, every gram
/// multiplicity and the number of grams stay below `2^16`.
pub proof fn lemma_mult_bound(s: Seq<char>, gs: int)
    requires
        1 <= gs <= 65533,
        s.len() <= 65533,
    ensures
        gram_seq(s, gs).len() <= 65535,
        forall|g: Seq<char>| #[trigger] gram_mult(s, gs, g) <= 65535,
{
    lemma_filtered_len(s);
    lemma_padded_len(s, gs);
    lemma_gram_seq_basics(s, gs);
    assert forall|g: Seq<char>| #[trigger] gram_mult(s, gs, g) <= 65535 by {
        lemma_occ_le_len(gram_seq(s, gs), g);
    }
}

/// With both operands bounded, any duplicate-free gram list gives a pair
/// sum of at most `65535 * 65535`, which is below `2^32`.
pub proof fn lemma_pair_sum_cap(d: Seq<Seq<char>>, q: Seq<char>, k: Seq<char>, gs: int)
    requires
        nodup(d),
        1 <= gs <= 65533,
        q.len() <= 65533,
        k.len() <= 65533,
    ensures
        0 <= pair_sum(d, q, k, gs) <= 0xFFFE_0001,
{
    lemma_pair_sum_nonneg(d, q, k, gs);
    lemma_mult_bound(k, gs);
    lemma_pair_sum_le(d, q, k, gs, 65535);
    lemma_mult_bound(q, gs);
    lemma_osum_le(d, gram_seq(q, gs));
    let o = osum(d, gram_seq(q, gs));
    assert(65535 * o <= 65535 * 65535) by (nonlinear_arith)
        requires
            0 <= o <= 65535,
    ;
}

/// Every string has at least one gram (thanks to padding), so its
/// gram-count vector against itself is strictly positive.
pub proof fn lemma_sq_sum_pos(s: Seq<char>, gs: int)
    requires
        1 <= gs,
    ensures
        sq_sum(s, gs) >= 1,
        dot_of(s, s, gs) >= 1,
{
    lemma_gram_seq_basics(s, gs);
    let gsq = gram_seq(s, gs);
    let d = distinct_grams(s, gs);
    assert(gsq.contains(gsq[0]));
    lemma_dedup_contains(gsq, gsq[0]);
    assert(d.contains(gsq[0]));
    let j = choose|j: int| 0 <= j < d.len() && d[j] == gsq[0];
    lemma_occ_pos_iff_contains(gsq, gsq[0]);
    assert(gram_mult(s, gs, d[j]) > 0);
    lemma_pair_sum_pos_iff(d, s, s, gs);
}

/// Whether the filter keeps this character.
fn is_word_char_exec(c: char) -> (r: bool)
    ensures
        r == is_word_char(c),
{
    let u = c as u32;
    (0x41 <= u && u <= 0x5A) || (0x61 <= u && u <= 0x7A) || (0x30 <= u && u <= 0x39) || (0xC0 <= u
        && u <= 0xFF) || (0x621 <= u && u <= 0x64A) || (0x660 <= u && u <= 0x669) || u == 0x2C || u
        == 0x20
}

/// The filtered word of `s`, wrapped and padded with boundary markers.
fn build_padded(s: &Vec<char>, gs: usize) -> (r: Vec<char>)
    requires
        1 <= gs,
        s@.len() + 2 + gs < usize::MAX,
    ensures
        r@ == padded(s@, gs as int),
{
    proof {
        lemma_filtered_len(s@);
        lemma_padded_len(s@, gs as int);
    }
    let mut r: Vec<char> = Vec::new();
    r.push('-');
    let mut i: usize = 0;
    while i < s.len()
        invariant
            0 <= i <= s@.len(),
            s@.len() + 2 + gs < usize::MAX,
            r@ == seq!['-'] + filtered(s@.take(i as int)),
        decreases s@.len() - i,
    {
        proof {
            lemma_take_step_chars(s@, i as int);
            lemma_filtered_len(s@.take(i + 1));
        }
        if is_word_char_exec(s[i]) {
            r.push(s[i]);
            proof {
                assert(r@ =~= seq!['-'] + filtered(s@.take(i + 1)));
            }
        } else {
            proof {
                assert(r@ =~= seq!['-'] + filtered(s@.take(i + 1)));
            }
        }
        i += 1;
    }
    proof {
        assert(s@.take(s@.len() as int) =~= s@);
    }
    r.push('-');
    let ghost w = seq!['-'] + filtered(s@) + seq!['-'];
    proof {
        assert(r@ =~= w);
    }
    while r.len() < gs
        invariant
            w == seq!['-'] + filtered(s@) + seq!['-'],
            w.len() <= r@.len() <= if w.len() >= gs {
                w.len()
            } else {
                gs as nat
            },
            r@ == w + Seq::new((r@.len() - w.len()) as nat, |t: int| '-'),
        decreases gs - r@.len(),
    {
        r.push('-');
        proof {
            assert(r@ =~= w + Seq::new((r@.len() - w.len()) as nat, |t: int| '-'));
        }
    }
    proof {
        assert(r@ =~= padded(s@, gs as int));
    }
    r
}

/// All grams of `s` at size `gs`, as character vectors.
fn grams_list(s: &Vec<char>, gs: usize) -> (r: Vec<Vec<char>>)
    requires
        1 <= gs,
        s@.len() + 2 + gs < usize::MAX,
    ensures
        r@.len() == gram_seq(s@, gs as int).len(),
        forall|t: int| 0 <= t < r@.len() ==> (#[trigger] r@[t])@ == gram_seq(s@, gs as int)[t],
{
    let p = build_padded(s, gs);
    proof {
        lemma_padded_len(s@, gs as int);
        lemma_gram_seq_basics(s@, gs as int);
    }
    let plen = p.len();
    let count = plen - gs + 1;
    let mut r: Vec<Vec<char>> = Vec::new();
    let mut i: usize = 0;
    while i < count
        invariant
            0 <= i <= count,
            1 <= gs,
            p@ == padded(s@, gs as int),
            plen == p@.len(),
            count == p@.len() - gs + 1,
            gram_seq(s@, gs as int).len() == count,
            r@.len() == i,
            forall|t: int| 0 <= t < i ==> (#[trigger] r@[t])@ == gram_seq(s@, gs as int)[t],
        decreases count - i,
    {
        let mut w: Vec<char> = Vec::new();
        let mut u: usize = 0;
        while u < gs
            invariant
                0 <= u <= gs,
                plen == p@.len(),
                i + gs <= plen,
                w@ == p@.subrange(i as int, i + u),
            decreases gs - u,
        {
            w.push(p[i + u]);
            proof {
                assert(w@ =~= p@.subrange(i as int, i + u + 1));
            }
            u += 1;
        }
        proof {
            assert(w@ == gram_seq(s@, gs as int)[i as int]);
        }
        r.push(w);
        i += 1;
    }
    r
}

/// Position of the entry for the gram `g` in a counter under construction.
fn find_gram(r: &Vec<(Vec<char>, usize)>, g: &Vec<char>) -> (res: Option<usize>)
    ensures
        match res {
            Some(j) => 0 <= j < r@.len() && r@[j as int].0@ == g@,
            None => forall|u: int| 0 <= u < r@.len() ==> (#[trigger] r@[u]).0@ != g@,
        },
{
    let mut j: usize = 0;
    while j < r.len()
        invariant
            0 <= j <= r@.len(),
            forall|u: int| 0 <= u < j ==> (#[trigger] r@[u]).0@ != g@,
        decreases r@.len() - j,
    {
        if eq_chars(&r[j].0, g) {
            return Some(j);
        }
        j += 1;
    }
    None
}

/// The gram-count vector of `s` at size `gs`: each distinct gram in
/// first-occurrence order, with its multiplicity.
pub(crate) fn count_grams(s: &Vec<char>, gs: usize) -> (r: Vec<(Vec<char>, usize)>)
    requires
        1 <= gs,
        s@.len() + 2 + gs < usize::MAX,
    ensures
        r@.len() == distinct_grams(s@, gs as int).len(),
        forall|u: int|
            0 <= u < r@.len() ==> (#[trigger] r@[u]).0@ == distinct_grams(s@, gs as int)[u],
        forall|u: int|
            0 <= u < r@.len() ==> (#[trigger] r@[u]).1 as int == gram_mult(
                s@,
                gs as int,
                r@[u].0@,
            ),
        forall|u: int| 0 <= u < r@.len() ==> 1 <= (#[trigger] r@[u]).1,
        forall|u: int| 0 <= u < r@.len() ==> (#[trigger] r@[u]).0@.len() == gs,
{
    let grams = grams_list(s, gs);
    let ghost gsq = gram_seq(s@, gs as int);
    let mut r: Vec<(Vec<char>, usize)> = Vec::new();
    let mut t: usize = 0;
    while t < grams.len()
        invariant
            0 <= t <= grams@.len(),
            grams@.len() == gsq.len(),
            forall|x: int| 0 <= x < gsq.len() ==> (#[trigger] grams@[x])@ == gsq[x],
            r@.len() == dedup(gsq.take(t as int)).len(),
            forall|u: int|
                0 <= u < r@.len() ==> (#[trigger] r@[u]).0@ == dedup(gsq.take(t as int))[u],
            forall|u: int|
                0 <= u < r@.len() ==> (#[trigger] r@[u]).1 as int == occ(
                    gsq.take(t as int),
                    r@[u].0@,
                ),
            forall|u: int| 0 <= u < r@.len() ==> 1 <= (#[trigger] r@[u]).1,
        decreases grams@.len() - t,
    {
        let g = &grams[t];
        let ghost pre = gsq.take(t as int);
        let ghost d0 = dedup(pre);
        proof {
            lemma_take_step(gsq, t as int);
            lemma_dedup_nodup(pre);
            lemma_dedup_contains(pre, gsq[t as int]);
            lemma_occ_le_len(pre, gsq[t as int]);
        }
        match find_gram(&r, g) {
            Some(j) => {
                proof {
                    assert(d0.contains(gsq[t as int])) by {
                        assert(d0[j as int] == g@);
                    }
                    assert(pre.contains(gsq[t as int]));
                    assert(dedup(gsq.take(t + 1)) == d0);
                }
                let (gv, c) = r.remove(j);
                r.insert(j, (gv, c + 1));
                proof {
                    assert(forall|u: int|
                        0 <= u < r@.len() ==> (#[trigger] r@[u]).1 as int == occ(
                            gsq.take(t + 1),
                            r@[u].0@,
                        )) by {
                        assert(forall|u: int|
                            0 <= u < r@.len() && u != j ==> r@[u].0@ == d0[u] && d0[u] != d0[
                                j as int]);
                    }
                }
            },
            None => {
                proof {
                    assert(!d0.contains(gsq[t as int])) by {
                        if d0.contains(gsq[t as int]) {
                            let u = choose|u: int| 0 <= u < d0.len() && d0[u] == gsq[t as int];
                            assert(r@[u].0@ == g@);
                        }
                    }
                    lemma_dedup_contains(pre, gsq[t as int]);
                    assert(!pre.contains(gsq[t as int]));
                    assert(dedup(gsq.take(t + 1)) == d0.push(gsq[t as int]));
                    lemma_occ_pos_iff_contains(pre, gsq[t as int]);
                    assert(occ(pre, gsq[t as int]) == 0);
                }
                let gv = clone_chars(g);
                r.push((gv, 1));
            },
        }
        t += 1;
    }
    proof {
        assert(gsq.take(gsq.len() as int) =~= gsq);
        assert(forall|u: int|
            0 <= u < r@.len() ==> (#[trigger] r@[u]).0@.len() == gs) by {
            lemma_dedup_nodup(gsq);
            lemma_gram_seq_basics(s@, gs as int);
            assert forall|u: int| 0 <= u < r@.len() implies (#[trigger] r@[u]).0@.len()
                == gs by {
                lemma_dedup_elem(gsq, u);
                let i = choose|i: int| 0 <= i < gsq.len() && gsq[i] == dedup(gsq)[u];
                assert(gsq[i].len() == gs);
            }
        }
    }
    r
}

/// Every gram of the padded, filtered form of `s` at size `gram_size`, in
/// order of position.
pub fn iterate_grams(s: &str, gram_size: usize) -> (r: Vec<String>)
    requires
        1 <= gram_size,
        s@.len() + 2 + gram_size < usize::MAX,
    ensures
        r@.len() == gram_seq(s@, gram_size as int).len(),
        forall|t: int|
            0 <= t < r@.len() ==> (#[trigger] r@[t])@ == gram_seq(s@, gram_size as int)[t],
{
    let cs = chars_vec(s);
    let gl = grams_list(&cs, gram_size);
    let mut r: Vec<String> = Vec::new();
    let mut t: usize = 0;
    while t < gl.len()
        invariant
            0 <= t <= gl@.len(),
            gl@.len() == gram_seq(s@, gram_size as int).len(),
            forall|x: int|
                0 <= x < gl@.len() ==> (#[trigger] gl@[x])@ == gram_seq(s@, gram_size as int)[x],
            r@.len() == t,
            forall|x: int|
                0 <= x < t ==> (#[trigger] r@[x])@ == gram_seq(s@, gram_size as int)[x],
        decreases gl@.len() - t,
    {
        r.push(string_from_chars(&gl[t]));
        t += 1;
    }
    r
}

/// The gram-count vector of `s` at size `gram_size`: each distinct gram in
/// first-occurrence order, with its multiplicity.
pub fn gram_counter(s: &str, gram_size: usize) -> (r: Vec<(String, usize)>)
    requires
        1 <= gram_size,
        s@.len() + 2 + gram_size < usize::MAX,
    ensures
        r@.len() == distinct_grams(s@, gram_size as int).len(),
        forall|u: int|
            0 <= u < r@.len() ==> (#[trigger] r@[u]).0@ == distinct_grams(s@, gram_size as int)[u],
        forall|u: int|
            0 <= u < r@.len() ==> (#[trigger] r@[u]).1 as int == gram_mult(
                s@,
                gram_size as int,
                r@[u].0@,
            ),
{
    let cs = chars_vec(s);
    let cg = count_grams(&cs, gram_size);
    let mut r: Vec<(String, usize)> = Vec::new();
    let mut t: usize = 0;
    while t < cg.len()
        invariant
            0 <= t <= cg@.len(),
            cg@.len() == distinct_grams(s@, gram_size as int).len(),
            forall|x: int|
                0 <= x < cg@.len() ==> (#[trigger] cg@[x]).0@ == distinct_grams(
                    s@,
                    gram_size as int,
                )[x],
            forall|x: int|
                0 <= x < cg@.len() ==> (#[trigger] cg@[x]).1 as int == gram_mult(
                    s@,
                    gram_size as int,
                    cg@[x].0@,
                ),
            r@.len() == t,
            forall|x: int|
                0 <= x < t ==> (#[trigger] r@[x]).0@ == distinct_grams(s@, gram_size as int)[x]
                    && r@[x].1 as int == gram_mult(s@, gram_size as int, r@[x].0@),
        decreases cg@.len() - t,
    {
        let gs_str = string_from_chars(&cg[t].0);
        let c = cg[t].1;
        r.push((gs_str, c));
        t += 1;
    }
    r
}

} // verus!
