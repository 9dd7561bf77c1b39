//! The fuzzy index: insertion-ordered normalized keys, one squared-norm
//! table per gram size, and a single inverted index shared by all gram
//! sizes (safe because a gram's string length equals its gram size, so
//! grams of different sizes can never collide).

use crate::edit::{edit_dist, lemma_edit_dist_le_max, lemma_edit_dist_nonneg};
use crate::gram::{
    count_grams, distinct_grams, dot_of, gram_mult, gram_seq, lemma_dedup_contains,
    lemma_dedup_nodup, lemma_mult_bound, lemma_occ_pos_iff_contains, lemma_pair_sum_nonneg,
    lemma_take_step, nodup, pair_sum, sq_sum,
};
use crate::score::{
    lemma_score_ge_total, lemma_score_ge_trans, same_kind, score_at_least_frac,
    score_at_least_frac_exec, score_ge, score_ge_exec, score_is_one, score_sortable, Score,
};
use crate::text::{chars_vec, clone_chars, eq_chars, lower_of, normalize_string};
use vstd::multiset::Multiset;
use vstd::prelude::*;

verus! {

/// The scoring policy applied to the candidates of a query.
#[derive(Clone, Copy, Debug, PartialEq, Eq, Structural)]
pub enum ComparisonAlgorithm {
    /// Cosine similarity shortlists candidates; Levenshtein similarity
    /// ranks them.
    Levenshtein,
    /// Cosine similarity is reported directly.
    Other,
}

/// Longest key or query the index accepts, in characters of the
/// normalized form, and the largest accepted gram size.  Both keep every
/// gram count below `2^16`, so that all score arithmetic fits in `u128`.
pub const MAX_TEXT_LEN: usize = 65533;

/// The posting list of the gram `g` over the key sequence `kv`: for each
/// key containing `g` (at the gram size given by `g`'s own length), in
/// insertion order, the key's position and the gram's multiplicity in it.
pub open spec fn postings(kv: Seq<Seq<char>>, g: Seq<char>) -> Seq<(int, int)>
    decreases kv.len(),
{
    if kv.len() == 0 {
        Seq::empty()
    } else {
        let rest = postings(kv.drop_last(), g);
        let m = gram_mult(kv.last(), g.len() as int, g);
        if m > 0 {
            rest.push(((kv.len() - 1) as int, m as int))
        } else {
            rest
        }
    }
}

/// An executable posting list carries exactly the entries of a
/// specification-level one.
pub open spec fn plist_matches(pl: Seq<(usize, usize)>, ps: Seq<(int, int)>) -> bool {
    pl.len() == ps.len() && forall|u: int|
        0 <= u < pl.len() ==> ((#[trigger] pl[u]).0 as int, pl[u].1 as int) == ps[u]
}

/// Structure of a posting list: positions are valid, strictly increasing,
/// and carry the exact positive multiplicities; every key containing the
/// gram is listed.
pub proof fn lemma_postings_props(kv: Seq<Seq<char>>, g: Seq<char>)
    ensures
        forall|u: int|
            0 <= u < postings(kv, g).len() ==> 0 <= (#[trigger] postings(kv, g)[u]).0 < kv.len()
                && postings(kv, g)[u].1 == gram_mult(kv[postings(kv, g)[u].0], g.len() as int, g)
                && postings(kv, g)[u].1 > 0,
        forall|u1: int, u2: int|
            0 <= u1 < u2 < postings(kv, g).len() ==> (#[trigger] postings(kv, g)[u1]).0 < (
            #[trigger] postings(kv, g)[u2]).0,
        forall|i: int|
            0 <= i < kv.len() ==> (gram_mult(#[trigger] kv[i], g.len() as int, g) > 0 <==> exists|
                u: int,
            | 0 <= u < postings(kv, g).len() && (#[trigger] postings(kv, g)[u]).0 == i),
    decreases kv.len(),
{
    if kv.len() > 0 {
        let dl = kv.drop_last();
        lemma_postings_props(dl, g);
        let rest = postings(dl, g);
        let m = gram_mult(kv.last(), g.len() as int, g);
        assert(forall|i: int| 0 <= i < dl.len() ==> dl[i] == kv[i]);
        assert forall|i: int| 0 <= i < kv.len() implies (gram_mult(
            #[trigger] kv[i],
            g.len() as int,
            g,
        ) > 0 <==> exists|u: int|
            0 <= u < postings(kv, g).len() && (#[trigger] postings(kv, g)[u]).0 == i) by {
            if i < kv.len() - 1 {
                if gram_mult(kv[i], g.len() as int, g) > 0 {
                    let u = choose|u: int| 0 <= u < rest.len() && (#[trigger] rest[u]).0 == i;
                    assert(postings(kv, g)[u].0 == i);
                } else {
                    if exists|u: int|
                        0 <= u < postings(kv, g).len() && (#[trigger] postings(kv, g)[u]).0 == i {
                        let u = choose|u: int|
                            0 <= u < postings(kv, g).len() && (#[trigger] postings(kv, g)[u]).0
                                == i;
                        if u < rest.len() {
                            assert(rest[u].0 == i);
                        }
                    }
                }
            } else {
                if m > 0 {
                    assert(postings(kv, g)[postings(kv, g).len() - 1].0 == i);
                } else {
                    if exists|u: int|
                        0 <= u < postings(kv, g).len() && (#[trigger] postings(kv, g)[u]).0 == i {
                        let u = choose|u: int|
                            0 <= u < postings(kv, g).len() && (#[trigger] postings(kv, g)[u]).0
                                == i;
                        assert(rest[u].0 == i);
                    }
                }
            }
        }
    }
}

/// Appending a key extends exactly the posting lists of its grams.
pub proof fn lemma_postings_push(kv: Seq<Seq<char>>, n: Seq<char>, g: Seq<char>)
    ensures
        postings(kv.push(n), g) == if gram_mult(n, g.len() as int, g) > 0 {
            postings(kv, g).push((kv.len() as int, gram_mult(n, g.len() as int, g) as int))
        } else {
            postings(kv, g)
        },
{
    assert(kv.push(n).drop_last() =~= kv);
    assert(kv.push(n).last() == n);
}

/// A gram no key contains has an empty posting list.
pub proof fn lemma_postings_empty(kv: Seq<Seq<char>>, g: Seq<char>)
    requires
        forall|i: int| 0 <= i < kv.len() ==> gram_mult(#[trigger] kv[i], g.len() as int, g) == 0,
    ensures
        postings(kv, g).len() == 0,
    decreases kv.len(),
{
    if kv.len() > 0 {
        let dl = kv.drop_last();
        assert(forall|i: int| 0 <= i < dl.len() ==> dl[i] == kv[i]);
        lemma_postings_empty(dl, g);
        assert(kv[kv.len() - 1] == kv.last());
    }
}

/// The score the policy `alg` assigns to the stored key `k` for the
/// normalized query `q` at gram size `gs`.
pub open spec fn score_of(alg: ComparisonAlgorithm, q: Seq<char>, k: Seq<char>, gs: int) -> Score {
    match alg {
        ComparisonAlgorithm::Levenshtein => Score::Edit {
            dist: edit_dist(k, q) as usize,
            max_len: if k.len() >= q.len() {
                k.len() as usize
            } else {
                q.len() as usize
            },
        },
        ComparisonAlgorithm::Other => Score::Cosine {
            dot: dot_of(q, k, gs) as u64,
            qsq: sq_sum(q, gs) as u64,
            msq: sq_sum(k, gs) as u64,
        },
    }
}

/// Whether the stored key `k` appears in the answer: it shares a gram
/// with the query and its score reaches the threshold.
pub open spec fn hit(
    alg: ComparisonAlgorithm,
    q: Seq<char>,
    k: Seq<char>,
    gs: int,
    mn: int,
    md: int,
) -> bool {
    dot_of(q, k, gs) > 0 && score_at_least_frac(score_of(alg, q, k, gs), mn, md)
}

/// The bag of `(score, key)` answers for the query `q` at gram size `gs`
/// under threshold `mn / md`.
pub open spec fn result_bag(
    alg: ComparisonAlgorithm,
    kv: Seq<Seq<char>>,
    q: Seq<char>,
    gs: int,
    mn: int,
    md: int,
) -> Multiset<(Score, Seq<char>)>
    decreases kv.len(),
{
    if kv.len() == 0 {
        Multiset::empty()
    } else {
        let rest = result_bag(alg, kv.drop_last(), q, gs, mn, md);
        if hit(alg, q, kv.last(), gs, mn, md) {
            rest.insert((score_of(alg, q, kv.last(), gs), kv.last()))
        } else {
            rest
        }
    }
}

/// The bag of `(score, key view)` pairs held by an executable answer.
pub open spec fn pairs_bag(s: Seq<(Score, String)>) -> Multiset<(Score, Seq<char>)>
    decreases s.len(),
{
    if s.len() == 0 {
        Multiset::empty()
    } else {
        pairs_bag(s.drop_last()).insert((s.last().0, s.last().1@))
    }
}

/// Scores never increase along the answer sequence.
pub open spec fn sorted_desc(s: Seq<(Score, String)>) -> bool {
    forall|i: int, j: int| 0 <= i < j < s.len() ==> score_ge(s[i].0, s[j].0)
}

/// Whether some stored key shares a gram with the query at size `gs`.
pub open spec fn has_overlap(kv: Seq<Seq<char>>, q: Seq<char>, gs: int) -> bool {
    exists|i: int| 0 <= i < kv.len() && dot_of(q, #[trigger] kv[i], gs) > 0
}

/// The gram size a query is answered at: the largest size in
/// `[lower, gs]` at which some stored key shares a gram with the query,
/// or `lower - 1` when there is none.
pub open spec fn pick_size(kv: Seq<Seq<char>>, q: Seq<char>, lower: int, gs: int) -> int
    decreases gs - lower + 1,
{
    if gs < lower {
        lower - 1
    } else if has_overlap(kv, q, gs) {
        gs
    } else {
        pick_size(kv, q, lower, gs - 1)
    }
}

/// The key sequence after inserting the normalized key `n`: unchanged if
/// already present, appended otherwise.
pub open spec fn spec_insert_keys(kv: Seq<Seq<char>>, n: Seq<char>) -> Seq<Seq<char>> {
    if kv.contains(n) {
        kv
    } else {
        kv.push(n)
    }
}

/// The approximate-string-matching index.
pub struct FuzzySet {
    /// Normalized keys, in insertion order, as character vectors.
    keys_c: Vec<Vec<char>>,
    /// The same keys as strings, for returning matches.
    keys_s: Vec<String>,
    /// One row per gram size: the squared norm of each key's gram-count
    /// vector at that size.
    msqs: Vec<Vec<u64>>,
    /// The shared inverted index: each gram with its posting list.
    match_map: Vec<(Vec<char>, Vec<(usize, usize)>)>,
    alg: ComparisonAlgorithm,
    gram_size_lower: usize,
    gram_size_upper: usize,
}

impl FuzzySet {
    /// The stored normalized keys, in insertion order.
    pub closed spec fn keys(self) -> Seq<Seq<char>> {
        Seq::new(self.keys_c@.len(), |i: int| self.keys_c@[i]@)
    }

    /// The inclusive lower gram size.
    pub closed spec fn lower_spec(self) -> int {
        self.gram_size_lower as int
    }

    /// The inclusive upper gram size.
    pub closed spec fn upper_spec(self) -> int {
        self.gram_size_upper as int
    }

    /// The configured scoring policy.
    pub closed spec fn algorithm(self) -> ComparisonAlgorithm {
        self.alg
    }

    /// Well-formedness: configuration in range, key tables in step,
    /// squared norms cached exactly, and the inverted index holding, for
    /// every gram of every stored key, exactly its posting list.
    pub closed spec fn wf(self) -> bool {
        let kv = self.keys();
        &&& 1 <= self.gram_size_lower <= self.gram_size_upper <= MAX_TEXT_LEN
        &&& self.keys_s@.len() == self.keys_c@.len()
        &&& forall|i: int| 0 <= i < kv.len() ==> (#[trigger] self.keys_s@[i])@ == kv[i]
        &&& forall|i: int| 0 <= i < kv.len() ==> (#[trigger] kv[i]).len() <= MAX_TEXT_LEN
        &&& forall|i: int, j: int| 0 <= i < j < kv.len() ==> kv[i] != kv[j]
        &&& self.msqs@.len() == self.gram_size_upper - self.gram_size_lower + 1
        &&& forall|t: int|
            0 <= t < self.msqs@.len() ==> (#[trigger] self.msqs@[t])@.len() == kv.len()
        &&& forall|t: int, i: int|
            0 <= t < self.msqs@.len() && 0 <= i < kv.len() ==> (#[trigger] self.msqs@[t]@[i]) as int
                == sq_sum(kv[i], self.gram_size_lower + t)
        &&& mm_inv(
            self.match_map@,
            kv,
            kv,
            self.gram_size_lower as int,
            self.gram_size_upper as int,
            self.gram_size_lower as int,
        )
    }
}

/// The inverted-index invariant, split at gram size `split` so that
/// insertion can update one gram size at a time: grams shorter than
/// `split` already see the new key sequence `kv_new`, the rest still see
/// the old `kv_old`.
pub open spec fn mm_inv(
    mm: Seq<(Vec<char>, Vec<(usize, usize)>)>,
    kv_old: Seq<Seq<char>>,
    kv_new: Seq<Seq<char>>,
    lower: int,
    upper: int,
    split: int,
) -> bool {
    &&& forall|j: int| 0 <= j < mm.len() ==> lower <= (#[trigger] mm[j]).0@.len() <= upper
    &&& forall|j1: int, j2: int|
        0 <= j1 < j2 < mm.len() ==> (#[trigger] mm[j1]).0@ != (#[trigger] mm[j2]).0@
    &&& forall|j: int| 0 <= j < mm.len() ==> (#[trigger] mm[j]).1@.len() > 0
    &&& forall|j: int|
        0 <= j < mm.len() && (#[trigger] mm[j]).0@.len() < split ==> plist_matches(
            mm[j].1@,
            postings(kv_new, mm[j].0@),
        )
    &&& forall|j: int|
        0 <= j < mm.len() && (#[trigger] mm[j]).0@.len() >= split ==> plist_matches(
            mm[j].1@,
            postings(kv_old, mm[j].0@),
        )
    &&& forall|g: Seq<char>, i: int|
        lower <= g.len() < split && 0 <= i < kv_new.len() && #[trigger] gram_mult(
            kv_new[i],
            g.len() as int,
            g,
        ) > 0 ==> exists|j: int| 0 <= j < mm.len() && (#[trigger] mm[j]).0@ == g
    &&& forall|g: Seq<char>, i: int|
        split <= g.len() <= upper && 0 <= i < kv_old.len() && #[trigger] gram_mult(
            kv_old[i],
            g.len() as int,
            g,
        ) > 0 ==> exists|j: int| 0 <= j < mm.len() && (#[trigger] mm[j]).0@ == g
}

impl FuzzySet {
    /// An empty index over gram sizes `lower ..= upper` with the given
    /// scoring policy.
    pub fn new(lower: usize, upper: usize, alg: ComparisonAlgorithm) -> (r: FuzzySet)
        requires
            1 <= lower,
            lower <= upper,
            upper <= MAX_TEXT_LEN,
        ensures
            r.wf(),
            r.keys() == Seq::<Seq<char>>::empty(),
            r.lower_spec() == lower,
            r.upper_spec() == upper,
            r.algorithm() == alg,
    {
        let mut msqs: Vec<Vec<u64>> = Vec::new();
        let rows = upper - lower + 1;
        let mut t: usize = 0;
        while t < rows
            invariant
                0 <= t <= rows,
                msqs@.len() == t,
                forall|x: int| 0 <= x < t ==> (#[trigger] msqs@[x])@.len() == 0,
            decreases rows - t,
        {
            msqs.push(Vec::new());
            t += 1;
        }
        let r = FuzzySet {
            keys_c: Vec::new(),
            keys_s: Vec::new(),
            msqs,
            match_map: Vec::new(),
            alg,
            gram_size_lower: lower,
            gram_size_upper: upper,
        };
        proof {
            assert(r.keys() =~= Seq::<Seq<char>>::empty());
        }
        r
    }

    /// How many distinct normalized keys the index holds.
    pub fn len(&self) -> (r: usize)
        ensures
            r == self.keys().len(),
    {
        self.keys_c.len()
    }

    /// Whether the normalized key given as a character vector is stored.
    fn contains_chars(&self, nc: &Vec<char>) -> (r: bool)
        ensures
            r == self.keys().contains(nc@),
    {
        let mut i: usize = 0;
        while i < self.keys_c.len()
            invariant
                0 <= i <= self.keys_c@.len(),
                forall|u: int| 0 <= u < i ==> self.keys()[u] != nc@,
            decreases self.keys_c@.len() - i,
        {
            if eq_chars(&self.keys_c[i], nc) {
                proof {
                    assert(self.keys()[i as int] == nc@);
                }
                return true;
            }
            i += 1;
        }
        proof {
            if self.keys().contains(nc@) {
                let u = choose|u: int| 0 <= u < self.keys().len() && self.keys()[u] == nc@;
                assert(false);
            }
        }
        false
    }
}

/// The inverted-index invariant while one gram size `gs` is being
/// updated for a new key: sizes below `gs` see the new key sequence,
/// sizes above see the old one, and at `gs` exactly the grams listed in
/// `dseq` (the processed prefix of the new key's distinct grams) see the
/// new one.
pub open spec fn mm_inv_mid(
    mm: Seq<(Vec<char>, Vec<(usize, usize)>)>,
    kv_old: Seq<Seq<char>>,
    kv_new: Seq<Seq<char>>,
    lower: int,
    upper: int,
    gs: int,
    dseq: Seq<Seq<char>>,
) -> bool {
    &&& forall|j: int| 0 <= j < mm.len() ==> lower <= (#[trigger] mm[j]).0@.len() <= upper
    &&& forall|j1: int, j2: int|
        0 <= j1 < j2 < mm.len() ==> (#[trigger] mm[j1]).0@ != (#[trigger] mm[j2]).0@
    &&& forall|j: int| 0 <= j < mm.len() ==> (#[trigger] mm[j]).1@.len() > 0
    &&& forall|j: int|
        0 <= j < mm.len() && (#[trigger] mm[j]).0@.len() < gs ==> plist_matches(
            mm[j].1@,
            postings(kv_new, mm[j].0@),
        )
    &&& forall|j: int|
        0 <= j < mm.len() && (#[trigger] mm[j]).0@.len() > gs ==> plist_matches(
            mm[j].1@,
            postings(kv_old, mm[j].0@),
        )
    &&& forall|j: int|
        0 <= j < mm.len() && (#[trigger] mm[j]).0@.len() == gs && dseq.contains(mm[j].0@)
            ==> plist_matches(mm[j].1@, postings(kv_new, mm[j].0@))
    &&& forall|j: int|
        0 <= j < mm.len() && (#[trigger] mm[j]).0@.len() == gs && !dseq.contains(mm[j].0@)
            ==> plist_matches(mm[j].1@, postings(kv_old, mm[j].0@))
    &&& forall|g: Seq<char>, i: int|
        lower <= g.len() < gs && 0 <= i < kv_new.len() && #[trigger] gram_mult(
            kv_new[i],
            g.len() as int,
            g,
        ) > 0 ==> exists|j: int| 0 <= j < mm.len() && (#[trigger] mm[j]).0@ == g
    &&& forall|g: Seq<char>, i: int|
        gs <= g.len() <= upper && 0 <= i < kv_old.len() && #[trigger] gram_mult(
            kv_old[i],
            g.len() as int,
            g,
        ) > 0 ==> exists|j: int| 0 <= j < mm.len() && (#[trigger] mm[j]).0@ == g
    &&& forall|g: Seq<char>|
        #[trigger] dseq.contains(g) ==> exists|j: int|
            0 <= j < mm.len() && (#[trigger] mm[j]).0@ == g
}

impl FuzzySet {
    /// Position of the inverted-index entry for the gram `g`, if any.
    fn find_entry(&self, g: &Vec<char>) -> (res: Option<usize>)
        ensures
            match res {
                Some(j) => 0 <= j < self.match_map@.len() && self.match_map@[j as int].0@ == g@,
                None => forall|u: int|
                    0 <= u < self.match_map@.len() ==> (#[trigger] self.match_map@[u]).0@ != g@,
            },
    {
        let mut j: usize = 0;
        while j < self.match_map.len()
            invariant
                0 <= j <= self.match_map@.len(),
                forall|u: int| 0 <= u < j ==> (#[trigger] self.match_map@[u]).0@ != g@,
            decreases self.match_map@.len() - j,
        {
            if eq_chars(&self.match_map[j].0, g) {
                return Some(j);
            }
            j += 1;
        }
        None
    }

    /// Insert a key.  The key is lowercase folded; a key whose normalized
    /// form is already stored changes nothing.  Returns whether the key
    /// was newly added.
    pub fn insert(&mut self, key: &str) -> (r: bool)
        requires
            old(self).wf(),
            lower_of(key@).len() <= MAX_TEXT_LEN,
        ensures
            final(self).wf(),
            r == !old(self).keys().contains(lower_of(key@)),
            final(self).keys() == spec_insert_keys(old(self).keys(), lower_of(key@)),
            final(self).lower_spec() == old(self).lower_spec(),
            final(self).upper_spec() == old(self).upper_spec(),
            final(self).algorithm() == old(self).algorithm(),
    {
        let n = normalize_string(key);
        let nc = chars_vec(n.as_str());
        if self.contains_chars(&nc) {
            return false;
        }
        let ghost kv0 = old(self).keys();
        let ghost kv1 = kv0.push(nc@);
        let pos = self.keys_c.len();
        let lower = self.gram_size_lower;
        let upper = self.gram_size_upper;
        let mut gs = lower;
        while gs <= upper
            invariant
                old(self).wf(),
                self.keys_c@ == old(self).keys_c@,
                self.keys_s@ == old(self).keys_s@,
                self.alg == old(self).alg,
                self.gram_size_lower == lower,
                self.gram_size_upper == upper,
                self.keys() == kv0,
                kv0 == old(self).keys(),
                kv1 == kv0.push(nc@),
                nc@ == lower_of(key@),
                nc@.len() <= MAX_TEXT_LEN,
                pos == kv0.len(),
                1 <= lower <= gs,
                gs <= upper + 1,
                upper <= MAX_TEXT_LEN,
                self.msqs@.len() == upper - lower + 1,
                forall|x: int|
                    0 <= x < gs - lower ==> (#[trigger] self.msqs@[x])@.len() == kv1.len(),
                forall|x: int, i: int|
                    0 <= x < gs - lower && 0 <= i < kv1.len() ==> (
                    #[trigger] self.msqs@[x]@[i]) as int == sq_sum(kv1[i], lower + x),
                forall|x: int|
                    gs - lower <= x < self.msqs@.len() ==> (#[trigger] self.msqs@[x])@.len()
                        == kv0.len(),
                forall|x: int, i: int|
                    gs - lower <= x < self.msqs@.len() && 0 <= i < kv0.len() ==> (
                    #[trigger] self.msqs@[x]@[i]) as int == sq_sum(kv0[i], lower + x),
                mm_inv(self.match_map@, kv0, kv1, lower as int, upper as int, gs as int),
            decreases upper + 1 - gs,
        {
            let counter = count_grams(&nc, gs);
            let ghost dsq = distinct_grams(nc@, gs as int);
            proof {
                lemma_dedup_nodup(gram_seq(nc@, gs as int));
                lemma_mult_bound(nc@, gs as int);
                assert(dsq.take(0) =~= Seq::<Seq<char>>::empty());
                assert(mm_inv_mid(
                    self.match_map@,
                    kv0,
                    kv1,
                    lower as int,
                    upper as int,
                    gs as int,
                    dsq.take(0),
                ));
            }
            let ghost msqs_snap = self.msqs@;
            let mut sq: u64 = 0;
            let mut t: usize = 0;
            while t < counter.len()
                invariant
                    self.keys_c@ == old(self).keys_c@,
                    self.keys_s@ == old(self).keys_s@,
                    self.alg == old(self).alg,
                    self.gram_size_lower == lower,
                    self.gram_size_upper == upper,
                    self.keys() == kv0,
                    kv1 == kv0.push(nc@),
                    nc@.len() <= MAX_TEXT_LEN,
                    pos == kv0.len(),
                    1 <= lower <= gs <= upper,
                    upper <= MAX_TEXT_LEN,
                    self.msqs@ == msqs_snap,
                    dsq == distinct_grams(nc@, gs as int),
                    nodup(dsq),
                    forall|g: Seq<char>| #[trigger] gram_mult(nc@, gs as int, g) <= 65535,
                    counter@.len() == dsq.len(),
                    forall|u: int| 0 <= u < counter@.len() ==> (#[trigger] counter@[u]).0@ == dsq[u],
                    forall|u: int|
                        0 <= u < counter@.len() ==> (#[trigger] counter@[u]).1 as int == gram_mult(
                            nc@,
                            gs as int,
                            counter@[u].0@,
                        ),
                    forall|u: int| 0 <= u < counter@.len() ==> 1 <= (#[trigger] counter@[u]).1,
                    forall|u: int| 0 <= u < counter@.len() ==> (#[trigger] counter@[u]).0@.len() == gs,
                    0 <= t <= counter@.len(),
                    sq as int == pair_sum(dsq.take(t as int), nc@, nc@, gs as int),
                    mm_inv_mid(
                        self.match_map@,
                        kv0,
                        kv1,
                        lower as int,
                        upper as int,
                        gs as int,
                        dsq.take(t as int),
                    ),
                decreases counter@.len() - t,
            {
                let c = counter[t].1;
                let ghost gv_view = dsq[t as int];
                let ghost pre = dsq.take(t as int);
                let ghost mm_before = self.match_map@;
                proof {
                    lemma_take_step(dsq, t as int);
                    assert(counter@[t as int].0@ == gv_view);
                    assert(c as int == gram_mult(nc@, gs as int, gv_view));
                    assert(!pre.contains(gv_view)) by {
                        if pre.contains(gv_view) {
                            let u = choose|u: int| 0 <= u < pre.len() && pre[u] == gv_view;
                            assert(dsq[u] == dsq[t as int]);
                        }
                    }
                    assert(forall|x: Seq<char>|
                        dsq.take(t + 1).contains(x) <==> (pre.contains(x) || x == gv_view)) by {
                        assert(forall|x: Seq<char>|
                            #[trigger] pre.contains(x) ==> dsq.take(t + 1).contains(x)) by {
                            assert forall|x: Seq<char>|
                                #[trigger] pre.contains(x) implies dsq.take(t + 1).contains(x) by {
                                let u = choose|u: int| 0 <= u < pre.len() && pre[u] == x;
                                assert(dsq.take(t + 1)[u] == x);
                            }
                        }
                        assert(dsq.take(t + 1)[t as int] == gv_view);
                        assert forall|x: Seq<char>|
                            #[trigger] dsq.take(t + 1).contains(x) implies (pre.contains(x) || x
                            == gv_view) by {
                            let u = choose|u: int|
                                0 <= u < dsq.take(t + 1).len() && #[trigger] dsq.take(t + 1)[u]
                                    == x;
                            if u < t {
                                assert(pre[u] == x);
                            }
                        }
                    }
                    // the gram's multiplicity in the new key is positive
                    assert(gram_mult(nc@, gs as int, gv_view) > 0);
                    lemma_postings_push(kv0, nc@, gv_view);
                }
                let j_opt = self.find_entry(&counter[t].0);
                match j_opt {
                    Some(j) => {
                        proof {
                            assert(mm_before[j as int].0@ == gv_view);
                            assert(plist_matches(
                                mm_before[j as int].1@,
                                postings(kv0, gv_view),
                            ));
                        }
                        let (gv, mut pl) = self.match_map.remove(j);
                        pl.push((pos, c));
                        self.match_map.insert(j, (gv, pl));
                        proof {
                            let mm = self.match_map@;
                            let d1 = dsq.take(t + 1);
                            assert(mm =~= mm_before.update(j as int, (gv, pl)));
                            assert(forall|u: int|
                                0 <= u < mm.len() && u != j ==> mm[u] == mm_before[u]);
                            assert(mm[j as int].0@ == gv_view);
                            assert(forall|u: int|
                                0 <= u < mm.len() ==> (#[trigger] mm[u]).0 == mm_before[u].0);
                            assert(plist_matches(pl@, postings(kv1, gv_view))) by {
                                assert(postings(kv1, gv_view) == postings(kv0, gv_view).push(
                                    (pos as int, c as int),
                                ));
                                assert(pl@.last() == (pos, c));
                                assert(forall|u: int|
                                    0 <= u < pl@.len() - 1 ==> pl@[u] == mm_before[j as int].1@[u]);
                            }
                            assert(forall|u: int|
                                0 <= u < mm.len() && u != j ==> (#[trigger] mm[u]).0@ != gv_view);
                            assert forall|j2: int|
                                0 <= j2 < mm.len() && (#[trigger] mm[j2]).0@.len() == gs
                                    && d1.contains(mm[j2].0@) implies plist_matches(
                                mm[j2].1@,
                                postings(kv1, mm[j2].0@),
                            ) by {
                                if j2 != j {
                                    assert(mm[j2] == mm_before[j2]);
                                    assert(mm[j2].0@ != gv_view);
                                    assert(pre.contains(mm[j2].0@));
                                }
                            }
                            assert forall|j2: int|
                                0 <= j2 < mm.len() && (#[trigger] mm[j2]).0@.len() == gs
                                    && !d1.contains(mm[j2].0@) implies plist_matches(
                                mm[j2].1@,
                                postings(kv0, mm[j2].0@),
                            ) by {
                                assert(d1.contains(gv_view));
                                assert(j2 != j);
                                assert(!pre.contains(mm[j2].0@));
                            }
                            assert forall|g: Seq<char>, i: int|
                                lower <= g.len() < gs && 0 <= i < kv1.len() && #[trigger] gram_mult(
                                    kv1[i],
                                    g.len() as int,
                                    g,
                                ) > 0 implies exists|j2: int|
                                0 <= j2 < mm.len() && (#[trigger] mm[j2]).0@ == g by {
                                let w = choose|j2: int|
                                    0 <= j2 < mm_before.len() && (#[trigger] mm_before[j2]).0@
                                        == g;
                                assert(mm[w].0@ == g);
                            }
                            assert forall|g: Seq<char>, i: int|
                                gs <= g.len() <= upper && 0 <= i < kv0.len() && #[trigger] gram_mult(
                                    kv0[i],
                                    g.len() as int,
                                    g,
                                ) > 0 implies exists|j2: int|
                                0 <= j2 < mm.len() && (#[trigger] mm[j2]).0@ == g by {
                                let w = choose|j2: int|
                                    0 <= j2 < mm_before.len() && (#[trigger] mm_before[j2]).0@
                                        == g;
                                assert(mm[w].0@ == g);
                            }
                            assert forall|g: Seq<char>| #[trigger]
                                d1.contains(g) implies exists|j2: int|
                                0 <= j2 < mm.len() && (#[trigger] mm[j2]).0@ == g by {
                                if g == gv_view {
                                    assert(mm[j as int].0@ == g);
                                } else {
                                    assert(pre.contains(g));
                                    let w = choose|j2: int|
                                        0 <= j2 < mm_before.len() && (#[trigger] mm_before[j2]).0@
                                            == g;
                                    assert(mm[w].0@ == g);
                                }
                            }
                            assert(mm_inv_mid(
                                mm,
                                kv0,
                                kv1,
                                lower as int,
                                upper as int,
                                gs as int,
                                d1,
                            ));
                        }
                    },
                    None => {
                        proof {
                            assert(forall|i: int|
                                0 <= i < kv0.len() ==> gram_mult(
                                    #[trigger] kv0[i],
                                    gs as int,
                                    gv_view,
                                ) == 0) by {
                                assert forall|i: int| 0 <= i < kv0.len() implies gram_mult(
                                    #[trigger] kv0[i],
                                    gs as int,
                                    gv_view,
                                ) == 0 by {
                                    if gram_mult(kv0[i], gs as int, gv_view) > 0 {
                                        let j = choose|j: int|
                                            0 <= j < mm_before.len() && (
                                            #[trigger] mm_before[j]).0@ == gv_view;
                                        assert(false);
                                    }
                                }
                            }
                            lemma_postings_empty(kv0, gv_view);
                        }
                        let gv2 = clone_chars(&counter[t].0);
                        let mut pl: Vec<(usize, usize)> = Vec::new();
                        pl.push((pos, c));
                        self.match_map.push((gv2, pl));
                        proof {
                            let mm = self.match_map@;
                            let d1 = dsq.take(t + 1);
                            let last = mm.len() - 1;
                            assert(mm =~= mm_before.push((gv2, pl)));
                            assert(forall|u: int| 0 <= u < last ==> mm[u] == mm_before[u]);
                            assert(mm[last].0@ == gv_view);
                            assert(mm[last].1@ =~= seq![(pos, c)]);
                            assert(plist_matches(pl@, postings(kv1, gv_view))) by {
                                assert(postings(kv0, gv_view).len() == 0);
                                assert(postings(kv1, gv_view) == postings(kv0, gv_view).push(
                                    (pos as int, c as int),
                                ));
                                assert(postings(kv1, gv_view).len() == 1);
                                assert(postings(kv1, gv_view)[0] == (pos as int, c as int));
                            }
                            assert(forall|u: int|
                                0 <= u < last ==> (#[trigger] mm[u]).0@ != gv_view);
                            assert(lower <= gv_view.len() <= upper);
                            assert forall|j2: int|
                                0 <= j2 < mm.len() && (#[trigger] mm[j2]).0@.len() == gs
                                    && d1.contains(mm[j2].0@) implies plist_matches(
                                mm[j2].1@,
                                postings(kv1, mm[j2].0@),
                            ) by {
                                if j2 != last {
                                    assert(mm[j2] == mm_before[j2]);
                                    assert(mm[j2].0@ != gv_view);
                                    assert(pre.contains(mm[j2].0@));
                                }
                            }
                            assert forall|j2: int|
                                0 <= j2 < mm.len() && (#[trigger] mm[j2]).0@.len() == gs
                                    && !d1.contains(mm[j2].0@) implies plist_matches(
                                mm[j2].1@,
                                postings(kv0, mm[j2].0@),
                            ) by {
                                assert(d1.contains(gv_view));
                                assert(j2 != last);
                                assert(!pre.contains(mm[j2].0@));
                            }
                            assert forall|g: Seq<char>, i: int|
                                lower <= g.len() < gs && 0 <= i < kv1.len() && #[trigger] gram_mult(
                                    kv1[i],
                                    g.len() as int,
                                    g,
                                ) > 0 implies exists|j2: int|
                                0 <= j2 < mm.len() && (#[trigger] mm[j2]).0@ == g by {
                                let w = choose|j2: int|
                                    0 <= j2 < mm_before.len() && (#[trigger] mm_before[j2]).0@
                                        == g;
                                assert(mm[w].0@ == g);
                            }
                            assert forall|g: Seq<char>, i: int|
                                gs <= g.len() <= upper && 0 <= i < kv0.len() && #[trigger] gram_mult(
                                    kv0[i],
                                    g.len() as int,
                                    g,
                                ) > 0 implies exists|j2: int|
                                0 <= j2 < mm.len() && (#[trigger] mm[j2]).0@ == g by {
                                let w = choose|j2: int|
                                    0 <= j2 < mm_before.len() && (#[trigger] mm_before[j2]).0@
                                        == g;
                                assert(mm[w].0@ == g);
                            }
                            assert forall|g: Seq<char>| #[trigger]
                                d1.contains(g) implies exists|j2: int|
                                0 <= j2 < mm.len() && (#[trigger] mm[j2]).0@ == g by {
                                if g == gv_view {
                                    assert(mm[last].0@ == g);
                                } else {
                                    assert(pre.contains(g));
                                    let w = choose|j2: int|
                                        0 <= j2 < mm_before.len() && (#[trigger] mm_before[j2]).0@
                                            == g;
                                    assert(mm[w].0@ == g);
                                }
                            }
                            assert(mm_inv_mid(
                                mm,
                                kv0,
                                kv1,
                                lower as int,
                                upper as int,
                                gs as int,
                                d1,
                            ));
                        }
                    },
                }
                proof {
                    assert(nodup(pre)) by {
                        assert(forall|a: int, b: int|
                            0 <= a < b < pre.len() ==> pre[a] == dsq[a] && pre[b] == dsq[b]);
                    }
                    assert(nodup(dsq.take(t + 1))) by {
                        assert(forall|a: int, b: int|
                            0 <= a < b < dsq.take(t + 1).len() ==> dsq.take(t + 1)[a] == dsq[a]
                                && dsq.take(t + 1)[b] == dsq[b]);
                    }
                    crate::gram::lemma_pair_sum_cap(dsq.take(t + 1), nc@, nc@, gs as int);
                    assert(pair_sum(dsq.take(t + 1), nc@, nc@, gs as int) == pair_sum(
                        pre,
                        nc@,
                        nc@,
                        gs as int,
                    ) + gram_mult(nc@, gs as int, gv_view) * gram_mult(nc@, gs as int, gv_view));
                    crate::gram::lemma_pair_sum_cap(pre, nc@, nc@, gs as int);
                    assert((c as int) * (c as int) <= 65535 * 65535) by (nonlinear_arith)
                        requires
                            0 <= c <= 65535,
                    ;
                }
                sq = sq + (c as u64) * (c as u64);
                t += 1;
            }
            proof {
                assert(dsq.take(dsq.len() as int) =~= dsq);
                assert(sq as int == sq_sum(nc@, gs as int));
                // every gram of the new key at this size now has an entry,
                // and grams at this size the new key lacks kept their lists
                assert(mm_inv(
                    self.match_map@,
                    kv0,
                    kv1,
                    lower as int,
                    upper as int,
                    gs + 1,
                )) by {
                    let mm = self.match_map@;
                    assert forall|j: int|
                        0 <= j < mm.len() && (#[trigger] mm[j]).0@.len() < gs + 1 implies
                        plist_matches(mm[j].1@, postings(kv1, mm[j].0@)) by {
                        if mm[j].0@.len() == gs {
                            if !dsq.contains(mm[j].0@) {
                                lemma_dedup_contains(gram_seq(nc@, gs as int), mm[j].0@);
                                lemma_occ_pos_iff_contains(gram_seq(nc@, gs as int), mm[j].0@);
                                lemma_postings_push(kv0, nc@, mm[j].0@);
                            }
                        }
                    }
                    assert forall|g: Seq<char>, i: int|
                        lower <= g.len() < gs + 1 && 0 <= i < kv1.len() && #[trigger] gram_mult(
                            kv1[i],
                            g.len() as int,
                            g,
                        ) > 0 implies exists|j: int|
                        0 <= j < mm.len() && (#[trigger] mm[j]).0@ == g by {
                        if g.len() == gs {
                            if i < kv0.len() {
                                assert(kv1[i] == kv0[i]);
                            } else {
                                assert(kv1[i] == nc@);
                                lemma_occ_pos_iff_contains(gram_seq(nc@, gs as int), g);
                                lemma_dedup_contains(gram_seq(nc@, gs as int), g);
                                assert(dsq.contains(g));
                            }
                        }
                    }
                }
            }
            let idx = gs - lower;
            let ghost msqs_pre = self.msqs@;
            let mut row = self.msqs.remove(idx);
            row.push(sq);
            self.msqs.insert(idx, row);
            proof {
                assert(self.msqs@ =~= msqs_pre.update(idx as int, row));
                assert(row@ =~= msqs_pre[idx as int]@.push(sq));
            }
            gs += 1;
        }
        self.keys_c.push(nc);
        self.keys_s.push(n);
        proof {
            assert(self.keys() =~= kv1);
            assert(spec_insert_keys(kv0, lower_of(key@)) == kv1);
            assert(final(self).wf()) by {
                let kv = self.keys();
                assert(kv == kv1);
                assert(forall|i: int, j: int| 0 <= i < j < kv.len() ==> kv[i] != kv[j]) by {
                    assert(forall|i: int| 0 <= i < kv0.len() ==> kv1[i] == kv0[i]);
                    assert(kv1[kv0.len() as int] == nc@);
                    assert(forall|i: int|
                        0 <= i < kv0.len() ==> kv0[i] != nc@) by {
                        assert forall|i: int| 0 <= i < kv0.len() implies kv0[i] != nc@ by {
                            if kv0[i] == nc@ {
                                assert(kv0.contains(nc@));
                            }
                        }
                    }
                }
                assert(mm_inv(
                    self.match_map@,
                    kv1,
                    kv1,
                    self.gram_size_lower as int,
                    self.gram_size_upper as int,
                    self.gram_size_lower as int,
                ));
            }
        }
        true
    }
}

/// Each element's pair is in the bag.
proof fn lemma_pairs_bag_mem(s: Seq<(Score, String)>, j: int)
    requires
        0 <= j < s.len(),
    ensures
        pairs_bag(s).count((s[j].0, s[j].1@)) >= 1,
    decreases s.len(),
{
    broadcast use vstd::multiset::group_multiset_axioms;

    if j < s.len() - 1 {
        lemma_pairs_bag_mem(s.drop_last(), j);
        assert(s.drop_last()[j] == s[j]);
    }
}

/// Removing the element at `j` removes exactly its pair from the bag.
proof fn lemma_pairs_bag_remove(s: Seq<(Score, String)>, j: int)
    requires
        0 <= j < s.len(),
    ensures
        pairs_bag(s.remove(j)) == pairs_bag(s).remove((s[j].0, s[j].1@)),
    decreases s.len(),
{
    broadcast use vstd::multiset::group_multiset_axioms;

    let x = (s[j].0, s[j].1@);
    if j == s.len() - 1 {
        assert(s.remove(j) =~= s.drop_last());
        assert(pairs_bag(s).remove(x) =~= pairs_bag(s.drop_last()));
    } else {
        lemma_pairs_bag_remove(s.drop_last(), j);
        assert(s.remove(j).drop_last() =~= s.drop_last().remove(j));
        assert(s.remove(j).last() == s.last());
        let y = (s.last().0, s.last().1@);
        assert(s.drop_last()[j] == s[j]);
        lemma_pairs_bag_mem(s.drop_last(), j);
        assert(pairs_bag(s.remove(j)) == pairs_bag(s.drop_last()).remove(x).insert(y));
        assert(pairs_bag(s.drop_last()).remove(x).insert(y) =~= pairs_bag(s.drop_last()).insert(
            y,
        ).remove(x));
    }
}

/// Sort an answer sequence by descending score, preserving its bag of
/// `(score, key)` pairs.
fn sort_desc_scores(v: Vec<(Score, String)>) -> (r: Vec<(Score, String)>)
    requires
        forall|i: int, j: int|
            0 <= i < v@.len() && 0 <= j < v@.len() ==> same_kind(
                (#[trigger] v@[i]).0,
                (#[trigger] v@[j]).0,
            ),
        forall|i: int| 0 <= i < v@.len() ==> score_sortable((#[trigger] v@[i]).0),
    ensures
        pairs_bag(r@) == pairs_bag(v@),
        sorted_desc(r@),
{
    broadcast use vstd::multiset::group_multiset_axioms;

    let ghost orig = v@;
    let mut rem = v;
    let mut out: Vec<(Score, String)> = Vec::new();
    proof {
        assert(pairs_bag(out@).add(pairs_bag(rem@)) =~= pairs_bag(orig));
    }
    while rem.len() > 0
        invariant
            forall|i: int, j: int|
                0 <= i < rem@.len() && 0 <= j < rem@.len() ==> same_kind(
                    (#[trigger] rem@[i]).0,
                    (#[trigger] rem@[j]).0,
                ),
            forall|i: int| 0 <= i < rem@.len() ==> score_sortable((#[trigger] rem@[i]).0),
            sorted_desc(out@),
            forall|i: int, j: int|
                0 <= i < out@.len() && 0 <= j < rem@.len() ==> score_ge(
                    (#[trigger] out@[i]).0,
                    (#[trigger] rem@[j]).0,
                ),
            pairs_bag(out@).add(pairs_bag(rem@)) == pairs_bag(orig),
        decreases rem@.len(),
    {
        let mut best: usize = 0;
        let mut u: usize = 1;
        while u < rem.len()
            invariant
                0 <= best < u <= rem@.len(),
                1 <= rem@.len(),
                forall|i: int, j: int|
                    0 <= i < rem@.len() && 0 <= j < rem@.len() ==> same_kind(
                        (#[trigger] rem@[i]).0,
                        (#[trigger] rem@[j]).0,
                    ),
                forall|i: int| 0 <= i < rem@.len() ==> score_sortable((#[trigger] rem@[i]).0),
                forall|w: int| 0 <= w < u ==> score_ge(rem@[best as int].0, (#[trigger] rem@[w]).0),
            decreases rem@.len() - u,
        {
            if score_ge_exec(&rem[u].0, &rem[best].0) {
                proof {
                    assert forall|w: int| 0 <= w < u + 1 implies score_ge(
                        rem@[u as int].0,
                        (#[trigger] rem@[w]).0,
                    ) by {
                        if w < u {
                            lemma_score_ge_trans(rem@[u as int].0, rem@[best as int].0, rem@[w].0);
                        }
                    }
                }
                best = u;
            } else {
                proof {
                    lemma_score_ge_total(rem@[u as int].0, rem@[best as int].0);
                }
            }
            u += 1;
        }
        let ghost rem0 = rem@;
        let e = rem.remove(best);
        proof {
            lemma_pairs_bag_remove(rem0, best as int);
            lemma_pairs_bag_mem(rem0, best as int);
        }
        let ghost out0 = out@;
        out.push(e);
        proof {
            assert(out@.drop_last() =~= out0);
            assert(pairs_bag(out@) == pairs_bag(out0).insert((e.0, e.1@)));
            assert(pairs_bag(out@).add(pairs_bag(rem@)) =~= pairs_bag(orig));
            assert(forall|j: int| 0 <= j < rem@.len() ==> rem@[j] == rem0[j + 1] || rem@[j] == rem0[j]);
            assert forall|i: int, j: int|
                0 <= i < out@.len() && 0 <= j < rem@.len() implies score_ge(
                (#[trigger] out@[i]).0,
                (#[trigger] rem@[j]).0,
            ) by {
                if i < out0.len() {
                    assert(out@[i] == out0[i]);
                }
            }
        }
    }
    proof {
        assert(rem@.len() == 0);
        assert(pairs_bag(rem@) =~= Multiset::<(Score, Seq<char>)>::empty());
        assert(pairs_bag(out@) =~= pairs_bag(orig));
    }
    out
}

impl FuzzySet {
    /// The answer at one gram size: `None` when no stored key shares a
    /// gram with the normalized query `nq` at size `gs`; otherwise the
    /// (possibly empty) score-sorted sequence of every candidate whose
    /// score reaches `mn / md`.
    fn get_per_gram(&self, nq: &Vec<char>, gs: usize, mn: u32, md: u32) -> (r: Option<
        Vec<(Score, String)>,
    >)
        requires
            self.wf(),
            self.lower_spec() <= gs as int <= self.upper_spec(),
            nq@.len() <= MAX_TEXT_LEN,
            1 <= md,
            mn <= md,
        ensures
            match r {
                None => !has_overlap(self.keys(), nq@, gs as int),
                Some(v) => has_overlap(self.keys(), nq@, gs as int) && sorted_desc(v@)
                    && pairs_bag(v@) == result_bag(
                    self.algorithm(),
                    self.keys(),
                    nq@,
                    gs as int,
                    mn as int,
                    md as int,
                ),
            },
    {
        let ghost kv = self.keys();
        let counter = count_grams(nq, gs);
        let ghost dsq = distinct_grams(nq@, gs as int);
        proof {
            lemma_dedup_nodup(gram_seq(nq@, gs as int));
            lemma_mult_bound(nq@, gs as int);
            assert(dsq.take(0) =~= Seq::<Seq<char>>::empty());
        }
        let klen = self.keys_c.len();
        let mut acc: Vec<u64> = Vec::new();
        while acc.len() < klen
            invariant
                acc@.len() <= klen,
                forall|i: int| 0 <= i < acc@.len() ==> (#[trigger] acc@[i]) == 0,
            decreases klen - acc@.len(),
        {
            acc.push(0);
        }
        let mut qsq: u64 = 0;
        let mut any = false;
        let mut t: usize = 0;
        while t < counter.len()
            invariant
                self.wf(),
                kv == self.keys(),
                klen == kv.len(),
                self.lower_spec() <= gs as int <= self.upper_spec(),
                nq@.len() <= MAX_TEXT_LEN,
                dsq == distinct_grams(nq@, gs as int),
                nodup(dsq),
                forall|g: Seq<char>| #[trigger] gram_mult(nq@, gs as int, g) <= 65535,
                counter@.len() == dsq.len(),
                forall|u: int| 0 <= u < counter@.len() ==> (#[trigger] counter@[u]).0@ == dsq[u],
                forall|u: int|
                    0 <= u < counter@.len() ==> (#[trigger] counter@[u]).1 as int == gram_mult(
                        nq@,
                        gs as int,
                        counter@[u].0@,
                    ),
                forall|u: int| 0 <= u < counter@.len() ==> 1 <= (#[trigger] counter@[u]).1,
                forall|u: int| 0 <= u < counter@.len() ==> (#[trigger] counter@[u]).0@.len() == gs,
                0 <= t <= counter@.len(),
                acc@.len() == klen,
                qsq as int == pair_sum(dsq.take(t as int), nq@, nq@, gs as int),
                forall|i: int|
                    0 <= i < klen ==> (#[trigger] acc@[i]) as int == pair_sum(
                        dsq.take(t as int),
                        nq@,
                        kv[i],
                        gs as int,
                    ),
                any <==> exists|i: int|
                    0 <= i < klen && pair_sum(dsq.take(t as int), nq@, #[trigger] kv[i], gs as int)
                        > 0,
            decreases counter@.len() - t,
        {
            let qc = counter[t].1;
            let ghost g_view = dsq[t as int];
            let ghost pre = dsq.take(t as int);
            proof {
                lemma_take_step(dsq, t as int);
                assert(nodup(dsq.take(t + 1))) by {
                    assert(forall|a: int, b: int|
                        0 <= a < b < dsq.take(t + 1).len() ==> dsq.take(t + 1)[a] == dsq[a]
                            && dsq.take(t + 1)[b] == dsq[b]);
                }
                assert(nodup(pre)) by {
                    assert(forall|a: int, b: int|
                        0 <= a < b < pre.len() ==> pre[a] == dsq[a] && pre[b] == dsq[b]);
                }
                assert(counter@[t as int].0@ == g_view);
                assert(qc as int == gram_mult(nq@, gs as int, g_view));
                crate::gram::lemma_pair_sum_cap(dsq.take(t + 1), nq@, nq@, gs as int);
                crate::gram::lemma_pair_sum_cap(pre, nq@, nq@, gs as int);
                assert((qc as int) * (qc as int) <= 65535 * 65535) by (nonlinear_arith)
                    requires
                        0 <= qc <= 65535,
                ;
                assert(pair_sum(dsq.take(t + 1), nq@, nq@, gs as int) == pair_sum(
                    pre,
                    nq@,
                    nq@,
                    gs as int,
                ) + gram_mult(nq@, gs as int, g_view) * gram_mult(nq@, gs as int, g_view));
            }
            qsq = qsq + (qc as u64) * (qc as u64);
            let j_opt = self.find_entry(&counter[t].0);
            match j_opt {
                Some(j) => {
                    proof {
                        lemma_postings_props(kv, g_view);
                        assert(plist_matches(
                            self.match_map@[j as int].1@,
                            postings(kv, g_view),
                        ));
                    }
                    let ghost ps = postings(kv, g_view);
                    let ghost acc0 = acc@;
                    let pl_len = self.match_map[j].1.len();
                    let mut u: usize = 0;
                    while u < pl_len
                        invariant
                            self.wf(),
                            kv == self.keys(),
                            klen == kv.len(),
                            self.lower_spec() <= gs as int <= self.upper_spec(),
                            nq@.len() <= MAX_TEXT_LEN,
                            nodup(dsq.take(t + 1)),
                            0 <= t < dsq.len(),
                            g_view == dsq[t as int],
                            dsq == distinct_grams(nq@, gs as int),
                            pre == dsq.take(t as int),
                            dsq.take(t + 1).drop_last() == pre,
                            dsq.take(t + 1).last() == g_view,
                            0 <= j < self.match_map@.len(),
                            self.match_map@[j as int].0@ == g_view,
                            ps == postings(kv, g_view),
                            plist_matches(self.match_map@[j as int].1@, ps),
                            pl_len == ps.len(),
                            forall|v: int|
                                0 <= v < ps.len() ==> 0 <= (#[trigger] ps[v]).0 < kv.len()
                                    && ps[v].1 == gram_mult(kv[ps[v].0], gs as int, g_view)
                                    && ps[v].1 > 0,
                            forall|v1: int, v2: int|
                                0 <= v1 < v2 < ps.len() ==> (#[trigger] ps[v1]).0 < (
                                #[trigger] ps[v2]).0,
                            forall|i: int|
                                0 <= i < kv.len() ==> (gram_mult(
                                    #[trigger] kv[i],
                                    gs as int,
                                    g_view,
                                ) > 0 <==> exists|v: int|
                                    0 <= v < ps.len() && (#[trigger] ps[v]).0 == i),
                            qc as int == gram_mult(nq@, gs as int, g_view),
                            1 <= qc <= 65535,
                            0 <= u <= pl_len,
                            acc@.len() == klen,
                            acc0.len() == klen,
                            forall|i: int|
                                0 <= i < klen ==> (#[trigger] acc0[i]) as int == pair_sum(
                                    pre,
                                    nq@,
                                    kv[i],
                                    gs as int,
                                ),
                            forall|i: int|
                                0 <= i < klen ==> (#[trigger] acc@[i]) as int == acc0[i] as int + (
                                if exists|v: int| 0 <= v < u && (#[trigger] ps[v]).0 == i {
                                    (qc as int) * gram_mult(kv[i], gs as int, g_view)
                                } else {
                                    0
                                }),
                        decreases pl_len - u,
                    {
                        let pr = self.match_map[j].1[u];
                        let p_i = pr.0;
                        let cc = pr.1;
                        proof {
                            assert((p_i as int, cc as int) == ps[u as int]);
                            assert(0 <= p_i < klen);
                            assert(cc as int == gram_mult(kv[p_i as int], gs as int, g_view));
                            assert(cc <= 65535) by {
                                lemma_mult_bound(kv[p_i as int], gs as int);
                            }
                            assert((qc as int) * (cc as int) <= 65535 * 65535) by (nonlinear_arith)
                                requires
                                    0 <= qc <= 65535,
                                    0 <= cc <= 65535,
                            ;
                            // this position was not covered yet
                            assert(forall|v: int| 0 <= v < u ==> (#[trigger] ps[v]).0 != p_i);
                            crate::gram::lemma_pair_sum_cap(
                                dsq.take(t + 1),
                                nq@,
                                kv[p_i as int],
                                gs as int,
                            );
                            assert(pair_sum(dsq.take(t + 1), nq@, kv[p_i as int], gs as int)
                                == pair_sum(pre, nq@, kv[p_i as int], gs as int) + gram_mult(
                                nq@,
                                gs as int,
                                g_view,
                            ) * gram_mult(kv[p_i as int], gs as int, g_view));
                        }
                        let add = (qc as u64) * (cc as u64);
                        let cur = acc[p_i];
                        acc.set(p_i, cur + add);
                        proof {
                            assert forall|i: int|
                                0 <= i < klen implies (#[trigger] acc@[i]) as int == acc0[i] as int
                                + (if exists|v: int| 0 <= v < u + 1 && (#[trigger] ps[v]).0 == i {
                                (qc as int) * gram_mult(kv[i], gs as int, g_view)
                            } else {
                                0
                            }) by {
                                if i == p_i {
                                    assert(ps[u as int].0 == i);
                                } else {
                                    if exists|v: int| 0 <= v < u + 1 && (#[trigger] ps[v]).0 == i {
                                        let v = choose|v: int|
                                            0 <= v < u + 1 && (#[trigger] ps[v]).0 == i;
                                        assert(v < u);
                                        assert(exists|v2: int|
                                            0 <= v2 < u && (#[trigger] ps[v2]).0 == i);
                                    }
                                }
                            }
                        }
                        u += 1;
                    }
                    proof {
                        // every key's accumulator now reflects the longer prefix
                        assert forall|i: int|
                            0 <= i < klen implies (#[trigger] acc@[i]) as int == pair_sum(
                            dsq.take(t + 1),
                            nq@,
                            kv[i],
                            gs as int,
                        ) by {
                            assert(pair_sum(dsq.take(t + 1), nq@, kv[i], gs as int) == pair_sum(
                                pre,
                                nq@,
                                kv[i],
                                gs as int,
                            ) + gram_mult(nq@, gs as int, g_view) * gram_mult(
                                kv[i],
                                gs as int,
                                g_view,
                            ));
                            if gram_mult(kv[i], gs as int, g_view) > 0 {
                            } else {
                                assert((qc as int) * 0 == 0) by (nonlinear_arith);
                                if exists|v: int| 0 <= v < ps.len() && (#[trigger] ps[v]).0 == i {
                                    let v = choose|v: int|
                                        0 <= v < ps.len() && (#[trigger] ps[v]).0 == i;
                                    assert(ps[v].1 > 0);
                                    assert(false);
                                }
                            }
                        }
                        // the first listed key witnesses overlap
                        assert(ps.len() > 0);
                        let w = ps[0].0;
                        assert(gram_mult(kv[w], gs as int, g_view) > 0);
                        crate::gram::lemma_pair_sum_nonneg(pre, nq@, kv[w], gs as int);
                        assert(gram_mult(nq@, gs as int, g_view) * gram_mult(
                            kv[w],
                            gs as int,
                            g_view,
                        ) > 0) by (nonlinear_arith)
                            requires
                                gram_mult(nq@, gs as int, g_view) >= 1,
                                gram_mult(kv[w], gs as int, g_view) >= 1,
                        ;
                        assert(pair_sum(dsq.take(t + 1), nq@, kv[w], gs as int) > 0);
                    }
                    any = true;
                },
                None => {
                    proof {
                        assert forall|i: int|
                            0 <= i < klen implies gram_mult(#[trigger] kv[i], gs as int, g_view)
                            == 0 by {
                            if gram_mult(kv[i], gs as int, g_view) > 0 {
                                let j = choose|j: int|
                                    0 <= j < self.match_map@.len() && (
                                    #[trigger] self.match_map@[j]).0@ == g_view;
                                assert(false);
                            }
                        }
                        assert forall|i: int|
                            0 <= i < klen implies pair_sum(dsq.take(t + 1), nq@, kv[i], gs as int)
                            == pair_sum(pre, nq@, kv[i], gs as int) by {
                            assert(pair_sum(dsq.take(t + 1), nq@, kv[i], gs as int) == pair_sum(
                                pre,
                                nq@,
                                kv[i],
                                gs as int,
                            ) + gram_mult(nq@, gs as int, g_view) * gram_mult(
                                kv[i],
                                gs as int,
                                g_view,
                            ));
                            assert(gram_mult(nq@, gs as int, g_view) * 0 == 0) by (nonlinear_arith);
                        }
                    }
                },
            }
            t += 1;
        }
        proof {
            assert(dsq.take(dsq.len() as int) =~= dsq);
            assert(forall|i: int|
                0 <= i < klen ==> (#[trigger] acc@[i]) as int == dot_of(nq@, kv[i], gs as int));
            assert(qsq as int == sq_sum(nq@, gs as int));
            assert(any <==> has_overlap(kv, nq@, gs as int));
        }
        if !any {
            return None;
        }
        let ghost alg_g = self.algorithm();
        let mut out: Vec<(Score, String)> = Vec::new();
        let mut i: usize = 0;
        proof {
            assert(kv.take(0) =~= Seq::<Seq<char>>::empty());
            crate::gram::lemma_sq_sum_pos(nq@, gs as int);
            crate::gram::lemma_pair_sum_cap(dsq, nq@, nq@, gs as int);
        }
        while i < klen
            invariant
                self.wf(),
                kv == self.keys(),
                klen == kv.len(),
                self.lower_spec() <= gs as int <= self.upper_spec(),
                nq@.len() <= MAX_TEXT_LEN,
                alg_g == self.algorithm(),
                dsq == distinct_grams(nq@, gs as int),
                1 <= md,
                mn <= md,
                acc@.len() == klen,
                forall|x: int|
                    0 <= x < klen ==> (#[trigger] acc@[x]) as int == dot_of(nq@, kv[x], gs as int),
                qsq as int == sq_sum(nq@, gs as int),
                1 <= qsq as int <= 0xFFFE_0001,
                0 <= i <= klen,
                pairs_bag(out@) == result_bag(
                    alg_g,
                    kv.take(i as int),
                    nq@,
                    gs as int,
                    mn as int,
                    md as int,
                ),
                forall|x: int| 0 <= x < out@.len() ==> score_sortable((#[trigger] out@[x]).0),
                forall|x: int|
                    0 <= x < out@.len() ==> (alg_g == ComparisonAlgorithm::Levenshtein <==> (
                    #[trigger] out@[x]).0 is Edit),
            decreases klen - i,
        {
            proof {
                lemma_take_step(kv, i as int);
            }
            let d = acc[i];
            let ghost hit_now = hit(alg_g, nq@, kv[i as int], gs as int, mn as int, md as int);
            if d > 0 {
                let sc: Score = match self.alg {
                    ComparisonAlgorithm::Levenshtein => {
                        proof {
                            lemma_edit_dist_nonneg(kv[i as int], nq@);
                            lemma_edit_dist_le_max(kv[i as int], nq@);
                        }
                        let dist = crate::edit::levenshtein_chars(&self.keys_c[i], nq);
                        let ml = if self.keys_c[i].len() >= nq.len() {
                            self.keys_c[i].len()
                        } else {
                            nq.len()
                        };
                        Score::Edit { dist, max_len: ml }
                    },
                    ComparisonAlgorithm::Other => {
                        let msq = self.msqs[gs - self.gram_size_lower][i];
                        proof {
                            assert(msq as int == sq_sum(kv[i as int], gs as int));
                            crate::gram::lemma_sq_sum_pos(kv[i as int], gs as int);
                            lemma_dedup_nodup(gram_seq(kv[i as int], gs as int));
                            crate::gram::lemma_pair_sum_cap(
                                distinct_grams(kv[i as int], gs as int),
                                kv[i as int],
                                kv[i as int],
                                gs as int,
                            );
                            lemma_dedup_nodup(gram_seq(nq@, gs as int));
                            crate::gram::lemma_pair_sum_cap(dsq, nq@, kv[i as int], gs as int);
                        }
                        Score::Cosine { dot: d, qsq, msq }
                    },
                };
                proof {
                    assert(sc == score_of(alg_g, nq@, kv[i as int], gs as int));
                    assert(score_sortable(sc));
                }
                if score_at_least_frac_exec(&sc, mn, md) {
                    let ks = self.keys_s[i].clone();
                    let ghost out0 = out@;
                    out.push((sc, ks));
                    proof {
                        assert(out@.drop_last() =~= out0);
                        assert(out@.last() == (sc, ks));
                        assert(ks@ == kv[i as int]);
                        assert(hit_now);
                        assert(pairs_bag(out@) == result_bag(
                            alg_g,
                            kv.take(i + 1),
                            nq@,
                            gs as int,
                            mn as int,
                            md as int,
                        ));
                    }
                } else {
                    proof {
                        assert(!hit_now);
                    }
                }
            } else {
                proof {
                    assert(dot_of(nq@, kv[i as int], gs as int) == 0);
                    assert(!hit_now);
                }
            }
            i += 1;
        }
        proof {
            assert(kv.take(klen as int) =~= kv);
            assert forall|x: int, y: int|
                0 <= x < out@.len() && 0 <= y < out@.len() implies same_kind(
                (#[trigger] out@[x]).0,
                (#[trigger] out@[y]).0,
            ) by {}
        }
        let out = sort_desc_scores(out);
        Some(out)
    }
}

impl FuzzySet {
    /// Answer a query.  The query is lowercase folded and vectorized at
    /// each gram size from the largest down; the first size at which it
    /// shares a gram with any stored key answers, even if the threshold
    /// then filters every candidate out.  `None` means no size produced
    /// any overlap.  The threshold is the exact rational
    /// `min_num / min_den`.
    pub fn get(&self, key: &str, min_num: u32, min_den: u32) -> (r: Option<Vec<(Score, String)>>)
        requires
            self.wf(),
            1 <= min_den,
            min_num <= min_den,
            lower_of(key@).len() <= MAX_TEXT_LEN,
        ensures
            ({
                let q = lower_of(key@);
                let c = pick_size(self.keys(), q, self.lower_spec(), self.upper_spec());
                match r {
                    None => c < self.lower_spec(),
                    Some(v) => c >= self.lower_spec() && sorted_desc(v@) && pairs_bag(v@)
                        == result_bag(
                        self.algorithm(),
                        self.keys(),
                        q,
                        c,
                        min_num as int,
                        min_den as int,
                    ),
                }
            }),
    {
        let n = normalize_string(key);
        let nc = chars_vec(n.as_str());
        let ghost q = lower_of(key@);
        let ghost kv = self.keys();
        let mut gs = self.gram_size_upper;
        loop
            invariant
                self.wf(),
                nc@ == q,
                q == lower_of(key@),
                q.len() <= MAX_TEXT_LEN,
                kv == self.keys(),
                1 <= min_den,
                min_num <= min_den,
                self.lower_spec() <= gs as int <= self.upper_spec(),
                pick_size(kv, q, self.lower_spec(), self.upper_spec()) == pick_size(
                    kv,
                    q,
                    self.lower_spec(),
                    gs as int,
                ),
            decreases gs,
        {
            match self.get_per_gram(&nc, gs, min_num, min_den) {
                Some(v) => {
                    proof {
                        assert(pick_size(kv, q, self.lower_spec(), gs as int) == gs);
                    }
                    return Some(v);
                },
                None => {
                    proof {
                        assert(pick_size(kv, q, self.lower_spec(), gs as int) == pick_size(
                            kv,
                            q,
                            self.lower_spec(),
                            gs - 1,
                        ));
                    }
                },
            }
            if gs == self.gram_size_lower {
                proof {
                    assert(pick_size(kv, q, self.lower_spec(), gs - 1) == self.lower_spec() - 1);
                }
                return None;
            }
            gs = gs - 1;
        }
    }

    /// `insert` behind a length check: `None` reports a key whose
    /// normalized form is too long for the index (nothing changes),
    /// `Some` carries `insert`'s answer.
    pub fn insert_checked(&mut self, key: &str) -> (r: Option<bool>)
        requires
            old(self).wf(),
        ensures
            final(self).wf(),
            final(self).lower_spec() == old(self).lower_spec(),
            final(self).upper_spec() == old(self).upper_spec(),
            final(self).algorithm() == old(self).algorithm(),
            match r {
                None => lower_of(key@).len() > MAX_TEXT_LEN && final(self).keys() == old(
                    self,
                ).keys(),
                Some(b) => lower_of(key@).len() <= MAX_TEXT_LEN && b == !old(
                    self,
                ).keys().contains(lower_of(key@)) && final(self).keys() == spec_insert_keys(
                    old(self).keys(),
                    lower_of(key@),
                ),
            },
    {
        let n = normalize_string(key);
        let nc = chars_vec(n.as_str());
        if nc.len() > MAX_TEXT_LEN {
            return None;
        }
        Some(self.insert(key))
    }

    /// `get` behind a length check: `None` reports a query whose
    /// normalized form is too long for the index, `Some` carries `get`'s
    /// answer.
    pub fn get_checked(&self, key: &str, min_num: u32, min_den: u32) -> (r: Option<
        Option<Vec<(Score, String)>>,
    >)
        requires
            self.wf(),
            1 <= min_den,
            min_num <= min_den,
        ensures
            ({
                let q = lower_of(key@);
                let c = pick_size(self.keys(), q, self.lower_spec(), self.upper_spec());
                match r {
                    None => q.len() > MAX_TEXT_LEN,
                    Some(inner) => q.len() <= MAX_TEXT_LEN && match inner {
                        None => c < self.lower_spec(),
                        Some(v) => c >= self.lower_spec() && sorted_desc(v@) && pairs_bag(v@)
                            == result_bag(
                            self.algorithm(),
                            self.keys(),
                            q,
                            c,
                            min_num as int,
                            min_den as int,
                        ),
                    },
                }
            }),
    {
        let n = normalize_string(key);
        let nc = chars_vec(n.as_str());
        if nc.len() > MAX_TEXT_LEN {
            return None;
        }
        Some(self.get(key, min_num, min_den))
    }
}

/// Inserting a key whose normalized form is already stored — in
/// particular inserting the same normalized form a second time — leaves
/// the key sequence unchanged.  Every query answer (`pick_size`,
/// `result_bag`) is a function of the key sequence, the gram range and
/// the policy alone, so repeated insertion never changes any query
/// result.
pub proof fn lemma_insert_idempotent(kv: Seq<Seq<char>>, n: Seq<char>)
    ensures
        spec_insert_keys(kv, n).contains(n),
        spec_insert_keys(spec_insert_keys(kv, n), n) == spec_insert_keys(kv, n),
{
    if !kv.contains(n) {
        assert(kv.push(n)[kv.len() as int] == n);
        assert(kv.push(n).contains(n));
    }
}

/// A hit key appears in the answer bag.
proof fn lemma_result_bag_count(
    alg: ComparisonAlgorithm,
    kv: Seq<Seq<char>>,
    q: Seq<char>,
    gs: int,
    mn: int,
    md: int,
    i: int,
)
    requires
        0 <= i < kv.len(),
        hit(alg, q, kv[i], gs, mn, md),
    ensures
        result_bag(alg, kv, q, gs, mn, md).count((score_of(alg, q, kv[i], gs), kv[i])) >= 1,
    decreases kv.len(),
{
    broadcast use vstd::multiset::group_multiset_axioms;

    if i == kv.len() - 1 {
        assert(kv.last() == kv[i]);
    } else {
        assert(kv.drop_last()[i] == kv[i]);
        lemma_result_bag_count(alg, kv.drop_last(), q, gs, mn, md, i);
    }
}

/// An exact self-query: every stored key shares a gram with itself at
/// every gram size, both policies score it exactly one against itself,
/// and with threshold zero it appears among that size's answers.
pub proof fn lemma_self_query(kv: Seq<Seq<char>>, i: int, gs: int)
    requires
        0 <= i < kv.len(),
        1 <= gs,
    ensures
        dot_of(kv[i], kv[i], gs) >= 1,
        has_overlap(kv, kv[i], gs),
        score_is_one(score_of(ComparisonAlgorithm::Other, kv[i], kv[i], gs)),
        score_is_one(score_of(ComparisonAlgorithm::Levenshtein, kv[i], kv[i], gs)),
        result_bag(ComparisonAlgorithm::Other, kv, kv[i], gs, 0, 1).count(
            (score_of(ComparisonAlgorithm::Other, kv[i], kv[i], gs), kv[i]),
        ) >= 1,
{
    crate::gram::lemma_sq_sum_pos(kv[i], gs);
    assert(dot_of(kv[i], kv[i], gs) >= 1);
    assert(has_overlap(kv, kv[i], gs));
    let sc = score_of(ComparisonAlgorithm::Other, kv[i], kv[i], gs);
    assert(score_is_one(sc)) by {
        let d = dot_of(kv[i], kv[i], gs);
        assert(sq_sum(kv[i], gs) == d);
    }
    assert(score_is_one(score_of(ComparisonAlgorithm::Levenshtein, kv[i], kv[i], gs))) by {
        crate::edit::lemma_edit_dist_zero_iff_eq(kv[i], kv[i]);
    }
    assert(hit(ComparisonAlgorithm::Other, kv[i], kv[i], gs, 0, 1)) by {
        let d = dot_of(kv[i], kv[i], gs) as u64;
        assert(score_at_least_frac(sc, 0, 1)) by {
            assert((d * 1) * (d * 1) >= (0 * 0) * (sq_sum(kv[i], gs) as u64 * sq_sum(
                kv[i],
                gs,
            ) as u64)) by (nonlinear_arith)
                requires
                    d >= 0,
            ;
        }
    }
    lemma_result_bag_count(ComparisonAlgorithm::Other, kv, kv[i], gs, 0, 1, i);
}

/// A query against an index holding no keys reports no gram size at all:
/// the answer is absent rather than an empty sequence.
pub proof fn lemma_empty_index_no_match(q: Seq<char>, lower: int, gs: int)
    ensures
        pick_size(Seq::<Seq<char>>::empty(), q, lower, gs) < lower,
    decreases gs - lower + 1,
{
    if gs >= lower {
        assert(!has_overlap(Seq::<Seq<char>>::empty(), q, gs));
        lemma_empty_index_no_match(q, lower, gs - 1);
    }
}

} // verus!
