//! An in-memory approximate-string-matching index.
//!
//! Strings are normalized (lowercase folded), decomposed into bags of
//! fixed-length character n-grams over a configurable range of gram sizes,
//! and stored in an inverted index.  A query is matched by cosine similarity
//! of gram-count vectors, optionally re-ranked by Levenshtein edit distance.
//! Scores are kept in exact integer form (see [`Score`]), so the whole
//! matching engine is verified.

mod edit;
mod gram;
mod index;
mod score;
mod text;

pub use edit::{
    edit_dist, lemma_edit_dist_le_max, lemma_edit_dist_nonneg, lemma_edit_dist_symmetric,
    lemma_edit_dist_zero_iff_eq, levenshtein,
};
pub use gram::{
    distinct_grams, dot_of, filtered, gram_counter, gram_mult, gram_seq, is_word_char,
    iterate_grams, lemma_sq_sum_pos, padded, sq_sum,
};
pub use index::{
    has_overlap, hit, lemma_empty_index_no_match, lemma_insert_idempotent, lemma_self_query,
    pairs_bag, pick_size, postings, result_bag, score_of, sorted_desc, spec_insert_keys,
    ComparisonAlgorithm, FuzzySet, MAX_TEXT_LEN,
};
pub use score::{
    distance, same_kind, score_at_least_frac, score_ge, score_is_one, score_sortable, Score,
};
pub use text::{lower_of, normalize_string};
