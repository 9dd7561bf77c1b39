use fuzzyset::{ComparisonAlgorithm, FuzzySet, Score};

/// The real-valued similarity a score stands for, computed as the
/// floating-point scorer would.
fn score_f64(s: &Score) -> f64 {
    match s {
        Score::Edit { dist, max_len } => {
            if *max_len == 0 {
                1.0
            } else {
                1.0 - (*dist as f64) / (*max_len as f64)
            }
        }
        Score::Cosine { dot, qsq, msq } => {
            (*dot as f64) / ((*qsq as f64).sqrt() * (*msq as f64).sqrt())
        }
    }
}

#[test]
fn fzy_set_exact() {
    let mut set = FuzzySet::new(2, 4, ComparisonAlgorithm::Levenshtein);
    set.insert("michael axiak");
    assert_eq!(score_f64(&set.get("michael axiak", 0, 1).unwrap()[0].0), 1.0);
}

#[test]
fn fzy_set_michael_axiak() {
    let mut set = FuzzySet::new(2, 4, ComparisonAlgorithm::Levenshtein);
    set.insert("michael axiak");
    assert_eq!(
        score_f64(&set.get("micael asiak", 0, 1).unwrap()[0].0),
        0.8461538461538461
    );
}

#[test]
fn fzy_set_multipl() {
    let mut set = FuzzySet::new(2, 4, ComparisonAlgorithm::Levenshtein);
    set.insert("michael axiak");
    set.insert("michael aziak");
    let results = set.get("micael asiak", 0, 1).unwrap();
    assert_eq!(score_f64(&results[0].0), 0.8461538461538461);
    assert_eq!(score_f64(&results[1].0), 0.8461538461538461);
}

#[test]
fn insert_duplicate_returns_false_and_len_unchanged() {
    let mut set = FuzzySet::new(2, 4, ComparisonAlgorithm::Levenshtein);
    assert!(set.insert("michael axiak"));
    assert_eq!(set.len(), 1);
    assert!(!set.insert("michael axiak"));
    assert_eq!(set.len(), 1);
    // Same normalized form: only the case differs.
    assert!(!set.insert("Michael Axiak"));
    assert_eq!(set.len(), 1);
}

#[test]
fn insert_twice_never_changes_query_results() {
    let mut once = FuzzySet::new(2, 4, ComparisonAlgorithm::Levenshtein);
    once.insert("michael axiak");
    let mut twice = FuzzySet::new(2, 4, ComparisonAlgorithm::Levenshtein);
    twice.insert("michael axiak");
    twice.insert("michael axiak");
    let a = once.get("micael asiak", 0, 1).unwrap();
    let b = twice.get("micael asiak", 0, 1).unwrap();
    assert_eq!(a, b);
}

#[test]
fn matched_key_is_the_normalized_form() {
    let mut set = FuzzySet::new(2, 4, ComparisonAlgorithm::Levenshtein);
    set.insert("Michael Axiak");
    let results = set.get("MICHAEL AXIAK", 0, 1).unwrap();
    assert_eq!(results[0].1, "michael axiak");
    assert_eq!(score_f64(&results[0].0), 1.0);
}

#[test]
fn cosine_self_query_scores_one_at_every_gram_size() {
    for lower in 1..=4usize {
        for upper in lower..=4usize {
            let mut set = FuzzySet::new(lower, upper, ComparisonAlgorithm::Other);
            set.insert("michael axiak");
            let results = set.get("michael axiak", 0, 1).unwrap();
            match results[0].0 {
                Score::Cosine { dot, qsq, msq } => {
                    assert_eq!((dot as u128) * (dot as u128), (qsq as u128) * (msq as u128));
                    // dot / sqrt(qsq * msq) with qsq * msq == dot^2 is
                    // exactly one.
                    let value = (dot as f64) / ((qsq as f64) * (msq as f64)).sqrt();
                    assert_eq!(value, 1.0);
                }
                _ => panic!("cosine policy must yield cosine scores"),
            }
            assert_eq!(results[0].1, "michael axiak");
        }
    }
}

#[test]
fn empty_index_always_reports_no_match() {
    let set = FuzzySet::new(2, 4, ComparisonAlgorithm::Levenshtein);
    assert!(set.get("anything", 0, 1).is_none());
    let other = FuzzySet::new(1, 7, ComparisonAlgorithm::Other);
    assert!(other.get("anything", 0, 1).is_none());
}

#[test]
fn threshold_filters_but_keeps_the_match_present() {
    let mut set = FuzzySet::new(2, 4, ComparisonAlgorithm::Levenshtein);
    set.insert("michael axiak");
    // 0.846... is below 9/10: the gram overlap still answers, with an
    // empty sequence rather than a fallback to smaller gram sizes.
    let results = set.get("micael asiak", 9, 10).unwrap();
    assert!(results.is_empty());
    // ... and at 8/10 the match passes the threshold.
    let results = set.get("micael asiak", 8, 10).unwrap();
    assert_eq!(results.len(), 1);
}

#[test]
fn results_are_sorted_best_first() {
    let mut set = FuzzySet::new(2, 3, ComparisonAlgorithm::Levenshtein);
    set.insert("abcdef");
    set.insert("abcxyz");
    set.insert("abcdxy");
    let results = set.get("abcdef", 0, 1).unwrap();
    assert!(results.len() >= 2);
    for w in results.windows(2) {
        assert!(score_f64(&w[0].0) >= score_f64(&w[1].0));
    }
    assert_eq!(results[0].1, "abcdef");
    assert_eq!(score_f64(&results[0].0), 1.0);
}

#[test]
fn empty_string_is_a_valid_key() {
    let mut set = FuzzySet::new(2, 4, ComparisonAlgorithm::Levenshtein);
    assert!(set.insert(""));
    assert_eq!(set.len(), 1);
    let results = set.get("", 0, 1).unwrap();
    assert_eq!(results[0].0, Score::Edit { dist: 0, max_len: 0 });
    assert_eq!(score_f64(&results[0].0), 1.0);
}

#[test]
fn cosine_components_are_exact() {
    // grams("ab", 2)  = { -a, ab, b- },  squared norm 3
    // grams("abc", 2) = { -a, ab, bc, c- }, squared norm 4
    // shared grams -a and ab give a dot product of 2.
    let mut set = FuzzySet::new(2, 2, ComparisonAlgorithm::Other);
    set.insert("ab");
    let results = set.get("abc", 0, 1).unwrap();
    assert_eq!(results.len(), 1);
    assert_eq!(results[0].0, Score::Cosine { dot: 2, qsq: 4, msq: 3 });
    assert_eq!(results[0].1, "ab");
}

#[test]
fn query_falls_back_to_smaller_gram_sizes() {
    let mut set = FuzzySet::new(2, 4, ComparisonAlgorithm::Levenshtein);
    set.insert("ab");
    // "xb" shares no gram with "ab" at sizes 4 and 3, but shares "b-" at
    // size 2; one substitution over two characters scores 0.5.
    let results = set.get("xb", 0, 1).unwrap();
    assert_eq!(results.len(), 1);
    assert_eq!(results[0].0, Score::Edit { dist: 1, max_len: 2 });
    assert_eq!(score_f64(&results[0].0), 0.5);
}

#[test]
fn checked_entry_points_agree_with_the_plain_ones() {
    let mut set = FuzzySet::new(2, 4, ComparisonAlgorithm::Levenshtein);
    assert_eq!(set.insert_checked("michael axiak"), Some(true));
    assert_eq!(set.insert_checked("michael axiak"), Some(false));
    let via_checked = set.get_checked("micael asiak", 0, 1).unwrap().unwrap();
    let direct = set.get("micael asiak", 0, 1).unwrap();
    assert_eq!(via_checked, direct);
}
