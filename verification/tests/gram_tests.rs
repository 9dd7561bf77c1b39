use fuzzyset::{distance, gram_counter, iterate_grams, normalize_string, Score};

#[test]
fn grams_wrap_the_word_in_boundary_markers() {
    let grams = iterate_grams("ab", 2);
    assert_eq!(grams, vec!["-a".to_string(), "ab".to_string(), "b-".to_string()]);
}

#[test]
fn short_words_are_padded_to_the_gram_size() {
    // "a" filters to "a", wraps to "-a-", and needs one more marker to
    // reach four characters.
    let grams = iterate_grams("a", 4);
    assert_eq!(grams, vec!["-a--".to_string()]);
}

#[test]
fn empty_input_still_yields_a_gram() {
    let grams = iterate_grams("", 2);
    assert_eq!(grams, vec!["--".to_string()]);
}

#[test]
fn filtering_removes_disallowed_characters() {
    // '!' and '?' are outside the allow-list; comma and space stay.
    let grams = iterate_grams("a!b", 3);
    assert_eq!(grams, vec!["-ab".to_string(), "ab-".to_string()]);
    let kept = iterate_grams("a, b?", 4);
    assert_eq!(kept, vec!["-a, ".to_string(), "a, b".to_string(), ", b-".to_string()]);
}

#[test]
fn gram_counter_counts_multiplicities() {
    // "aaa" pads to "-aaa-": grams -a, aa, aa, a-.
    let counts = gram_counter("aaa", 2);
    assert_eq!(counts.len(), 3);
    let get = |g: &str| {
        counts
            .iter()
            .find(|(k, _)| k == g)
            .map(|(_, c)| *c)
            .unwrap()
    };
    assert_eq!(get("-a"), 1);
    assert_eq!(get("aa"), 2);
    assert_eq!(get("a-"), 1);
}

#[test]
fn normalize_string_folds_case() {
    assert_eq!(normalize_string("MiChAeL AXIAK"), "michael axiak");
    assert_eq!(normalize_string(""), "");
}

#[test]
fn distance_is_the_length_normalized_similarity() {
    assert_eq!(distance("kitten", "sitting"), Score::Edit { dist: 3, max_len: 7 });
    assert_eq!(distance("same", "same"), Score::Edit { dist: 0, max_len: 4 });
}
