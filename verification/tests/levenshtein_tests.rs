use fuzzyset::levenshtein;

#[test]
fn levenshtein_swap_brand() {
    assert_eq!(levenshtein("brand", "swap"), 4);
}

#[test]
fn levenshtein_saturday_sunday() {
    assert_eq!(levenshtein("saturday", "sunday"), 3);
}

#[test]
fn levenshtein_sunday_saturday() {
    assert_eq!(levenshtein("sunday", "saturday"), 3);
}

#[test]
fn levenshtein_kitten_sitting() {
    assert_eq!(levenshtein("kitten", "sitting"), 3);
}

#[test]
fn levenshtein_a_giraffe() {
    assert_eq!(levenshtein("a", "giraffe"), 6);
}

#[test]
fn levenshtein_symmetry_on_samples() {
    let pairs = [("brand", "swap"), ("kitten", "sitting"), ("", "abc"), ("abc", "abc")];
    for (a, b) in pairs {
        assert_eq!(levenshtein(a, b), levenshtein(b, a));
    }
}

#[test]
fn levenshtein_zero_iff_identical() {
    assert_eq!(levenshtein("same", "same"), 0);
    assert_eq!(levenshtein("", ""), 0);
    assert_ne!(levenshtein("same", "sane"), 0);
    assert_ne!(levenshtein("same", ""), 0);
}

#[test]
fn levenshtein_counts_characters_not_bytes() {
    // One substitution between two two-character words with multi-byte
    // characters.
    assert_eq!(levenshtein("\u{00e9}a", "\u{00e8}a"), 1);
}
