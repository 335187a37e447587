use ffzf::error::MatchError;
use ffzf::finder::{
    closest, closest_index_pair, closest_string_matching, n_closest, n_closest_string_matching,
};
use ffzf::scorer::levenshtein_distance;
use ffzf::text::CompareOptions;

fn defaults() -> CompareOptions {
    CompareOptions::default()
}

#[test]
fn closest_picks_lowest_distance() {
    let r = closest("kitten", &["sitting", "mitten", "kitchen"], "levenshtein", defaults());
    assert_eq!(r, Ok("mitten".to_string()));
}

#[test]
fn closest_picks_highest_similarity() {
    let r = closest("martha", &["xyzzy", "marhta", "mart"], "jaro", defaults());
    assert_eq!(r, Ok("marhta".to_string()));
    let r = closest("martha", &["xyzzy", "marhta", "mart"], "JaroWinkler", defaults());
    assert_eq!(r, Ok("marhta".to_string()));
}

#[test]
fn closest_breaks_ties_by_first_candidate() {
    let r = closest("abc", &["xbc", "axc", "abx"], "levenshtein", defaults());
    assert_eq!(r, Ok("xbc".to_string()));
    let r = closest("abc", &["xyz", "zzz"], "jaro", defaults());
    assert_eq!(r, Ok("xyz".to_string()));
}

#[test]
fn closest_of_single_candidate() {
    let r = closest("kitten", &["zzzzzzzzzzzz"], "levenshtein", defaults());
    assert_eq!(r, Ok("zzzzzzzzzzzz".to_string()));
    let r = closest("kitten", &["q"], "jaro", defaults());
    assert_eq!(r, Ok("q".to_string()));
}

#[test]
fn closest_errors() {
    assert_eq!(
        closest("a", &[], "levenshtein", defaults()),
        Err(MatchError::EmptyCandidates)
    );
    assert_eq!(
        closest("a", &["b"], "nope", defaults()),
        Err(MatchError::InvalidAlgorithm("nope".to_string()))
    );
    assert_eq!(
        closest("a", &[], "nope", defaults()),
        Err(MatchError::InvalidAlgorithm("nope".to_string()))
    );
    assert_eq!(
        closest("ask", &["bat", "mike"], "hamming", defaults()),
        Err(MatchError::LengthMismatch(3, 4))
    );
    assert_eq!(
        closest("ask", &["bat", "ask"], "hamming", defaults()),
        Ok("ask".to_string())
    );
}

#[test]
fn closest_hamming_after_whitespace_removal() {
    let strip = CompareOptions { remove_whitespace: true, ..defaults() };
    assert_eq!(closest("a b", &["xy", "ab"], "hamming", strip), Ok("ab".to_string()));
}

#[test]
fn n_closest_ranks_candidates() {
    let c = ["sitting", "mitten", "kitchen"];
    assert_eq!(
        n_closest("kitten", &c, 2, "levenshtein", defaults()),
        Ok(vec!["mitten".to_string(), "kitchen".to_string()])
    );
    assert_eq!(
        n_closest("kitten", &c, 10, "levenshtein", defaults()),
        Ok(vec!["mitten".to_string(), "kitchen".to_string(), "sitting".to_string()])
    );
    let r = n_closest("martha", &["xyzzy", "marhta", "mart"], 3, "jaro", defaults()).unwrap();
    assert_eq!(r, vec!["marhta".to_string(), "mart".to_string(), "xyzzy".to_string()]);
}

#[test]
fn n_closest_keeps_ties_in_order() {
    let r = n_closest("abc", &["zzz", "abd", "abe", "xbc"], 4, "levenshtein", defaults());
    assert_eq!(
        r,
        Ok(vec!["abd".to_string(), "abe".to_string(), "xbc".to_string(), "zzz".to_string()])
    );
}

#[test]
fn n_closest_errors() {
    assert_eq!(
        n_closest("a", &["b"], 0, "jaro", defaults()),
        Err(MatchError::InvalidN(0))
    );
    assert_eq!(
        n_closest("a", &[], 1, "jaro", defaults()),
        Err(MatchError::EmptyCandidates)
    );
    assert_eq!(
        n_closest("a", &["b"], 0, "best", defaults()),
        Err(MatchError::InvalidAlgorithm("best".to_string()))
    );
    assert_eq!(
        n_closest("ab", &["cd", "e"], 1, "hamming", defaults()),
        Err(MatchError::LengthMismatch(2, 1))
    );
}

#[test]
fn n_closest_large_collection_is_sorted() {
    let owned: Vec<String> = (0..1500).map(|i| format!("{:04}", (i * 7919) % 10000)).collect();
    let c: Vec<&str> = owned.iter().map(|s| s.as_str()).collect();
    let r = n_closest("0000", &c, 1500, "levenshtein", defaults()).unwrap();
    assert_eq!(r.len(), 1500);
    assert_eq!(r[0], "0000");
    let d: Vec<u64> =
        r.iter().map(|s| levenshtein_distance("0000", s, defaults()).num).collect();
    assert!(d.windows(2).all(|w| w[0] <= w[1]));
    let mut sorted_in = owned.clone();
    let mut sorted_out = r.clone();
    sorted_in.sort();
    sorted_out.sort();
    assert_eq!(sorted_in, sorted_out);
}

#[test]
fn closest_index_pair_finds_window() {
    assert_eq!(closest_index_pair("cat", "concatenate", "levenshtein", defaults()), Ok((3, 6)));
    assert_eq!(closest_index_pair("CAT", "concatenate", "jaro", defaults()), Ok((3, 6)));
    assert_eq!(closest_index_pair("ten", "concatenate", "hamming", defaults()), Ok((5, 8)));
}

#[test]
fn closest_index_pair_edges() {
    assert_eq!(closest_index_pair("cat", "", "levenshtein", defaults()), Ok((0, 0)));
    assert_eq!(closest_index_pair("abcdef", "abc", "levenshtein", defaults()), Ok((0, 3)));
    assert_eq!(
        closest_index_pair("cat", "", "unknown", defaults()),
        Err(MatchError::InvalidAlgorithm("unknown".to_string()))
    );
    assert_eq!(closest_index_pair("é", "aéb", "levenshtein", defaults()), Ok((1, 3)));
    let strip = CompareOptions { remove_whitespace: true, ..defaults() };
    assert_eq!(
        closest_index_pair("ab", "a b", "hamming", strip),
        Err(MatchError::LengthMismatch(2, 1))
    );
}

#[test]
fn default_option_entry_points() {
    assert_eq!(
        closest_string_matching("KITTEN", &["sitting", "mitten"], "levenshtein"),
        Ok("mitten".to_string())
    );
    assert_eq!(
        n_closest_string_matching("kitten", &["sitting", "mitten"], 1, "levenshtein"),
        Ok(vec!["mitten".to_string()])
    );
}
