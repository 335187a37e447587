use ffzf::error::MatchError;
use ffzf::registry::AlgorithmKind;
use ffzf::score::Score;
use ffzf::scorer::{hamming_distance, jaro_distance, jaro_winkler_distance, levenshtein_distance};
use ffzf::text::CompareOptions;

fn value(s: Score) -> f64 {
    s.num as f64 / s.den as f64
}

fn near(x: f64, y: f64) -> bool {
    (x - y).abs() <= 0.001
}

fn defaults() -> CompareOptions {
    CompareOptions::default()
}

fn lev(a: &str, b: &str) -> f64 {
    value(levenshtein_distance(a, b, defaults()))
}

fn jaro(a: &str, b: &str) -> f64 {
    value(jaro_distance(a, b, defaults()))
}

fn jw(a: &str, b: &str) -> f64 {
    value(jaro_winkler_distance(a, b, defaults()))
}

fn ham(a: &str, b: &str) -> Result<f64, MatchError> {
    hamming_distance(a, b, defaults()).map(value)
}

#[test]
fn test_levenshtein_distance() {
    assert_eq!(lev("", ""), 0.0);
    assert_eq!(lev("a", ""), 1.0);
    assert_eq!(lev("", "a"), 1.0);
    assert_eq!(lev("a", "a"), 0.0);
    assert_eq!(lev("a", "b"), 1.0);
    assert_eq!(lev("b", "a"), 1.0);
    assert_eq!(lev("a", "ab"), 1.0);
    assert_eq!(lev("ab", "a"), 1.0);
    assert_eq!(lev("a", "A"), 0.0);
    assert_eq!(lev("euphoria", "elation"), 7.0);
    assert_eq!(lev("triangle", "abcdefghijklmnopqrstuvwxyz"), 24.0);
}

#[test]
fn test_jaro_distance() {
    assert!(near(jaro("subprime", "primers"), 0.779762));
    assert!(near(jaro("SubPRIME", "Primers"), 0.779762));
    assert!(near(jaro("SUBprime", "prImeRs"), 0.779762));
    assert!(near(jaro("codify", "reify"), 0.7));
    assert!(near(jaro("absolute", "resolute"), 0.833333));
    assert!(near(jaro("anchors", "bank"), 0.595238));
    assert!(near(jaro("out", "regaining"), 0.0));
}

#[test]
fn test_jaro_winkler_distance() {
    assert!(near(jw("apples", "oranges"), 0.642857));
    assert!(near(jw("becoming", "trip"), 0.458333));
    // three matches (E, V, E against V, E, E), two disagreements halved once to
    // one transposition: (3/10 + 3/10 + 2/3) / 3, under 0.7 so not boosted
    assert!(near(jw("developers", "investment"), 0.422222));
    assert!(near(jw("trip", "drive"), 0.633333));
    assert!(near(jw("over", "out"), 0.527778));
}

#[test]
fn test_hamming_distance() {
    assert_eq!(ham("apples", ""), Err(MatchError::LengthMismatch(6, 0)));
    assert_eq!(ham("", ""), Ok(0.0));
    assert_eq!(ham("a", ""), Err(MatchError::LengthMismatch(1, 0)));
    assert_eq!(ham("", "a"), Err(MatchError::LengthMismatch(0, 1)));
    assert_eq!(ham("batter", "bat"), Err(MatchError::LengthMismatch(6, 3)));
    assert_eq!(ham("ask", "mike"), Err(MatchError::LengthMismatch(3, 4)));
    assert_eq!(ham("ask", "ask"), Ok(0.0));
    assert_eq!(ham("ask", "asked"), Err(MatchError::LengthMismatch(3, 5)));
    assert_eq!(ham("bask", "asked"), Err(MatchError::LengthMismatch(4, 5)));
}

#[test]
fn hamming_counts_differing_positions() {
    assert_eq!(ham("karolin", "kathrin"), Ok(3.0));
    assert_eq!(ham("ABC", "abd"), Ok(1.0));
    let sensitive = CompareOptions { case_sensitive: true, ..defaults() };
    assert_eq!(hamming_distance("ABC", "abd", sensitive).map(value), Ok(3.0));
}

#[test]
fn hamming_checks_normalized_lengths() {
    let strip = CompareOptions { remove_whitespace: true, ..defaults() };
    assert_eq!(hamming_distance("a b", "ab", strip).map(value), Ok(0.0));
    assert_eq!(
        hamming_distance("a b", "ab", defaults()),
        Err(MatchError::LengthMismatch(3, 2))
    );
}

#[test]
fn levenshtein_laws_on_examples() {
    assert_eq!(lev("kitten", "kitten"), 0.0);
    assert_eq!(lev("kitten", "sitting"), lev("sitting", "kitten"));
    assert_eq!(lev("kitten", "sitting"), 3.0);
    assert_eq!(lev("", "hello"), 5.0);
}

#[test]
fn options_change_levenshtein() {
    let sensitive = CompareOptions { case_sensitive: true, ..defaults() };
    assert_eq!(value(levenshtein_distance("a", "A", sensitive)), 1.0);
    let strip = CompareOptions { remove_whitespace: true, ..defaults() };
    assert_eq!(value(levenshtein_distance("a b\tc", "abc", strip)), 0.0);
    assert_eq!(lev("a b\tc", "abc"), 2.0);
    assert_eq!(value(levenshtein_distance("x\u{3000}y", "xy", strip)), 0.0);
}

#[test]
fn jaro_of_identical_strings_is_one() {
    assert_eq!(jaro("", ""), 1.0);
    assert_eq!(jaro("kitten", "kitten"), 1.0);
    assert_eq!(jaro("a", "A"), 1.0);
    assert_eq!(jaro("a", "b"), 0.0);
    assert_eq!(jaro("abc", ""), 0.0);
}

#[test]
fn jaro_exact_fraction() {
    let s = jaro_distance("martha", "marhta", defaults());
    // six matches, one transposition: (1 + 1 + 5/6) / 3 = 17/18
    assert_eq!(s.num * 18, s.den * 17);
}

#[test]
fn jaro_winkler_boosts_shared_prefix() {
    assert!(near(jw("martha", "marhta"), 0.961111));
    assert!(jw("martha", "marhta") >= jaro("martha", "marhta"));
    assert!(near(jw("dixon", "dicksonx"), 0.813333));
    assert_eq!(jw("apples", "oranges"), jaro("apples", "oranges"));
}

#[test]
fn algorithm_names_resolve_without_case() {
    assert_eq!(AlgorithmKind::from_upper("LEVENSHTEIN"), Some(AlgorithmKind::Levenshtein));
    assert_eq!(AlgorithmKind::from_upper("JAROWINKLER"), Some(AlgorithmKind::JaroWinkler));
    assert_eq!(AlgorithmKind::from_upper("jaro"), None);
    assert_eq!(AlgorithmKind::resolve("jaro"), Ok(AlgorithmKind::Jaro));
    assert_eq!(AlgorithmKind::resolve("HaMmInG"), Ok(AlgorithmKind::Hamming));
    assert_eq!(
        AlgorithmKind::resolve("soundex"),
        Err(MatchError::InvalidAlgorithm("soundex".to_string()))
    );
}
