use xandikos::pool::{sort_strings, string_lt, CandidatePool};
use xandikos::quality::Quality;
use xandikos::negotiation::{negotiate, rank, select, Negotiation, NegotiationError};
use xandikos::webdav::etag_matches;

fn strings(items: &[&str]) -> Vec<String> {
    items.iter().map(|item| item.to_string()).collect()
}

fn quality(text: &str) -> Quality {
    Quality::parse(text).unwrap()
}

#[test]
fn etag_matches_any_tag_under_a_star() {
    assert!(etag_matches(Some("*"), Some("abc")));
    assert!(!etag_matches(Some("*"), None));
}

#[test]
fn etag_matches_all_without_a_condition() {
    assert!(etag_matches(None, Some("abc")));
    assert!(etag_matches(None, None));
}

#[test]
fn etag_matches_a_listed_tag() {
    assert!(etag_matches(Some("\"foo\""), Some("\"foo\"")));
    assert!(etag_matches(Some("\"foo\", \"bar\""), Some("\"bar\"")));
    assert!(etag_matches(Some(" \"foo\" ,\"bar\""), Some("\"foo\"")));
    assert!(etag_matches(Some("\"foo\", *"), Some("\"baz\"")));
    assert!(!etag_matches(Some("\"foo\", \"bar\""), Some("\"baz\"")));
    assert!(!etag_matches(Some("\"foo\""), Some("foo")));
    assert!(!etag_matches(Some("\"foo\", \"bar\""), None));
    assert!(!etag_matches(Some(""), Some("\"foo\"")));
    assert!(!etag_matches(Some(""), None));
}

#[test]
fn etag_matches_compares_strongly() {
    assert!(!etag_matches(Some("W/\"foo\""), Some("W/\"foo\"")));
    assert!(!etag_matches(Some("\"foo\""), Some("W/\"foo\"")));
    assert!(!etag_matches(Some("W/\"foo\""), Some("\"foo\"")));
    assert!(etag_matches(Some("*"), Some("W/\"foo\"")));
}

#[test]
fn quality_parse_takes_decimal_numbers_only() {
    for text in ["1", "0", "0.5", ".5", "5.", "+1.25", "-0.5", "007", "1.000", "-0"] {
        assert!(Quality::parse(text).is_some());
    }
    for text in ["", ".", "+", "-", "+.", "abc", "1e3", "0.5.1", " 1", "1 ", "--1", "1,5", "inf", "NaN", "0x1"] {
        assert!(Quality::parse(text).is_none());
    }
}

#[test]
fn quality_is_positive_above_zero_only() {
    assert!(quality("1").is_positive());
    assert!(quality("0.001").is_positive());
    assert!(quality("+0.5").is_positive());
    assert!(quality("12").is_positive());
    assert!(!quality("0").is_positive());
    assert!(!quality("0.000").is_positive());
    assert!(!quality("-0").is_positive());
    assert!(!quality("-0.5").is_positive());
    assert!(!quality(".0").is_positive());
}

#[test]
fn quality_magnitude_follows_the_value() {
    assert!(quality("0.5").magnitude_lt(&quality("0.8")));
    assert!(!quality("0.8").magnitude_lt(&quality("0.5")));
    assert!(quality("9").magnitude_lt(&quality("10")));
    assert!(!quality("10").magnitude_lt(&quality("9")));
    assert!(quality("0.09").magnitude_lt(&quality("0.1")));
    assert!(quality("0.1").magnitude_lt(&quality("0.11")));
    assert!(quality("1.5").magnitude_lt(&quality("2")));
    assert!(quality("0.999").magnitude_lt(&quality("1")));
    assert!(!quality("1").magnitude_lt(&quality("1.0")));
    assert!(!quality("1.0").magnitude_lt(&quality("1")));
    assert!(!quality("0.50").magnitude_lt(&quality("0.5")));
    assert!(!quality("007").magnitude_lt(&quality("7")));
    assert!(!quality("7").magnitude_lt(&quality("007")));
    assert!(quality("0.12345678901234567890").magnitude_lt(&quality("0.12345678901234567891")));
}

#[test]
fn rank_orders_by_descending_quality_and_turns_ties_round() {
    let entries = vec![
        ("a".to_string(), quality("0.5")),
        ("b".to_string(), quality("1")),
        ("c".to_string(), quality("0.5")),
        ("d".to_string(), quality("0.8")),
        ("e".to_string(), quality("1.0")),
    ];
    assert_eq!(rank(&entries), strings(&["e", "b", "d", "c", "a"]));
    assert_eq!(rank(&Vec::new()), Vec::<String>::new());
}

#[test]
fn select_keeps_the_flagged_strings_in_order() {
    let items = strings(&["b", "a", "c"]);
    assert_eq!(select(&items, &vec![true, false, true]), strings(&["b", "c"]));
    assert_eq!(select(&items, &vec![false, false, false]), Vec::<String>::new());
    assert_eq!(select(&items, &vec![true, true, true]), items);
}

#[test]
fn sort_strings_orders_by_code_point() {
    assert_eq!(
        sort_strings(strings(&["text/x-dvi", "text/html", "text/x-c", "text", "Text", ""])),
        strings(&["", "Text", "text", "text/html", "text/x-c", "text/x-dvi"])
    );
    assert_eq!(sort_strings(strings(&["b", "a", "b"])), strings(&["a", "b", "b"]));
    assert_eq!(sort_strings(strings(&["é", "z", "€"])), strings(&["z", "é", "€"]));
}

#[test]
fn string_lt_is_strict() {
    assert!(string_lt("a", "b"));
    assert!(string_lt("a", "ab"));
    assert!(string_lt("", "a"));
    assert!(!string_lt("a", "a"));
    assert!(!string_lt("b", "a"));
    assert!(!string_lt("", ""));
}

#[test]
fn negotiate_draws_each_batch_from_what_is_left() {
    let mut pool = CandidatePool::new();
    for item in ["text/plain", "text/html", "image/png", "image/gif"] {
        assert!(pool.insert(item.to_string()));
    }
    let patterns = strings(&["image/p*", "text/*", "*"]);
    assert_eq!(
        negotiate(patterns, pool),
        Ok(strings(&["image/png", "text/html", "text/plain", "image/gif"]))
    );
}

#[test]
fn negotiate_matches_a_pattern_against_the_whole_candidate() {
    let mut pool = CandidatePool::new();
    pool.insert("text/plain".to_string());
    pool.insert("text/plain+x".to_string());
    assert_eq!(
        negotiate(strings(&["text/plain"]), pool),
        Ok(strings(&["text/plain"]))
    );
}

#[test]
fn negotiate_rejects_a_pattern_that_is_no_glob() {
    let mut pool = CandidatePool::new();
    pool.insert("text/plain".to_string());
    assert_eq!(
        negotiate(strings(&["text/*", "a**"]), pool),
        Err(NegotiationError::InvalidPattern)
    );
}

#[test]
fn candidate_pool_holds_each_string_once() {
    let mut pool = CandidatePool::new();
    assert!(pool.is_empty());
    assert!(pool.insert("a".to_string()));
    assert!(!pool.insert("a".to_string()));
    assert!(pool.insert("b".to_string()));
    assert_eq!(pool.len(), 2);
    assert!(pool.contains("a"));
    assert!(!pool.contains("c"));
    assert!(pool.remove("a"));
    assert!(!pool.remove("a"));
    assert!(!pool.contains("a"));
    assert_eq!(pool.len(), 1);
    assert_eq!(pool.items(), &strings(&["b"]));
}

#[test]
fn negotiation_yields_one_batch_for_each_pattern() {
    let mut pool = CandidatePool::new();
    for item in ["text/plain", "text/html", "image/png"] {
        pool.insert(item.to_string());
    }
    let mut state = Negotiation::new(strings(&["text/*", "video/*", "*/*"]), pool);
    assert_eq!(state.next_batch(), Some(Ok(strings(&["text/html", "text/plain"]))));
    assert_eq!(state.next_batch(), Some(Ok(Vec::new())));
    assert_eq!(state.next_batch(), Some(Ok(strings(&["image/png"]))));
    assert_eq!(state.next_batch(), None);
    assert_eq!(state.next_batch(), None);
}

#[test]
fn negotiation_meets_a_bad_pattern_only_when_it_is_tried() {
    let mut pool = CandidatePool::new();
    pool.insert("text/plain".to_string());
    pool.insert("image/png".to_string());
    let mut state = Negotiation::new(strings(&["text/*", "[", "*"]), pool);
    assert_eq!(state.next_batch(), Some(Ok(strings(&["text/plain"]))));
    assert_eq!(state.next_batch(), Some(Err(NegotiationError::InvalidPattern)));
    assert_eq!(state.next_batch(), Some(Ok(strings(&["image/png"]))));
    assert_eq!(state.next_batch(), None);
}
