use std::collections::HashSet;

use xandikos::negotiation::NegotiationError;
use xandikos::pool::CandidatePool;
use xandikos::webdav::{parse_accept_header, parse_type, pick_content_types, weigh, Params};

fn pool_of(items: &[&str]) -> CandidatePool {
    let mut pool = CandidatePool::new();
    for item in items {
        pool.insert(item.to_string());
    }
    pool
}

#[test]
fn test_parse_type() {
    let (base, params) = parse_type("text/plain; charset=utf-8");
    assert_eq!(base, "text/plain");
    assert_eq!(params.get("charset").unwrap(), "utf-8");

    let (base, params) = parse_type("text/plain");
    assert_eq!(base, "text/plain");
    assert_eq!(params.len(), 0);
}

#[test]
fn test_parse_accept_header() {
    let accept = "text/plain; q=0.5, text/html, text/x-dvi; q=0.8, text/x-c";
    let parsed = parse_accept_header(accept);
    assert_eq!(parsed.len(), 4);
    assert_eq!(parsed[0].0, "text/plain");
    assert_eq!(parsed[0].1.get("q").unwrap(), "0.5");
    assert_eq!(parsed[1].0, "text/html");
    assert_eq!(parsed[1].1.len(), 0);
    assert_eq!(parsed[2].0, "text/x-dvi");
    assert_eq!(parsed[2].1.get("q").unwrap(), "0.8");
    assert_eq!(parsed[3].0, "text/x-c");
    assert_eq!(parsed[3].1.len(), 0);
}

#[test]
fn test_pick_content_types_simple() {
    let accepted = vec![
        ("text/*".to_string(), Params::new()),
        ("text/plain".to_string(), Params::new()),
        ("text/*".to_string(), Params::new()),
        ("text/*".to_string(), Params::new()),
    ];
    let available = pool_of(&["text/plain", "text/html", "text/x-dvi", "text/x-c"]);
    let picked = pick_content_types(accepted, available)
        .unwrap()
        .into_iter()
        .collect::<HashSet<_>>();
    let expected = [
        "text/plain".to_string(),
        "text/html".to_string(),
        "text/x-dvi".to_string(),
        "text/x-c".to_string(),
    ]
    .into_iter()
    .collect::<HashSet<_>>();
    assert_eq!(picked, expected);
}

#[test]
fn test_pick_content_types_with_q() {
    let accepted = vec![
        ("text/*".to_string(), {
            let mut ps = Params::new();
            ps.insert("q".to_string(), "0.5".to_string());
            ps
        }),
        ("text/plain".to_string(), {
            let mut ps = Params::new();
            ps.insert("q".to_string(), "0.8".to_string());
            ps
        }),
    ];
    let available = pool_of(&["text/plain", "text/html", "text/x-dvi", "text/x-c"]);
    let picked = pick_content_types(accepted, available).unwrap();
    assert_eq!(
        picked,
        vec![
            "text/plain".to_string(),
            "text/html".to_string(),
            "text/x-c".to_string(),
            "text/x-dvi".to_string(),
        ]
    );
}

#[test]
fn pick_content_types_rejects_a_quality_that_is_no_number() {
    let mut ps = Params::new();
    ps.insert("q".to_string(), "high".to_string());
    let accepted = vec![("text/*".to_string(), ps)];
    let available = pool_of(&["text/plain"]);
    assert_eq!(
        pick_content_types(accepted, available),
        Err(NegotiationError::MalformedQuality)
    );
}

fn params_of(pairs: &[(&str, &str)]) -> Params {
    let mut params = Params::new();
    for (key, value) in pairs {
        params.insert(key.to_string(), value.to_string());
    }
    params
}

#[test]
fn parse_type_trims_base_keys_and_values() {
    let (base, params) = parse_type("  text/plain ;  charset = utf-8 ; q=0.5  ");
    assert_eq!(base, "text/plain");
    assert_eq!(params.len(), 2);
    assert_eq!(params.get("charset").unwrap(), "utf-8");
    assert_eq!(params.get("q").unwrap(), "0.5");
}

#[test]
fn parse_type_keeps_the_last_of_a_repeated_key() {
    let (base, params) = parse_type("a/b; k=1; k=2");
    assert_eq!(base, "a/b");
    assert_eq!(params.len(), 1);
    assert_eq!(params.get("k").unwrap(), "2");
}

#[test]
fn parse_type_gives_a_bare_key_an_empty_value() {
    let (_, params) = parse_type("a/b; flag");
    assert_eq!(params.len(), 1);
    assert_eq!(params.get("flag").unwrap(), "");
}

#[test]
fn parse_type_splits_a_parameter_at_its_first_equals_sign() {
    let (_, params) = parse_type("a/b; k=v=w");
    assert_eq!(params.get("k").unwrap(), "v=w");
}

#[test]
fn parse_type_enters_an_empty_segment_under_the_empty_key() {
    let (base, params) = parse_type("a/b;");
    assert_eq!(base, "a/b");
    assert_eq!(params.len(), 1);
    assert_eq!(params.get("").unwrap(), "");
}

#[test]
fn parse_type_of_the_empty_string() {
    let (base, params) = parse_type("");
    assert_eq!(base, "");
    assert!(params.is_empty());
}

#[test]
fn parse_accept_header_skips_empty_segments() {
    let parsed = parse_accept_header("text/plain,,text/html,");
    assert_eq!(parsed.len(), 2);
    assert_eq!(parsed[0].0, "text/plain");
    assert_eq!(parsed[1].0, "text/html");
    assert_eq!(parse_accept_header("").len(), 0);
}

#[test]
fn parse_accept_header_keeps_a_segment_of_whitespace() {
    let parsed = parse_accept_header("a/b, ,c/d");
    assert_eq!(parsed.len(), 3);
    assert_eq!(parsed[1].0, "");
    assert_eq!(parsed[1].1.len(), 0);
}

#[test]
fn pick_content_types_offers_no_candidate_twice() {
    let accepted = vec![
        ("text/*".to_string(), Params::new()),
        ("text/plain".to_string(), Params::new()),
        ("*/*".to_string(), Params::new()),
    ];
    let available = pool_of(&["text/plain", "text/html", "image/png"]);
    let picked = pick_content_types(accepted, available).unwrap();
    assert_eq!(picked.len(), 3);
    let distinct = picked.iter().cloned().collect::<HashSet<_>>();
    assert_eq!(distinct.len(), 3);
}

#[test]
fn pick_content_types_leaves_out_an_entry_of_quality_zero() {
    let accepted = vec![
        ("text/*".to_string(), params_of(&[("q", "0")])),
        ("text/plain".to_string(), params_of(&[("q", "0.3")])),
        ("image/*".to_string(), params_of(&[("q", "0.000")])),
        ("application/*".to_string(), params_of(&[("q", "-1")])),
    ];
    let available = pool_of(&["text/plain", "text/html", "image/png", "application/json"]);
    let picked = pick_content_types(accepted, available).unwrap();
    assert_eq!(picked, vec!["text/plain".to_string()]);
}

#[test]
fn pick_content_types_tries_the_later_of_two_equal_entries_first() {
    let accepted = vec![
        ("text/html".to_string(), params_of(&[("q", "0.7")])),
        ("text/plain".to_string(), params_of(&[("q", "0.70")])),
        ("image/png".to_string(), params_of(&[("q", "0.9")])),
    ];
    let available = pool_of(&["text/plain", "text/html", "image/png"]);
    let picked = pick_content_types(accepted, available).unwrap();
    assert_eq!(
        picked,
        vec![
            "image/png".to_string(),
            "text/plain".to_string(),
            "text/html".to_string(),
        ]
    );
}

#[test]
fn pick_content_types_may_offer_nothing() {
    let accepted = vec![("image/*".to_string(), Params::new())];
    let available = pool_of(&["text/plain"]);
    assert_eq!(pick_content_types(accepted, available), Ok(Vec::new()));
    assert_eq!(
        pick_content_types(Vec::new(), pool_of(&["text/plain"])),
        Ok(Vec::new())
    );
}

#[test]
fn pick_content_types_rejects_a_pattern_that_is_no_glob() {
    let accepted = vec![("text/[".to_string(), Params::new())];
    let available = pool_of(&["text/plain"]);
    assert_eq!(
        pick_content_types(accepted, available),
        Err(NegotiationError::InvalidPattern)
    );
}

#[test]
fn pick_content_types_does_not_look_at_the_pattern_of_an_entry_left_out() {
    let accepted = vec![
        ("text/[".to_string(), params_of(&[("q", "0")])),
        ("text/*".to_string(), Params::new()),
    ];
    let available = pool_of(&["text/plain"]);
    assert_eq!(
        pick_content_types(accepted, available),
        Ok(vec!["text/plain".to_string()])
    );
}

#[test]
fn pick_content_types_reports_a_malformed_quality_before_a_bad_pattern() {
    let accepted = vec![
        ("text/[".to_string(), Params::new()),
        ("text/*".to_string(), params_of(&[("q", "")])),
    ];
    let available = pool_of(&["text/plain"]);
    assert_eq!(
        pick_content_types(accepted, available),
        Err(NegotiationError::MalformedQuality)
    );
}

#[test]
fn pick_content_types_matches_wildcards_and_classes() {
    let accepted = vec![
        ("text/x-?".to_string(), params_of(&[("q", "1")])),
        ("text/[hp]*".to_string(), params_of(&[("q", "0.5")])),
    ];
    let available = pool_of(&["text/plain", "text/html", "text/x-dvi", "text/x-c"]);
    let picked = pick_content_types(accepted, available).unwrap();
    assert_eq!(
        picked,
        vec![
            "text/x-c".to_string(),
            "text/html".to_string(),
            "text/plain".to_string(),
        ]
    );
}

#[test]
fn weigh_keeps_the_entries_of_positive_quality() {
    let accepted = vec![
        ("a/*".to_string(), params_of(&[("q", "0.5")])),
        ("b/*".to_string(), params_of(&[("q", "0")])),
        ("c/*".to_string(), Params::new()),
        ("d/*".to_string(), params_of(&[("q", "-0.1")])),
    ];
    let entries = weigh(&accepted).unwrap();
    assert_eq!(entries.len(), 2);
    assert_eq!(entries[0].0, "a/*");
    assert_eq!(entries[1].0, "c/*");
    assert!(entries[0].1.magnitude_lt(&entries[1].1));
}

#[test]
fn weigh_rejects_a_malformed_quality_of_any_entry() {
    let accepted = vec![
        ("a/*".to_string(), params_of(&[("q", "0.5")])),
        ("b/*".to_string(), params_of(&[("q", "1e-1")])),
    ];
    assert!(matches!(weigh(&accepted), Err(NegotiationError::MalformedQuality)));
}
