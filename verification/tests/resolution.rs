//! Behaviour of the resolver and the ranked selector on concrete inputs.

use compose_fetch::resolver::{report_lines, resolve, MatchDisposition};
use compose_fetch::scoring::CUTOFF_BITS;
use compose_fetch::selector::get_close_matches;

fn names(items: &[&str]) -> Vec<String> {
    items.iter().map(|s| s.to_string()).collect()
}

#[test]
fn exact_match_case_insensitive() {
    let candidates = names(&["Plex", "Jellyfin", "Emby"]);
    let r = resolve("plex", &candidates);
    assert_eq!(r, MatchDisposition::Exact("Plex".to_string()));
}

#[test]
fn exact_match_keeps_original_casing() {
    let candidates = names(&["plex"]);
    let r = resolve("PLEX", &candidates);
    assert_eq!(r, MatchDisposition::Exact("plex".to_string()));
}

#[test]
fn exact_match_takes_first_of_case_variants() {
    let candidates = names(&["PLEX", "plex"]);
    let r = resolve("Plex", &candidates);
    assert_eq!(r, MatchDisposition::Exact("PLEX".to_string()));
}

#[test]
fn exact_match_beats_scoring() {
    // "Plexx" scores well against "Plex" too, but the exact hit on the
    // case-variant wins outright.
    let candidates = names(&["Plexx", "pLeX"]);
    let r = resolve("plex", &candidates);
    assert_eq!(r, MatchDisposition::Exact("pLeX".to_string()));
}

#[test]
fn unique_fuzzy_match() {
    let candidates = names(&["Jellyfin", "Emby"]);
    let r = resolve("jellyfn", &candidates);
    assert_eq!(r, MatchDisposition::UniqueFuzzy("Jellyfin".to_string()));
}

#[test]
fn ambiguous_match_ordered_by_score() {
    // Against "sonn", "son" scores higher than "son2"; both pass the cutoff.
    let candidates = names(&["son2", "son"]);
    let r = resolve("sonn", &candidates);
    assert_eq!(
        r,
        MatchDisposition::Ambiguous(names(&["son", "son2"]))
    );
}

#[test]
fn close_variants_fold_before_scoring() {
    // Candidates are case-folded before scoring, so their uppercase
    // initials do not count against them; both variants pass the cutoff and
    // are listed in their stored casing, the closer "Son" first.
    let candidates = names(&["Son", "Son2"]);
    let r = resolve("sonn", &candidates);
    assert_eq!(r, MatchDisposition::Ambiguous(names(&["Son", "Son2"])));
}

#[test]
fn fuzzy_match_ignores_candidate_casing() {
    // Scoring folds the candidate: "JELLYFIN" matches the misspelled query
    // as well as "Jellyfin" would, and is returned as stored.
    let candidates = names(&["JELLYFIN", "Emby"]);
    let r = resolve("jellyfn", &candidates);
    assert_eq!(r, MatchDisposition::UniqueFuzzy("JELLYFIN".to_string()));
}

#[test]
fn no_match_below_cutoff() {
    let candidates = names(&["Radarr"]);
    let r = resolve("xyz", &candidates);
    assert_eq!(r, MatchDisposition::NoMatch);
}

#[test]
fn no_match_on_empty_candidates() {
    let candidates: Vec<String> = Vec::new();
    let r = resolve("anything", &candidates);
    assert_eq!(r, MatchDisposition::NoMatch);
}

#[test]
fn resolve_is_idempotent() {
    let candidates = names(&["abcx", "abcy", "Jellyfin"]);
    let first = resolve("abcd", &candidates);
    let second = resolve("abcd", &candidates);
    assert_eq!(first, second);
}

#[test]
fn equal_scores_keep_input_order() {
    // "abcx" and "abcy" score identically against "abcd", so the tie is
    // broken by the input order, whichever it is.
    let r1 = resolve("abcd", &names(&["abcx", "abcy"]));
    assert_eq!(r1, MatchDisposition::Ambiguous(names(&["abcx", "abcy"])));
    let r2 = resolve("abcd", &names(&["abcy", "abcx"]));
    assert_eq!(r2, MatchDisposition::Ambiguous(names(&["abcy", "abcx"])));
}

#[test]
fn selector_filters_by_cutoff() {
    // At the fixed cutoff both variants survive; at a stricter one only the
    // closer "son" does.
    let candidates = names(&["son", "son2"]);
    let at_default = get_close_matches("sonn", &candidates, CUTOFF_BITS);
    assert_eq!(at_default, names(&["son", "son2"]));
    let strict = (0.9f64).to_bits();
    let at_strict = get_close_matches("sonn", &candidates, strict);
    assert_eq!(at_strict, names(&["son"]));
}

#[test]
fn selector_on_empty_input() {
    let candidates: Vec<String> = Vec::new();
    let r = get_close_matches("sonn", &candidates, CUTOFF_BITS);
    assert!(r.is_empty());
}

#[test]
fn selector_scores_match_jaro_winkler() {
    // The selected order must follow strsim's own scoring: "luigi311" is
    // far closer to "luigi" than "otheruser" is.
    assert!(strsim::jaro_winkler("luigi", "luigi311") >= 0.75);
    assert!(strsim::jaro_winkler("luigi", "otheruser") < 0.75);
    let candidates = names(&["otheruser", "luigi311"]);
    let r = get_close_matches("luigi", &candidates, CUTOFF_BITS);
    assert_eq!(r, names(&["luigi311"]));
}

#[test]
fn report_lines_for_each_disposition() {
    let none = report_lines("XYZ", "app", &MatchDisposition::NoMatch);
    assert_eq!(none, vec!["No app matches found for xyz".to_string()]);

    let unique = report_lines(
        "Jellyfn",
        "app",
        &MatchDisposition::UniqueFuzzy("Jellyfin".to_string()),
    );
    assert_eq!(unique, vec!["Match found for jellyfn: Jellyfin".to_string()]);

    let ambiguous = report_lines(
        "sonn",
        "app",
        &MatchDisposition::Ambiguous(names(&["son", "son2"])),
    );
    assert_eq!(
        ambiguous,
        vec![
            "No exact match found for sonn. Did you mean one of the following?".to_string(),
            "son".to_string(),
            "son2".to_string(),
        ]
    );

    let exact = report_lines("plex", "app", &MatchDisposition::Exact("Plex".to_string()));
    assert!(exact.is_empty());
}
