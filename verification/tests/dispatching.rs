//! Behaviour of the query dispatcher on concrete catalogs.

use compose_fetch::dispatch::{handle_app_author, Data, DispatchOutcome};
use compose_fetch::resolver::MatchDisposition;

fn names(items: &[&str]) -> Vec<String> {
    items.iter().map(|s| s.to_string()).collect()
}

fn catalog() -> Data {
    Data {
        apps: names(&["Plex", "Radarr", "Jellyfin"]),
        authors: names(&["luigi311", "otheruser", "bob"]),
        folder_structure: vec![
            ("Plex".to_string(), names(&["luigi311", "otheruser"])),
            ("Radarr".to_string(), names(&["luigi311", "bob"])),
            ("Jellyfin".to_string(), names(&["bob"])),
        ],
    }
}

#[test]
fn app_and_author_trigger_copy() {
    let data = catalog();
    let r = handle_app_author(
        Some("Plex".to_string()),
        Some("luigi".to_string()),
        &data,
    );
    assert_eq!(
        r.app_resolution,
        Some(MatchDisposition::Exact("Plex".to_string()))
    );
    assert_eq!(
        r.author_resolution,
        Some(MatchDisposition::UniqueFuzzy("luigi311".to_string()))
    );
    assert_eq!(
        r.outcome,
        DispatchOutcome::CopyRequest {
            app: "Plex".to_string(),
            author: "luigi311".to_string(),
        }
    );
}

#[test]
fn app_only_lists_its_authors() {
    let data = catalog();
    let r = handle_app_author(Some("plex".to_string()), None, &data);
    assert_eq!(
        r.app_resolution,
        Some(MatchDisposition::Exact("Plex".to_string()))
    );
    assert_eq!(r.author_resolution, None);
    assert_eq!(
        r.outcome,
        DispatchOutcome::AuthorListing {
            app: "Plex".to_string(),
            authors: names(&["luigi311", "otheruser"]),
        }
    );
}

#[test]
fn author_only_lists_their_apps() {
    let data = catalog();
    let r = handle_app_author(None, Some("luigi311".to_string()), &data);
    assert_eq!(r.app_resolution, None);
    assert_eq!(
        r.author_resolution,
        Some(MatchDisposition::Exact("luigi311".to_string()))
    );
    assert_eq!(
        r.outcome,
        DispatchOutcome::AppListing {
            author: "luigi311".to_string(),
            apps: names(&["Plex", "Radarr"]),
        }
    );
}

#[test]
fn author_resolution_is_scoped_to_the_app() {
    // "bob" provides Jellyfin but not Plex, so the author step resolves
    // against Plex's own author list and finds nothing.
    let data = catalog();
    let r = handle_app_author(
        Some("Plex".to_string()),
        Some("bob".to_string()),
        &data,
    );
    assert_eq!(
        r.app_resolution,
        Some(MatchDisposition::Exact("Plex".to_string()))
    );
    assert_eq!(r.author_resolution, Some(MatchDisposition::NoMatch));
    assert_eq!(r.outcome, DispatchOutcome::NoAction);
}

#[test]
fn app_missing_from_folder_structure_has_no_authors() {
    let data = Data {
        apps: names(&["Ghost"]),
        authors: names(&["bob"]),
        folder_structure: Vec::new(),
    };
    let r = handle_app_author(
        Some("Ghost".to_string()),
        Some("bob".to_string()),
        &data,
    );
    assert_eq!(
        r.app_resolution,
        Some(MatchDisposition::Exact("Ghost".to_string()))
    );
    assert_eq!(r.author_resolution, Some(MatchDisposition::NoMatch));
    assert_eq!(r.outcome, DispatchOutcome::NoAction);
}

#[test]
fn ambiguous_app_stops_the_flow() {
    let data = Data {
        apps: names(&["abcx", "abcy"]),
        authors: names(&["bob"]),
        folder_structure: vec![
            ("abcx".to_string(), names(&["bob"])),
            ("abcy".to_string(), names(&["bob"])),
        ],
    };
    let r = handle_app_author(
        Some("abcd".to_string()),
        Some("bob".to_string()),
        &data,
    );
    assert_eq!(
        r.app_resolution,
        Some(MatchDisposition::Ambiguous(names(&["abcx", "abcy"])))
    );
    assert_eq!(r.author_resolution, None);
    assert_eq!(r.outcome, DispatchOutcome::NoAction);
}

#[test]
fn unresolved_app_yields_no_action() {
    let data = catalog();
    let r = handle_app_author(Some("zzz".to_string()), None, &data);
    assert_eq!(r.app_resolution, Some(MatchDisposition::NoMatch));
    assert_eq!(r.author_resolution, None);
    assert_eq!(r.outcome, DispatchOutcome::NoAction);
}

#[test]
fn neither_query_yields_no_action() {
    let data = catalog();
    let r = handle_app_author(None, None, &data);
    assert_eq!(r.app_resolution, None);
    assert_eq!(r.author_resolution, None);
    assert_eq!(r.outcome, DispatchOutcome::NoAction);
}
