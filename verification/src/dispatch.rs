//! The query dispatcher.
//!
//! The dispatcher applies the resolver to the supported query shapes —
//! app only, app and author, author only — and decides the downstream
//! action: list an app's authors, list an author's apps, or request the
//! copy of a resolved deployment descriptor. It performs no I/O itself;
//! the caller renders the resolutions and carries out the outcome.

use vstd::prelude::*;
use crate::resolver::{resolve, resolve_spec, MatchDisposition, SpecDisposition};

verus! {

/// The command-line surface: an optional app query, an optional author
/// query, and the listing and update switches handled outside the core.
#[derive(Debug, PartialEq, Eq)]
pub struct Args {
    pub app: Option<String>,
    pub author: Option<String>,
    pub list_apps: bool,
    pub list_authors: bool,
    pub update: bool,
}

/// The loaded template catalog: the known apps, the known authors, and the
/// association from an app to the authors that provide it, kept as an
/// association list in load order so that every scan of it is deterministic.
#[derive(Debug, PartialEq, Eq)]
pub struct Data {
    pub apps: Vec<String>,
    pub authors: Vec<String>,
    pub folder_structure: Vec<(String, Vec<String>)>,
}

/// The action the dispatcher decided on.
#[derive(Debug, PartialEq, Eq)]
pub enum DispatchOutcome {
    /// Both queries resolved: copy the descriptor of `app` by `author`.
    CopyRequest { app: String, author: String },
    /// The app query resolved and no author was asked for: report the
    /// app's authors.
    AuthorListing { app: String, authors: Vec<String> },
    /// The author query resolved with no app given: report the apps that
    /// the author provides.
    AppListing { author: String, apps: Vec<String> },
    /// A resolution step did not succeed, or nothing was asked for.
    NoAction,
}

/// The outcome at the specification level.
pub enum SpecOutcome {
    CopyRequest { app: Seq<char>, author: Seq<char> },
    AuthorListing { app: Seq<char>, authors: Seq<Seq<char>> },
    AppListing { author: Seq<char>, apps: Seq<Seq<char>> },
    NoAction,
}

impl View for DispatchOutcome {
    type V = SpecOutcome;

    open spec fn view(&self) -> SpecOutcome {
        match self {
            DispatchOutcome::CopyRequest { app, author } => SpecOutcome::CopyRequest {
                app: app@,
                author: author@,
            },
            DispatchOutcome::AuthorListing { app, authors } => SpecOutcome::AuthorListing {
                app: app@,
                authors: authors.deep_view(),
            },
            DispatchOutcome::AppListing { author, apps } => SpecOutcome::AppListing {
                author: author@,
                apps: apps.deep_view(),
            },
            DispatchOutcome::NoAction => SpecOutcome::NoAction,
        }
    }
}

/// What the dispatcher returns: the resolutions that were attempted, for
/// reporting, and the decided action.
#[derive(Debug, PartialEq, Eq)]
pub struct DispatchResult {
    pub app_resolution: Option<MatchDisposition>,
    pub author_resolution: Option<MatchDisposition>,
    pub outcome: DispatchOutcome,
}

/// Well-formedness of the association list: its keys are pairwise distinct,
/// as the mapping it stands for guarantees. The loader establishes it once;
/// the lookups below rely on it so that no app is ever listed twice.
pub open spec fn unique_keys(fs: Seq<(Seq<char>, Seq<Seq<char>>)>) -> bool {
    forall|i: int, j: int| 0 <= i < j < fs.len() ==> (#[trigger] fs[i]).0 != (#[trigger] fs[j]).0
}

impl Data {
    /// Well-formedness of the catalog: the app-to-authors association has
    /// one entry per app.
    pub open spec fn wf(&self) -> bool {
        unique_keys(self.folder_structure.deep_view())
    }
}

/// The authors recorded for `app`: the value of the first entry whose key
/// is `app`, or empty when there is none.
pub open spec fn authors_for(fs: Seq<(Seq<char>, Seq<Seq<char>>)>, app: Seq<char>) -> Seq<
    Seq<char>,
>
    decreases fs.len(),
{
    if fs.len() == 0 {
        Seq::empty()
    } else if fs[0].0 == app {
        fs[0].1
    } else {
        authors_for(fs.drop_first(), app)
    }
}

/// The test for an entry listing `author`, as a single closure value.
pub open spec fn author_pred(author: Seq<char>) -> spec_fn((Seq<char>, Seq<Seq<char>>)) -> bool {
    |p: (Seq<char>, Seq<Seq<char>>)| p.1.contains(author)
}

/// An entry's key, as a single closure value.
pub open spec fn key_of() -> spec_fn((Seq<char>, Seq<Seq<char>>)) -> Seq<char> {
    |p: (Seq<char>, Seq<Seq<char>>)| p.0
}

/// The apps whose author list contains `author` exactly, in catalog order.
pub open spec fn apps_with_author(fs: Seq<(Seq<char>, Seq<Seq<char>>)>, author: Seq<char>) -> Seq<
    Seq<char>,
> {
    fs.filter(author_pred(author)).map_values(key_of())
}

/// The matched name of a successful resolution: an exact or unique fuzzy
/// hit succeeds, an ambiguous or empty outcome does not.
pub open spec fn success_of(d: SpecDisposition) -> Option<Seq<char>> {
    match d {
        SpecDisposition::Exact(s) => Some(s),
        SpecDisposition::UniqueFuzzy(s) => Some(s),
        SpecDisposition::Ambiguous(_) => None,
        SpecDisposition::NoMatch => None,
    }
}

/// An optional query string at the specification level.
pub open spec fn opt_str_view(o: Option<String>) -> Option<Seq<char>> {
    match o {
        Some(s) => Some(s@),
        None => None,
    }
}

/// An optional resolution at the specification level.
pub open spec fn opt_disposition_view(o: Option<MatchDisposition>) -> Option<SpecDisposition> {
    match o {
        Some(d) => Some(d@),
        None => None,
    }
}

/// What dispatching decides, as a function of the two optional queries and
/// the catalog: the app resolution, the author resolution, and the action.
pub open spec fn dispatch_spec(
    app_q: Option<Seq<char>>,
    author_q: Option<Seq<char>>,
    apps: Seq<Seq<char>>,
    authors: Seq<Seq<char>>,
    fs: Seq<(Seq<char>, Seq<Seq<char>>)>,
) -> (Option<SpecDisposition>, Option<SpecDisposition>, SpecOutcome) {
    match app_q {
        Some(a) => {
            let d = resolve_spec(a, apps);
            match success_of(d) {
                Some(m) => {
                    let auths = authors_for(fs, m);
                    match author_q {
                        Some(u) => {
                            let d2 = resolve_spec(u, auths);
                            match success_of(d2) {
                                Some(m2) => (
                                    Some(d),
                                    Some(d2),
                                    SpecOutcome::CopyRequest { app: m, author: m2 },
                                ),
                                None => (Some(d), Some(d2), SpecOutcome::NoAction),
                            }
                        },
                        None => (
                            Some(d),
                            None,
                            SpecOutcome::AuthorListing { app: m, authors: auths },
                        ),
                    }
                },
                None => (Some(d), None, SpecOutcome::NoAction),
            }
        },
        None => match author_q {
            Some(u) => {
                let d = resolve_spec(u, authors);
                match success_of(d) {
                    Some(m) => (
                        None,
                        Some(d),
                        SpecOutcome::AppListing { author: m, apps: apps_with_author(fs, m) },
                    ),
                    None => (None, Some(d), SpecOutcome::NoAction),
                }
            },
            None => (None, None, SpecOutcome::NoAction),
        },
    }
}

/// Copy a list of names element by element.
fn clone_string_vec(v: &Vec<String>) -> (r: Vec<String>)
    ensures
        r.deep_view() == v.deep_view(),
        r@.len() == v@.len(),
{
    let mut r: Vec<String> = Vec::new();
    let mut i: usize = 0;
    while i < v.len()
        invariant
            i <= v@.len(),
            r@.len() == i,
            forall|k: int| 0 <= k < i ==> #[trigger] r@[k]@ == v@[k]@,
        decreases v@.len() - i,
    {
        r.push(v[i].clone());
        i += 1;
    }
    proof {
        assert(r.deep_view() =~= v.deep_view());
    }
    r
}

/// An entry with key `app` at position `i`, none earlier, pins `authors_for`
/// to that entry's list.
proof fn lemma_authors_for_at(fs: Seq<(Seq<char>, Seq<Seq<char>>)>, app: Seq<char>, i: int)
    requires
        0 <= i < fs.len(),
        fs[i].0 == app,
        forall|k: int| 0 <= k < i ==> (#[trigger] fs[k]).0 != app,
    ensures
        authors_for(fs, app) == fs[i].1,
    decreases i,
{
    if i > 0 {
        let rest = fs.drop_first();
        assert(rest[i - 1] == fs[i]);
        assert forall|k: int| 0 <= k < i - 1 implies (#[trigger] rest[k]).0 != app by {
            assert(rest[k] == fs[k + 1]);
        }
        lemma_authors_for_at(rest, app, i - 1);
    }
}

/// With no entry keyed `app`, `authors_for` is empty.
proof fn lemma_authors_for_none(fs: Seq<(Seq<char>, Seq<Seq<char>>)>, app: Seq<char>)
    requires
        forall|k: int| 0 <= k < fs.len() ==> (#[trigger] fs[k]).0 != app,
    ensures
        authors_for(fs, app) == Seq::<Seq<char>>::empty(),
    decreases fs.len(),
{
    if fs.len() > 0 {
        let rest = fs.drop_first();
        assert forall|k: int| 0 <= k < rest.len() implies (#[trigger] rest[k]).0 != app by {
            assert(rest[k] == fs[k + 1]);
        }
        lemma_authors_for_none(rest, app);
    }
}

/// Look up the author list recorded for `app`; an app absent from the
/// catalog has no authors.
pub fn authors_of(fs: &Vec<(String, Vec<String>)>, app: &String) -> (r: Vec<String>)
    requires
        unique_keys(fs.deep_view()),
    ensures
        r.deep_view() == authors_for(fs.deep_view(), app@),
{
    let ghost fv = fs.deep_view();
    let mut i: usize = 0;
    while i < fs.len()
        invariant
            i <= fs@.len(),
            fv == fs.deep_view(),
            fv.len() == fs@.len(),
            forall|k: int| 0 <= k < i ==> (#[trigger] fv[k]).0 != app@,
        decreases fs@.len() - i,
    {
        proof {
            assert(fv[i as int] == fs@[i as int].deep_view());
            assert(fv[i as int].0 == fs@[i as int].0@);
            assert(fv[i as int].1 == fs@[i as int].1.deep_view());
        }
        if fs[i].0 == *app {
            let r = clone_string_vec(&fs[i].1);
            proof {
                lemma_authors_for_at(fv, app@, i as int);
            }
            return r;
        }
        i += 1;
    }
    proof {
        lemma_authors_for_none(fv, app@);
    }
    let r: Vec<String> = Vec::new();
    proof {
        assert(r.deep_view() =~= Seq::<Seq<char>>::empty());
    }
    r
}

/// Whether `v` holds the exact name `s`.
fn contains_string(v: &Vec<String>, s: &String) -> (r: bool)
    ensures
        r == v.deep_view().contains(s@),
{
    let ghost vv = v.deep_view();
    let mut i: usize = 0;
    while i < v.len()
        invariant
            i <= v@.len(),
            vv == v.deep_view(),
            vv.len() == v@.len(),
            forall|k: int| 0 <= k < i ==> #[trigger] vv[k] != s@,
        decreases v@.len() - i,
    {
        proof {
            assert(vv[i as int] == v@[i as int]@);
        }
        if v[i] == *s {
            return true;
        }
        i += 1;
    }
    false
}

/// List the apps whose author list contains `author` exactly, in catalog
/// order.
pub fn apps_of_author(fs: &Vec<(String, Vec<String>)>, author: &String) -> (r: Vec<String>)
    requires
        unique_keys(fs.deep_view()),
    ensures
        r.deep_view() == apps_with_author(fs.deep_view(), author@),
{
    let ghost fv = fs.deep_view();
    let mut r: Vec<String> = Vec::new();
    let mut i: usize = 0;
    proof {
        assert(fv.take(0) =~= Seq::<(Seq<char>, Seq<Seq<char>>)>::empty());
        assert(fv.take(0).all(|x: (Seq<char>, Seq<Seq<char>>)| !author_pred(author@)(x)));
        fv.take(0).lemma_all_neg_filter_empty(author_pred(author@));
        assert(r.deep_view() =~= fv.take(0).filter(author_pred(author@)).map_values(key_of()));
    }
    while i < fs.len()
        invariant
            i <= fs@.len(),
            fv == fs.deep_view(),
            fv.len() == fs@.len(),
            r.deep_view() == fv.take(i as int).filter(author_pred(author@)).map_values(key_of()),
        decreases fs@.len() - i,
    {
        proof {
            assert(fv[i as int] == fs@[i as int].deep_view());
            assert(fv[i as int].0 == fs@[i as int].0@);
            assert(fv[i as int].1 == fs@[i as int].1.deep_view());
        }
        let ghost old_r = r.deep_view();
        let hit = contains_string(&fs[i].1, author);
        if hit {
            r.push(fs[i].0.clone());
        }
        proof {
            let pred = author_pred(author@);
            assert(hit == pred(fv[i as int]));
            assert(fv.take(i + 1) =~= fv.take(i as int).push(fv[i as int]));
            fv.take(i as int).lemma_filter_push(fv[i as int], pred);
            if hit {
                assert(r.deep_view() =~= old_r.push(fv[i as int].0));
                assert(fv.take(i as int).filter(pred).push(fv[i as int]).map_values(key_of())
                    =~= fv.take(i as int).filter(pred).map_values(key_of()).push(
                    fv[i as int].0,
                ));
            }
            assert(r.deep_view() == fv.take(i + 1).filter(pred).map_values(key_of()));
        }
        i += 1;
    }
    proof {
        assert(fv.take(fv.len() as int) =~= fv);
    }
    r
}

/// The matched name of a successful resolution, cloned for further use.
fn success_name(d: &MatchDisposition) -> (o: Option<String>)
    ensures
        match o {
            Some(s) => success_of(d@) == Some(s@),
            None => success_of(d@) is None,
        },
{
    match d {
        MatchDisposition::Exact(s) => Some(s.clone()),
        MatchDisposition::UniqueFuzzy(s) => Some(s.clone()),
        MatchDisposition::Ambiguous(_) => None,
        MatchDisposition::NoMatch => None,
    }
}

/// Apply the resolver to the query shape at hand and decide the follow-up
/// action, exactly as `dispatch_spec` lays it down: an app query is resolved
/// against the catalog's apps and, on success, an author query against that
/// app's own authors; an author query alone is resolved against the global
/// author list and reports the apps that the author provides.
pub fn handle_app_author(app: Option<String>, author: Option<String>, data: &Data) -> (r:
    DispatchResult)
    requires
        data.wf(),
    ensures
        ({
            let s = dispatch_spec(
                opt_str_view(app),
                opt_str_view(author),
                data.apps.deep_view(),
                data.authors.deep_view(),
                data.folder_structure.deep_view(),
            );
            &&& opt_disposition_view(r.app_resolution) == s.0
            &&& opt_disposition_view(r.author_resolution) == s.1
            &&& r.outcome@ == s.2
        }),
{
    match app {
        Some(a) => {
            let d = resolve(a.as_str(), &data.apps);
            match success_name(&d) {
                Some(m) => {
                    let auths = authors_of(&data.folder_structure, &m);
                    match author {
                        Some(u) => {
                            let d2 = resolve(u.as_str(), &auths);
                            match success_name(&d2) {
                                Some(m2) => DispatchResult {
                                    app_resolution: Some(d),
                                    author_resolution: Some(d2),
                                    outcome: DispatchOutcome::CopyRequest { app: m, author: m2 },
                                },
                                None => DispatchResult {
                                    app_resolution: Some(d),
                                    author_resolution: Some(d2),
                                    outcome: DispatchOutcome::NoAction,
                                },
                            }
                        },
                        None => DispatchResult {
                            app_resolution: Some(d),
                            author_resolution: None,
                            outcome: DispatchOutcome::AuthorListing { app: m, authors: auths },
                        },
                    }
                },
                None => DispatchResult {
                    app_resolution: Some(d),
                    author_resolution: None,
                    outcome: DispatchOutcome::NoAction,
                },
            }
        },
        None => match author {
            Some(u) => {
                let d = resolve(u.as_str(), &data.authors);
                match success_name(&d) {
                    Some(m) => {
                        let apps = apps_of_author(&data.folder_structure, &m);
                        DispatchResult {
                            app_resolution: None,
                            author_resolution: Some(d),
                            outcome: DispatchOutcome::AppListing { author: m, apps },
                        }
                    },
                    None => DispatchResult {
                        app_resolution: None,
                        author_resolution: Some(d),
                        outcome: DispatchOutcome::NoAction,
                    },
                }
            },
            None => DispatchResult {
                app_resolution: None,
                author_resolution: None,
                outcome: DispatchOutcome::NoAction,
            },
        },
    }
}

} // verus!
