//! Attribution of filesystem events to configured watched roots.
//!
//! A watched root is a normalized absolute directory path without a
//! trailing separator; the set of roots is fixed at configuration
//! time. An event carries one or more affected paths, and resolves to
//! the first root, in configuration order, that contains one of them.

use vstd::prelude::*;

use crate::metrics::MetricMessage;
use crate::text::is_prefix;
use crate::text::str_starts_with;

verus! {

/// An event whose paths match none of the configured roots. Carries
/// the affected paths and the full root list for diagnostics.
#[derive(Debug)]
pub struct ResolutionError {
    pub paths: Vec<String>,
    pub base_paths: Vec<String>,
}

/// What can go wrong on the filesystem-event feed: a runtime error
/// reported by the notification facility, or an event that resolves
/// to no configured root.
#[derive(Debug)]
pub enum WatchError {
    Notify { message: String },
    Resolution(ResolutionError),
}

/// `path` lies within the directory `base`: `base` is a proper
/// component-wise prefix of `path`, or the two are equal.
pub open spec fn path_within(path: Seq<char>, base: Seq<char>) -> bool {
    is_prefix(base, path) && (path.len() == base.len() || path[base.len() as int] == '/')
}

/// Decides [`path_within`].
pub fn path_starts_with(path: &str, base: &str) -> (r: bool)
    ensures
        r == path_within(path@, base@),
{
    if !str_starts_with(path, base) {
        return false;
    }
    let p_len = path.unicode_len();
    let b_len = base.unicode_len();
    if p_len == b_len {
        true
    } else {
        path.get_char(b_len) == '/'
    }
}

/// Some affected path lies within this root.
pub open spec fn root_matches(base: Seq<char>, ps: Seq<Seq<char>>) -> bool {
    exists|j: int| 0 <= j < ps.len() && path_within(#[trigger] ps[j], base)
}

/// `r` is the first root, in configuration order, that one of the
/// affected paths lies within.
pub open spec fn resolves_to(bs: Seq<Seq<char>>, ps: Seq<Seq<char>>, r: Seq<char>) -> bool {
    exists|i: int|
        0 <= i < bs.len() && #[trigger] bs[i] == r && root_matches(bs[i], ps) && (forall|k: int|
            0 <= k < i ==> !root_matches(#[trigger] bs[k], ps))
}

/// Resolves an event's affected paths to the first configured root
/// that contains one of them; fails, carrying both lists, when no
/// root does.
pub fn match_base_path(base_paths: &Vec<String>, paths: &Vec<String>) -> (r: Result<
    String,
    ResolutionError,
>)
    ensures
        match r {
            Ok(root) => resolves_to(base_paths.deep_view(), paths.deep_view(), root@),
            Err(e) => {
                &&& forall|i: int|
                    0 <= i < base_paths.deep_view().len() ==> !root_matches(
                        #[trigger] base_paths.deep_view()[i],
                        paths.deep_view(),
                    )
                &&& e.base_paths.deep_view() == base_paths.deep_view()
                &&& e.paths.deep_view() == paths.deep_view()
            },
        },
{
    let ghost bs = base_paths.deep_view();
    let ghost ps = paths.deep_view();
    let mut i: usize = 0;
    while i < base_paths.len()
        invariant
            i <= bs.len(),
            bs.len() == base_paths@.len(),
            ps.len() == paths@.len(),
            bs == base_paths.deep_view(),
            ps == paths.deep_view(),
            forall|k: int| 0 <= k < i ==> !root_matches(#[trigger] bs[k], ps),
        decreases bs.len() - i,
    {
        let base = &base_paths[i];
        let mut j: usize = 0;
        while j < paths.len()
            invariant
                j <= ps.len(),
                i < bs.len(),
                bs.len() == base_paths@.len(),
                ps.len() == paths@.len(),
                bs == base_paths.deep_view(),
                ps == paths.deep_view(),
                base@ == bs[i as int],
                forall|k: int| 0 <= k < i ==> !root_matches(#[trigger] bs[k], ps),
                forall|t: int| 0 <= t < j ==> !path_within(#[trigger] ps[t], bs[i as int]),
            decreases ps.len() - j,
        {
            let hit = path_starts_with(paths[j].as_str(), base.as_str());
            proof {
                assert(ps[j as int] == paths@[j as int]@);
            }
            if hit {
                proof {
                    assert(path_within(ps[j as int], bs[i as int]));
                    assert(root_matches(bs[i as int], ps));
                    let wi = i as int;
                    assert(0 <= wi < bs.len() && bs[wi] == base@ && root_matches(bs[wi], ps)
                        && (forall|k: int| 0 <= k < wi ==> !root_matches(#[trigger] bs[k], ps)));
                    assert(resolves_to(bs, ps, base@));
                }
                return Ok(base.clone());
            }
            j = j + 1;
        }
        assert(!root_matches(bs[i as int], ps));
        i = i + 1;
    }
    let err = ResolutionError { paths: paths.clone(), base_paths: base_paths.clone() };
    proof {
        assert(err.paths.deep_view() =~= ps);
        assert(err.base_paths.deep_view() =~= bs);
    }
    Err(err)
}

/// Builds the message for one raw notification: a successfully
/// delivered event is resolved against the watched roots, a reported
/// runtime error is passed through as a fatal watch error.
pub fn handle_notify_event(base_paths: &Vec<String>, event: Result<Vec<String>, String>) -> (m:
    MetricMessage)
    ensures
        match event {
            Ok(paths) => match m {
                MetricMessage::NotifyEvent(Ok(root)) => resolves_to(
                    base_paths.deep_view(),
                    paths.deep_view(),
                    root@,
                ),
                MetricMessage::NotifyEvent(Err(WatchError::Resolution(e))) => {
                    &&& forall|i: int|
                        0 <= i < base_paths.deep_view().len() ==> !root_matches(
                            #[trigger] base_paths.deep_view()[i],
                            paths.deep_view(),
                        )
                    &&& e.base_paths.deep_view() == base_paths.deep_view()
                    &&& e.paths.deep_view() == paths.deep_view()
                },
                _ => false,
            },
            Err(message) => m == MetricMessage::NotifyEvent(
                Err(WatchError::Notify { message }),
            ),
        },
{
    match event {
        Ok(paths) => match match_base_path(base_paths, &paths) {
            Ok(root) => MetricMessage::NotifyEvent(Ok(root)),
            Err(e) => MetricMessage::NotifyEvent(Err(WatchError::Resolution(e))),
        },
        Err(message) => MetricMessage::NotifyEvent(Err(WatchError::Notify { message })),
    }
}

} // verus!
