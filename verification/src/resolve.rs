//! Path resolution: what a request path names among the served roots.

use vstd::prelude::*;
use crate::state::{AppState, Root, RootSet};
use crate::text::{
    contains_text, ends_with_slash, file_name, is_name, join_onto, joined_onto,
    lemma_segments_are_names, lemma_segments_of_lone_name, name_of, segments, slashes_at_ends,
    split_segments, texts,
};

verus! {

/// What a look at a path on disk found there.
#[derive(Debug, Clone, Copy, PartialEq, Eq, Structural)]
pub enum PathKind {
    /// A directory.
    Directory,
    /// A regular file.
    File,
    /// Nothing, or something that is neither.
    Neither,
}

/// What a request path names.
#[derive(Debug, PartialEq, Eq)]
pub enum FiguredOutRequestPath {
    /// The synthetic directory that holds the roots.
    VirtualDirectory,
    /// The directory at this path.
    Directory(String),
    /// The file at this path.
    File(String),
    /// Nothing that is served.
    NotFound,
}

/// What a request path names, with paths as character sequences.
pub enum ResolvedTarget {
    VirtualRoot,
    Directory(Seq<char>),
    File(Seq<char>),
    NotFound,
}

impl View for FiguredOutRequestPath {
    type V = ResolvedTarget;

    open spec fn view(&self) -> ResolvedTarget {
        match self {
            FiguredOutRequestPath::VirtualDirectory => ResolvedTarget::VirtualRoot,
            FiguredOutRequestPath::Directory(path) => ResolvedTarget::Directory(path@),
            FiguredOutRequestPath::File(path) => ResolvedTarget::File(path@),
            FiguredOutRequestPath::NotFound => ResolvedTarget::NotFound,
        }
    }
}

/// The segment that names the parent directory.
pub open spec fn parent_segment() -> Seq<char> {
    seq!['.', '.']
}

/// Whether the request path climbs to a parent directory.
pub open spec fn has_parent_segment(request: Seq<char>) -> bool {
    segments(request).contains(parent_segment())
}

/// Single-root mode: exactly one root, and it is a directory. Every other
/// configuration is served in virtual mode.
pub open spec fn is_single_root(roots: Seq<Root>) -> bool {
    roots.len() == 1 && roots[0].is_directory
}

/// The position of the first root whose name is `name`.
pub open spec fn matching_root(roots: Seq<Root>, name: Seq<char>) -> Option<int>
    decreases roots.len(),
{
    if roots.len() == 0 {
        None
    } else {
        match matching_root(roots.drop_last(), name) {
            Some(i) => Some(i),
            None => if name_of(roots.last().path@) == Some(name) {
                Some(roots.len() - 1)
            } else {
                None
            },
        }
    }
}

/// The path on disk that the request stands or falls with, if there is one.
pub open spec fn candidate(roots: Seq<Root>, request: Seq<char>) -> Option<Seq<char>> {
    let parts = segments(request);
    if has_parent_segment(request) {
        None
    } else if is_single_root(roots) {
        Some(joined_onto(roots[0].path@, parts))
    } else if parts.len() == 0 {
        None
    } else {
        match matching_root(roots, parts[0]) {
            Some(i) => Some(joined_onto(roots[i].path@, parts.skip(1))),
            None => None,
        }
    }
}

/// What the request names, given what was found at its candidate path.
pub open spec fn resolved(roots: Seq<Root>, request: Seq<char>, found: PathKind) -> ResolvedTarget {
    if has_parent_segment(request) {
        ResolvedTarget::NotFound
    } else if !is_single_root(roots) && segments(request).len() == 0 {
        ResolvedTarget::VirtualRoot
    } else {
        match candidate(roots, request) {
            None => ResolvedTarget::NotFound,
            Some(path) => if ends_with_slash(request) && found == PathKind::Directory {
                ResolvedTarget::Directory(path)
            } else if !ends_with_slash(request) && found == PathKind::File {
                ResolvedTarget::File(path)
            } else {
                ResolvedTarget::NotFound
            },
        }
    }
}

impl RootSet {
    /// Whether the set is served in single-root mode.
    pub fn is_single_root(&self) -> (single: bool)
        ensures
            single == is_single_root(self@),
    {
        self.len() == 1 && self.get(0).is_directory
    }

    /// The position of the first root named `name`.
    pub fn find_named(&self, name: &String) -> (position: Option<usize>)
        ensures
            position is Some <==> matching_root(self@, name@) is Some,
            position matches Some(i) ==> matching_root(self@, name@) == Some(i as int) && i
                < self@.len(),
    {
        let mut position: Option<usize> = None;
        let mut i: usize = 0;
        while i < self.len()
            invariant
                i <= self@.len(),
                position is Some <==> matching_root(self@.take(i as int), name@) is Some,
                position matches Some(p) ==> matching_root(self@.take(i as int), name@) == Some(
                    p as int,
                ) && p < i,
            decreases self@.len() - i,
        {
            proof {
                assert(self@.take(i + 1).drop_last() == self@.take(i as int));
                assert(self@.take(i + 1).last() == self@[i as int]);
            }
            if position.is_none() {
                match file_name(self.get(i).path.as_str()) {
                    Some(own) => {
                        if own == *name {
                            position = Some(i);
                        }
                    },
                    None => {},
                }
            }
            i += 1;
        }
        assert(self@.take(self@.len() as int) == self@);
        position
    }
}

/// The candidate path of a request whose segments are `parts`.
fn candidate_of_parts(roots: &RootSet, request_path: &str, parts: &Vec<String>) -> (path: Option<
    String,
>)
    requires
        texts(parts@) == segments(request_path@),
    ensures
        path is Some <==> candidate(roots@, request_path@) is Some,
        path matches Some(p) ==> candidate(roots@, request_path@) == Some(p@),
{
    proof {
        reveal_strlit("..");
        assert(".."@ =~= parent_segment());
    }
    if contains_text(parts, "..") {
        return None;
    }
    if roots.is_single_root() {
        assert(texts(parts@).skip(0) == texts(parts@));
        return Some(join_onto(roots.get(0).path.as_str(), parts, 0));
    }
    if parts.len() == 0 {
        return None;
    }
    assert(texts(parts@)[0] == parts@[0]@);
    match roots.find_named(&parts[0]) {
        Some(i) => Some(join_onto(roots.get(i).path.as_str(), parts, 1)),
        None => None,
    }
}

/// The path on disk that decides what `request_path` names: the caller looks
/// at it and hands what it found to `figure_out_request_path`. None if the
/// answer depends on no path.
pub fn candidate_path(state: &AppState, request_path: &str) -> (path: Option<String>)
    ensures
        path is Some <==> candidate(state.paths@, request_path@) is Some,
        path matches Some(p) ==> candidate(state.paths@, request_path@) == Some(p@),
{
    let parts = split_segments(request_path);
    candidate_of_parts(&state.paths, request_path, &parts)
}

/// What `request_path` names, where `found` is what stands on disk at its
/// candidate path (of no account if it has none).
pub fn figure_out_request_path(state: &AppState, request_path: &str, found: PathKind) -> (target:
    FiguredOutRequestPath)
    ensures
        target@ == resolved(state.paths@, request_path@, found),
{
    let parts = split_segments(request_path);
    proof {
        reveal_strlit("..");
        assert(".."@ =~= parent_segment());
    }
    if contains_text(&parts, "..") {
        return FiguredOutRequestPath::NotFound;
    }
    if !state.paths.is_single_root() && parts.len() == 0 {
        return FiguredOutRequestPath::VirtualDirectory;
    }
    let directory_requested = slashes_at_ends(request_path).1;
    match candidate_of_parts(&state.paths, request_path, &parts) {
        None => FiguredOutRequestPath::NotFound,
        Some(path) => {
            if directory_requested && found == PathKind::Directory {
                FiguredOutRequestPath::Directory(path)
            } else if !directory_requested && found == PathKind::File {
                FiguredOutRequestPath::File(path)
            } else {
                FiguredOutRequestPath::NotFound
            }
        },
    }
}


/// Where no root bears the name, none matches.
proof fn lemma_no_root_matches(roots: Seq<Root>, name: Seq<char>)
    requires
        forall|j: int| 0 <= j < roots.len() ==> name_of(#[trigger] roots[j].path@) != Some(name),
    ensures
        matching_root(roots, name) is None,
    decreases roots.len(),
{
    if roots.len() > 0 {
        lemma_no_root_matches(roots.drop_last(), name);
    }
}

/// The matching root is the first root of that name.
pub proof fn lemma_first_named_root_matches(roots: Seq<Root>, name: Seq<char>, i: int)
    requires
        0 <= i < roots.len(),
        name_of(roots[i].path@) == Some(name),
        forall|j: int| 0 <= j < i ==> name_of(#[trigger] roots[j].path@) != Some(name),
    ensures
        matching_root(roots, name) == Some(i),
    decreases roots.len(),
{
    if i == roots.len() - 1 {
        lemma_no_root_matches(roots.drop_last(), name);
    } else {
        lemma_first_named_root_matches(roots.drop_last(), name, i);
    }
}

/// A matching root is one of the roots and bears the name.
pub proof fn lemma_matching_root_is_named(roots: Seq<Root>, name: Seq<char>)
    ensures
        matching_root(roots, name) matches Some(i) ==> 0 <= i < roots.len() && name_of(
            roots[i].path@,
        ) == Some(name),
    decreases roots.len(),
{
    if roots.len() > 0 {
        lemma_matching_root_is_named(roots.drop_last(), name);
    }
}

/// A request path with a `..` segment names nothing, whatever the roots are
/// and whatever is on disk.
pub proof fn lemma_parent_segment_is_not_found(
    roots: Seq<Root>,
    request: Seq<char>,
    found: PathKind,
)
    requires
        has_parent_segment(request),
    ensures
        resolved(roots, request, found) == ResolvedTarget::NotFound,
{
}

/// In single-root mode a request path that ends in `/` and has no `..`
/// segment names the directory at the root joined with its segments if a
/// directory stands there, and nothing otherwise.
pub proof fn lemma_single_root_directory(roots: Seq<Root>, request: Seq<char>, found: PathKind)
    requires
        is_single_root(roots),
        ends_with_slash(request),
        !has_parent_segment(request),
    ensures
        found == PathKind::Directory ==> resolved(roots, request, found)
            == ResolvedTarget::Directory(joined_onto(roots[0].path@, segments(request))),
        found != PathKind::Directory ==> resolved(roots, request, found)
            == ResolvedTarget::NotFound,
{
}

/// In virtual mode the path `/` names the virtual root; and `/name/`, where
/// `name` is not `..`, names the first root called `name` if that root is a
/// directory.
pub proof fn lemma_virtual_mode_roots(roots: Seq<Root>, i: int, found: PathKind)
    requires
        !is_single_root(roots),
        0 <= i < roots.len(),
        name_of(roots[i].path@) is Some,
        name_of(roots[i].path@)->0 != parent_segment(),
        forall|j: int| 0 <= j < i ==> name_of(#[trigger] roots[j].path@) != name_of(roots[i].path@),
    ensures
        resolved(roots, seq!['/'], found) == ResolvedTarget::VirtualRoot,
        resolved(
            roots,
            seq!['/'] + name_of(roots[i].path@)->0 + seq!['/'],
            PathKind::Directory,
        ) == ResolvedTarget::Directory(roots[i].path@),
{
    let name = name_of(roots[i].path@)->0;
    lemma_segments_are_names(roots[i].path@);
    lemma_segments_of_lone_name(name);
    lemma_first_named_root_matches(roots, name, i);
    let request = seq!['/'] + name + seq!['/'];
    assert(segments(request)[0] == name);
    assert(segments(request).skip(1) == Seq::<Seq<char>>::empty());
    assert(!segments(seq!['/']).contains(parent_segment()));
    assert(!has_parent_segment(request)) by {
        if segments(request).contains(parent_segment()) {
            let k = choose|k: int| 0 <= k < segments(request).len() && segments(request)[k] == parent_segment();
            assert(k == 0);
        }
    }
    assert(request.last() == '/');
}

/// No request leaves the roots: a directory or file that a request names
/// lies at a root joined with names, none of which is `..`.
pub proof fn lemma_resolved_lies_under_a_root(
    roots: Seq<Root>,
    request: Seq<char>,
    found: PathKind,
)
    requires
        roots.len() > 0,
    ensures
        match resolved(roots, request, found) {
            ResolvedTarget::Directory(path) | ResolvedTarget::File(path) => exists|
                i: int,
                parts: Seq<Seq<char>>,
            |
                {
                    &&& 0 <= i < roots.len()
                    &&& #[trigger] joined_onto(roots[i].path@, parts) == path
                    &&& forall|k: int|
                        0 <= k < parts.len() ==> is_name(#[trigger] parts[k]) && parts[k]
                            != parent_segment()
                },
            _ => true,
        },
{
    let parts = segments(request);
    lemma_segments_are_names(request);
    match resolved(roots, request, found) {
        ResolvedTarget::Directory(path) | ResolvedTarget::File(path) => {
            assert forall|k: int| 0 <= k < parts.len() implies parts[k] != parent_segment() by {
                if parts[k] == parent_segment() {
                    assert(parts.contains(parent_segment()));
                }
            }
            if is_single_root(roots) {
                assert(joined_onto(roots[0].path@, parts) == path);
            } else {
                lemma_matching_root_is_named(roots, parts[0]);
                let i = matching_root(roots, parts[0])->0;
                let rest = parts.skip(1);
                assert forall|k: int| 0 <= k < rest.len() implies is_name(#[trigger] rest[k])
                    && rest[k] != parent_segment() by {
                    assert(rest[k] == parts[k + 1]);
                }
                assert(joined_onto(roots[i].path@, rest) == path);
            }
        },
        _ => {},
    }
}

} // verus!
