use vstd::prelude::*;
use crate::tree::{is_cache, is_cache_dir, Dir, MAX_DEPTH};

verus! {

/// A route, the child indices leading from the scan root to a directory.
pub open spec fn route_view(p: Vec<usize>) -> Seq<int> {
    p@.map_values(|x: usize| x as int)
}

/// The routes held by a list of routes.
pub open spec fn routes_of(paths: Seq<Vec<usize>>) -> Seq<Seq<int>> {
    paths.map_values(|p: Vec<usize>| route_view(p))
}

/// Some subdirectory of `d` is itself a cache.
pub open spec fn has_cache_child(d: Dir) -> bool {
    exists|i: int| 0 <= i < d.subdirs@.len() && #[trigger] is_cache_dir(d.subdirs@[i])
}

/// What the walker reports for directory `d`, found at route `at` from the
/// scan root, when it is entered with `depth` levels already used.
///
/// Once the depth bound is used up, or when `d` cannot be listed, nothing.
/// Otherwise the reports from each subdirectory that is not a cache, in
/// order, followed by `at` itself if some subdirectory is a cache.
pub open spec fn walk_spec(d: Dir, at: Seq<int>, depth: nat) -> Seq<Seq<int>>
    decreases d,
{
    if depth >= MAX_DEPTH || !d.readable {
        seq![]
    } else {
        walk_seq(d.subdirs@, at, depth + 1) + if has_cache_child(d) {
            seq![at]
        } else {
            seq![]
        }
    }
}

/// The reports from the subdirectories `s` of the directory at `at`, each
/// entered at `depth`; a cache contributes nothing, being never entered.
pub open spec fn walk_seq(s: Seq<Dir>, at: Seq<int>, depth: nat) -> Seq<Seq<int>>
    decreases s,
{
    if s.len() == 0 {
        seq![]
    } else {
        let i = s.len() - 1;
        walk_seq(s.drop_last(), at, depth) + if is_cache_dir(s[i]) {
            seq![]
        } else {
            walk_spec(s[i], at.push(i), depth)
        }
    }
}

/// Walks the tree below `d`, the directory at route `at` from the scan root,
/// and appends to `paths` the route of every directory that directly holds a
/// cache. Caches are not entered, directories that cannot be listed are
/// skipped, and no directory is listed once `depth` reaches `MAX_DEPTH`.
/// A directory is appended after everything found below it.
pub fn walk_dirs(d: &Dir, at: &Vec<usize>, paths: &mut Vec<Vec<usize>>, depth: usize)
    ensures
        routes_of(final(paths)@) == routes_of(old(paths)@) + walk_spec(*d, route_view(*at), depth as nat),
    decreases d,
{
    if depth >= MAX_DEPTH || !d.readable {
        assert(routes_of(paths@) =~= routes_of(old(paths)@) + walk_spec(*d, route_view(*at), depth as nat));
        return;
    }
    let next_depth = depth + 1;
    let mut contains_cache = false;
    let mut i: usize = 0;
    while i < d.subdirs.len()
        invariant
            i <= d.subdirs@.len(),
            next_depth == depth + 1,
            depth < MAX_DEPTH,
            d.readable,
            routes_of(paths@) == routes_of(old(paths)@) + walk_seq(
                d.subdirs@.take(i as int),
                route_view(*at),
                next_depth as nat,
            ),
            contains_cache == exists|k: int| 0 <= k < i && #[trigger] is_cache_dir(d.subdirs@[k]),
        decreases d.subdirs@.len() - i,
    {
        let sub = &d.subdirs[i];
        let c = is_cache(sub);
        assert(d.subdirs@.take(i + 1).drop_last() =~= d.subdirs@.take(i as int));
        assert(d.subdirs@.take(i + 1)[i as int] == *sub);
        if !c {
            let mut next = at.clone();
            assert(next@ =~= at@);
            next.push(i);
            assert(route_view(next) =~= route_view(*at).push(i as int));
            assert(decreases_to!(d => d.subdirs@[i as int]));
            walk_dirs(sub, &next, paths, next_depth);
        }
        assert(routes_of(paths@) =~= routes_of(old(paths)@) + walk_seq(
            d.subdirs@.take(i + 1),
            route_view(*at),
            next_depth as nat,
        ));
        contains_cache = contains_cache || c;
        i = i + 1;
    }
    assert(d.subdirs@.take(i as int) =~= d.subdirs@);
    assert(contains_cache == has_cache_child(*d));
    let ghost walked = routes_of(paths@);
    assert(walked == routes_of(old(paths)@) + walk_seq(d.subdirs@, route_view(*at), next_depth as nat));
    if contains_cache {
        let here = at.clone();
        assert(here@ =~= at@);
        paths.push(here);
        assert(routes_of(paths@) =~= walked.push(route_view(*at)));
    } else {
        assert(routes_of(paths@) =~= walked);
    }
    assert(routes_of(paths@) =~= routes_of(old(paths)@) + walk_spec(*d, route_view(*at), depth as nat));
}

/// A directory whose subdirectories are to be checked for caches.
#[derive(Clone, Debug, PartialEq, Eq)]
pub enum Candidate {
    /// The path named explicitly on the command line.
    ManifestPath,
    /// The directory at this route from the scan root.
    InTree(Vec<usize>),
}

/// A candidate as a plain value: `None` for the explicit path, else the route.
pub open spec fn candidate_view(c: Candidate) -> Option<Seq<int>> {
    match c {
        Candidate::ManifestPath => None,
        Candidate::InTree(r) => Some(route_view(r)),
    }
}

/// The candidates, in the order they are handled: the explicit path first if
/// there is one; then, when walking recursively, every directory the walker
/// reports, else the scan root alone.
pub open spec fn candidates_spec(has_manifest: bool, recursive: bool, root: Dir) -> Seq<Option<Seq<int>>> {
    (if has_manifest {
        seq![None]
    } else {
        seq![]
    }) + if recursive {
        walk_spec(root, seq![], 0).map_values(|r: Seq<int>| Some(r))
    } else {
        seq![Some(seq![])]
    }
}

/// Lists the directories whose subdirectories are to be checked for caches.
/// `root` is the scan root; it is walked only when `recursive` holds, and is
/// otherwise a candidate itself, without being tested.
pub fn collect_candidates(has_manifest: bool, recursive: bool, root: &Dir) -> (r: Vec<Candidate>)
    ensures
        r@.map_values(|c: Candidate| candidate_view(c)) == candidates_spec(has_manifest, recursive, *root),
{
    let mut out: Vec<Candidate> = Vec::new();
    if has_manifest {
        out.push(Candidate::ManifestPath);
    }
    let ghost head = out@.map_values(|c: Candidate| candidate_view(c));
    assert(head =~= if has_manifest { seq![None] } else { seq![] });
    if recursive {
        let mut found: Vec<Vec<usize>> = Vec::new();
        let start: Vec<usize> = Vec::new();
        assert(route_view(start) =~= seq![]);
        walk_dirs(root, &start, &mut found, 0);
        assert(routes_of(found@) =~= walk_spec(*root, seq![], 0));
        let mut i: usize = 0;
        while i < found.len()
            invariant
                i <= found@.len(),
                out@.map_values(|c: Candidate| candidate_view(c)) =~= head + routes_of(found@).take(
                    i as int,
                ).map_values(|r: Seq<int>| Some(r)),
            decreases found@.len() - i,
        {
            let ghost prev = out@.map_values(|c: Candidate| candidate_view(c));
            let route = found[i].clone();
            assert(route@ =~= found@[i as int]@);
            assert(route_view(route) =~= route_view(found@[i as int]));
            let c = Candidate::InTree(route);
            assert(candidate_view(c) == Some(route_view(found@[i as int])));
            out.push(c);
            assert(out@.map_values(|c: Candidate| candidate_view(c)) =~= prev.push(Some(route_view(found@[i as int]))));
            assert(routes_of(found@).take(i + 1) =~= routes_of(found@).take(i as int).push(route_view(found@[i as int])));
            assert(routes_of(found@).take(i + 1).map_values(|r: Seq<int>| Some(r)) =~= routes_of(found@).take(i as int).map_values(|r: Seq<int>| Some(r)).push(Some(route_view(found@[i as int]))));
            i = i + 1;
        }
        assert(routes_of(found@).take(i as int) =~= routes_of(found@));
    } else {
        let here: Vec<usize> = Vec::new();
        assert(route_view(here) =~= seq![]);
        out.push(Candidate::InTree(here));
    }
    assert(out@.map_values(|c: Candidate| candidate_view(c)) =~= candidates_spec(has_manifest, recursive, *root));
    out
}

/// The indices, in order, of the entries of `s` that are caches.
pub open spec fn cache_indices(s: Seq<Dir>) -> Seq<int>
    decreases s.len(),
{
    if s.len() == 0 {
        seq![]
    } else {
        let i = s.len() - 1;
        cache_indices(s.drop_last()) + if is_cache_dir(s[i]) {
            seq![i]
        } else {
            seq![]
        }
    }
}

/// The subdirectories of a candidate that are caches; none when the
/// candidate could not be listed.
pub open spec fn cache_children_spec(d: Dir) -> Seq<int> {
    if d.readable {
        cache_indices(d.subdirs@)
    } else {
        seq![]
    }
}

/// Picks out, in listing order, the subdirectories of `d` that are caches:
/// these are the directories shown, and removed when removal is asked for.
/// The candidate itself is not tested.
pub fn cache_children(d: &Dir) -> (r: Vec<usize>)
    ensures
        r@.map_values(|x: usize| x as int) == cache_children_spec(*d),
{
    let mut out: Vec<usize> = Vec::new();
    if !d.readable {
        assert(out@.map_values(|x: usize| x as int) =~= seq![]);
        return out;
    }
    let mut i: usize = 0;
    assert(out@.map_values(|x: usize| x as int) =~= seq![]);
    while i < d.subdirs.len()
        invariant
            i <= d.subdirs@.len(),
            d.readable,
            out@.map_values(|x: usize| x as int) == cache_indices(d.subdirs@.take(i as int)),
        decreases d.subdirs@.len() - i,
    {
        assert(d.subdirs@.take(i + 1).drop_last() =~= d.subdirs@.take(i as int));
        assert(d.subdirs@.take(i + 1)[i as int] == d.subdirs@[i as int]);
        if is_cache(&d.subdirs[i]) {
            out.push(i);
        }
        assert(out@.map_values(|x: usize| x as int) =~= cache_indices(d.subdirs@.take(i + 1)));
        i = i + 1;
    }
    assert(d.subdirs@.take(i as int) =~= d.subdirs@);
    out
}

} // verus!
