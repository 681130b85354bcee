//! Properties of the cache predicate and of the walker, over all trees.
use vstd::prelude::*;
use crate::tree::{is_cache_dir, Dir, CACHE_DIR_NAME, CACHE_MARKER, MAX_DEPTH};
use crate::walk::{cache_children_spec, cache_indices, has_cache_child, walk_seq, walk_spec};

verus! {

/// The directory reached from `d` by following the child indices of `r`.
pub open spec fn node_at(d: Dir, r: Seq<int>) -> Option<Dir>
    decreases r.len(),
{
    if r.len() == 0 {
        Some(d)
    } else if r[0] < d.subdirs@.len() {
        node_at(d.subdirs@[r[0] as int], r.drop_first())
    } else {
        None
    }
}

/// The walker, started at `root` as the scan root, reports route `r`.
pub open spec fn reported(root: Dir, r: Seq<int>) -> bool {
    walk_spec(root, seq![], 0).contains(r)
}

/// Some directory strictly below `d` is a cache.
pub open spec fn cache_below(d: Dir) -> bool
    decreases d,
{
    exists|i: int|
        0 <= i < d.subdirs@.len() && (#[trigger] is_cache_dir(d.subdirs@[i]) || cache_below(
            d.subdirs@[i],
        ))
}

/// Route `r` from `d`, entered at `depth`, goes only through listable
/// directories that are not caches, stays within the depth bound, and ends at
/// a directory that directly holds a cache.
pub open spec fn clean_route(d: Dir, depth: nat, r: Seq<int>) -> bool
    decreases r.len(),
{
    &&& depth < MAX_DEPTH
    &&& d.readable
    &&& if r.len() == 0 {
        has_cache_child(d)
    } else {
        &&& r[0] < d.subdirs@.len()
        &&& !is_cache_dir(d.subdirs@[r[0] as int])
        &&& clean_route(d.subdirs@[r[0] as int], depth + 1, r.drop_first())
    }
}

proof fn lemma_walk_routes(d: Dir, at: Seq<int>, depth: nat)
    ensures
        forall|j: int|
            0 <= j < walk_spec(d, at, depth).len() ==> {
                let x = #[trigger] walk_spec(d, at, depth)[j];
                &&& at.len() <= x.len()
                &&& x.take(at.len() as int) == at
                &&& clean_route(d, depth, x.skip(at.len() as int))
            },
    decreases d, d.subdirs@.len() + 1,
{
    if depth < MAX_DEPTH && d.readable {
        let n = d.subdirs@.len();
        lemma_walk_seq_routes(d, n, at, depth);
        assert(d.subdirs@.take(n as int) =~= d.subdirs@);
        let left = walk_seq(d.subdirs@, at, depth + 1);
        assert forall|j: int| 0 <= j < walk_spec(d, at, depth).len() implies {
            let x = #[trigger] walk_spec(d, at, depth)[j];
            &&& at.len() <= x.len()
            &&& x.take(at.len() as int) == at
            &&& clean_route(d, depth, x.skip(at.len() as int))
        } by {
            if j >= left.len() {
                let x = walk_spec(d, at, depth)[j];
                assert(x == at);
                assert(x.take(at.len() as int) =~= at);
                assert(x.skip(at.len() as int) =~= seq![]);
            } else {
                assert(walk_spec(d, at, depth)[j] == left[j]);
            }
        }
    }
}

proof fn lemma_walk_seq_routes(d: Dir, n: nat, at: Seq<int>, depth: nat)
    requires
        n <= d.subdirs@.len(),
        d.readable,
        depth < MAX_DEPTH,
    ensures
        forall|j: int|
            0 <= j < walk_seq(d.subdirs@.take(n as int), at, depth + 1).len() ==> {
                let x = #[trigger] walk_seq(d.subdirs@.take(n as int), at, depth + 1)[j];
                &&& at.len() < x.len()
                &&& x.take(at.len() as int) == at
                &&& clean_route(d, depth, x.skip(at.len() as int))
            },
    decreases d, n,
{
    if n > 0 {
        let s = d.subdirs@.take(n as int);
        let i = n - 1;
        assert(s.drop_last() =~= d.subdirs@.take(i as int));
        lemma_walk_seq_routes(d, i as nat, at, depth);
        let left = walk_seq(d.subdirs@.take(i as int), at, depth + 1);
        let c = d.subdirs@[i as int];
        assert(s[i as int] == c);
        let sub_at = at.push(i as int);
        if !is_cache_dir(c) {
            lemma_walk_routes(c, sub_at, depth + 1);
        }
        assert forall|j: int| 0 <= j < walk_seq(s, at, depth + 1).len() implies {
            let x = #[trigger] walk_seq(s, at, depth + 1)[j];
            &&& at.len() < x.len()
            &&& x.take(at.len() as int) == at
            &&& clean_route(d, depth, x.skip(at.len() as int))
        } by {
            if j < left.len() {
                assert(walk_seq(s, at, depth + 1)[j] == left[j]);
            } else {
                let w = walk_spec(c, sub_at, depth + 1);
                let x = walk_seq(s, at, depth + 1)[j];
                assert(!is_cache_dir(c));
                assert(x == w[j - left.len()]);
                assert(x.take(sub_at.len() as int) == sub_at);
                assert(x.take(at.len() as int) =~= sub_at.take(at.len() as int));
                assert(sub_at.take(at.len() as int) =~= at);
                assert(x[at.len() as int] == sub_at[at.len() as int]);
                let rest = x.skip(at.len() as int);
                assert(rest.drop_first() =~= x.skip(sub_at.len() as int));
                assert(rest[0] == i as int);
            }
        }
    }
}

proof fn lemma_clean_route_facts(d: Dir, depth: nat, r: Seq<int>)
    requires
        clean_route(d, depth, r),
    ensures
        depth + r.len() < MAX_DEPTH,
        node_at(d, r) is Some,
        has_cache_child(node_at(d, r)->0),
        forall|k: int|
            1 <= k <= r.len() ==> #[trigger] node_at(d, r.take(k)) is Some && !is_cache_dir(
                node_at(d, r.take(k))->0,
            ),
    decreases r.len(),
{
    if r.len() > 0 {
        let sub = d.subdirs@[r[0] as int];
        let tail = r.drop_first();
        lemma_clean_route_facts(sub, depth + 1, tail);
        assert forall|k: int| 1 <= k <= r.len() implies #[trigger] node_at(d, r.take(k)) is Some
            && !is_cache_dir(node_at(d, r.take(k))->0) by {
            assert(r.take(k)[0] == r[0]);
            assert(r.take(k).drop_first() =~= tail.take(k - 1));
            assert(node_at(d, r.take(k)) == node_at(sub, tail.take(k - 1)));
            if k == 1 {
                assert(tail.take(0) =~= seq![]);
                assert(node_at(sub, tail.take(0)) == Some(sub));
            } else {
                assert(node_at(sub, tail.take(k - 1)) is Some);
            }
        }
    }
}

/// Every route the walker reports from a scan root leads to a directory of
/// the tree that directly holds a cache, passes through no cache on the way
/// (the reported directory included), and has fewer than `MAX_DEPTH` steps.
pub proof fn lemma_reported_routes(root: Dir, r: Seq<int>)
    requires
        reported(root, r),
    ensures
        r.len() < MAX_DEPTH,
        node_at(root, r) is Some,
        has_cache_child(node_at(root, r)->0),
        forall|k: int|
            1 <= k <= r.len() ==> #[trigger] node_at(root, r.take(k)) is Some && !is_cache_dir(
                node_at(root, r.take(k))->0,
            ),
{
    lemma_walk_routes(root, seq![], 0);
    let j = choose|j: int| 0 <= j < walk_spec(root, seq![], 0).len() && walk_spec(root, seq![], 0)[j] == r;
    assert(walk_spec(root, seq![], 0)[j] == r);
    assert(r.skip(0) =~= r);
    lemma_clean_route_facts(root, 0, r);
}

/// Renaming a cache directory to anything but `target` makes it no cache.
pub proof fn lemma_renamed_dir_is_not_cache(d: Dir, renamed: Dir)
    requires
        is_cache_dir(d),
        renamed.readable == d.readable,
        renamed.files@ == d.files@,
        renamed.subdirs@ == d.subdirs@,
        renamed.name@ != CACHE_DIR_NAME@,
    ensures
        !is_cache_dir(renamed),
{
}

/// Renaming the marker file of a cache directory to another name makes it no
/// cache: every file that had the marker's name now has `new_name`.
pub proof fn lemma_renamed_marker_is_not_cache(d: Dir, renamed: Dir, new_name: Seq<char>)
    requires
        is_cache_dir(d),
        renamed.name@ == d.name@,
        renamed.readable == d.readable,
        renamed.subdirs@ == d.subdirs@,
        new_name != CACHE_MARKER@,
        renamed.files@.len() == d.files@.len(),
        forall|j: int|
            0 <= j < d.files@.len() ==> #[trigger] renamed.files@[j]@ == if d.files@[j]@
                == CACHE_MARKER@ {
                new_name
            } else {
                d.files@[j]@
            },
    ensures
        !is_cache_dir(renamed),
{
    assert forall|j: int| 0 <= j < renamed.files@.len() implies #[trigger] renamed.files@[j]@
        != CACHE_MARKER@ by {
        if d.files@[j]@ == CACHE_MARKER@ {
            assert(renamed.files@[j]@ == new_name);
        }
    }
}

/// No reported directory lies inside, or is, a cache directory that is a
/// subdirectory of another reported directory: a cache found under one
/// report is never entered, so nothing within it is reported again.
pub proof fn lemma_nothing_reported_inside_cache(root: Dir, r1: Seq<int>, c: int, r2: Seq<int>)
    requires
        reported(root, r1),
        reported(root, r2),
        node_at(root, r1.push(c)) is Some,
        is_cache_dir(node_at(root, r1.push(c))->0),
    ensures
        !(r1.len() + 1 <= r2.len() && r2.take(r1.len() + 1 as int) == r1.push(c)),
{
    lemma_reported_routes(root, r2);
    if r1.len() + 1 <= r2.len() && r2.take(r1.len() + 1 as int) == r1.push(c) {
        let k = r1.len() + 1 as int;
        assert(node_at(root, r2.take(k)) is Some && !is_cache_dir(node_at(root, r2.take(k))->0));
    }
}

/// A directory with no cache anywhere below it is never reported.
pub proof fn lemma_no_cache_below_not_reported(root: Dir, r: Seq<int>)
    requires
        node_at(root, r) is Some,
        !cache_below(node_at(root, r)->0),
    ensures
        !reported(root, r),
{
    if reported(root, r) {
        lemma_reported_routes(root, r);
        let d = node_at(root, r)->0;
        let i = choose|i: int| 0 <= i < d.subdirs@.len() && #[trigger] is_cache_dir(d.subdirs@[i]);
        assert(is_cache_dir(d.subdirs@[i]));
        assert(cache_below(d));
    }
}

proof fn lemma_walk_seq_keeps_child(d: Dir, n: nat, at: Seq<int>, depth: nat, j: int)
    requires
        0 <= j < n <= d.subdirs@.len(),
        !is_cache_dir(d.subdirs@[j]),
    ensures
        forall|y: Seq<int>|
            #[trigger] walk_spec(d.subdirs@[j], at.push(j), depth).contains(y) ==> walk_seq(
                d.subdirs@.take(n as int),
                at,
                depth,
            ).contains(y),
    decreases n,
{
    let s = d.subdirs@.take(n as int);
    let i = n - 1;
    assert(s.drop_last() =~= d.subdirs@.take(i as int));
    assert(s[i as int] == d.subdirs@[i as int]);
    let left = walk_seq(d.subdirs@.take(i as int), at, depth);
    if j == i {
        let w = walk_spec(d.subdirs@[j], at.push(j), depth);
        assert(walk_seq(s, at, depth) == left + w);
        assert forall|y: Seq<int>| #[trigger] w.contains(y) implies walk_seq(s, at, depth).contains(
            y,
        ) by {
            let k = choose|k: int| 0 <= k < w.len() && w[k] == y;
            assert((left + w)[left.len() + k] == y);
        }
    } else {
        lemma_walk_seq_keeps_child(d, i as nat, at, depth, j);
        let rest = walk_seq(s, at, depth);
        assert(rest.subrange(0, left.len() as int) =~= left);
        assert forall|y: Seq<int>| #[trigger] left.contains(y) implies rest.contains(y) by {
            let k = choose|k: int| 0 <= k < left.len() && left[k] == y;
            assert(rest[k] == y);
        }
    }
}

/// A subdirectory that cannot be listed contributes no report, and does not
/// stop the walk: whatever is reported below any sibling that is not a cache
/// is still reported for the directory holding both.
pub proof fn lemma_unreadable_subdir_is_skipped(d: Dir, at: Seq<int>, depth: nat, i: int, j: int)
    requires
        d.readable,
        depth < MAX_DEPTH,
        0 <= i < d.subdirs@.len(),
        0 <= j < d.subdirs@.len(),
        !d.subdirs@[i].readable,
        !is_cache_dir(d.subdirs@[j]),
    ensures
        walk_spec(d.subdirs@[i], at.push(i), depth + 1) == Seq::<Seq<int>>::empty(),
        forall|y: Seq<int>|
            #[trigger] walk_spec(d.subdirs@[j], at.push(j), depth + 1).contains(y) ==> walk_spec(
                d,
                at,
                depth,
            ).contains(y),
{
    let n = d.subdirs@.len();
    lemma_walk_seq_keeps_child(d, n, at, depth + 1, j);
    assert(d.subdirs@.take(n as int) =~= d.subdirs@);
    let left = walk_seq(d.subdirs@, at, depth + 1);
    let all = walk_spec(d, at, depth);
    assert(all.subrange(0, left.len() as int) =~= left);
    assert forall|y: Seq<int>| #[trigger] left.contains(y) implies all.contains(y) by {
        let k = choose|k: int| 0 <= k < left.len() && left[k] == y;
        assert(all[k] == y);
    }
    assert(walk_spec(d.subdirs@[i], at.push(i), depth + 1) =~= Seq::<Seq<int>>::empty());
}

proof fn lemma_cache_indices_nonempty(s: Seq<Dir>, i: int)
    requires
        0 <= i < s.len(),
        is_cache_dir(s[i]),
    ensures
        cache_indices(s).len() > 0,
    decreases s.len(),
{
    let last = s.len() - 1;
    if i < last {
        assert(s.drop_last()[i] == s[i]);
        lemma_cache_indices_nonempty(s.drop_last(), i);
    }
}

/// Every directory the walker reports, checked again on the same tree, shows
/// at least one cache.
pub proof fn lemma_reported_dir_shows_a_cache(root: Dir, r: Seq<int>)
    requires
        reported(root, r),
    ensures
        node_at(root, r) is Some,
        cache_children_spec(node_at(root, r)->0).len() > 0,
{
    lemma_reported_routes(root, r);
    lemma_walk_routes(root, seq![], 0);
    let j = choose|j: int| 0 <= j < walk_spec(root, seq![], 0).len() && walk_spec(root, seq![], 0)[j] == r;
    assert(walk_spec(root, seq![], 0)[j] == r);
    assert(r.skip(0) =~= r);
    lemma_clean_route_readable(root, 0, r);
    let d = node_at(root, r)->0;
    let i = choose|i: int| 0 <= i < d.subdirs@.len() && #[trigger] is_cache_dir(d.subdirs@[i]);
    lemma_cache_indices_nonempty(d.subdirs@, i);
}

proof fn lemma_clean_route_readable(d: Dir, depth: nat, r: Seq<int>)
    requires
        clean_route(d, depth, r),
    ensures
        node_at(d, r) is Some,
        (node_at(d, r)->0).readable,
    decreases r.len(),
{
    if r.len() > 0 {
        lemma_clean_route_readable(d.subdirs@[r[0]], depth + 1, r.drop_first());
    }
}

} // verus!
