use cargo_yeet::{cache_children, collect_candidates, is_cache, walk_dirs, Candidate, Dir, MAX_DEPTH};

fn dir(name: &str, files: &[&str], subdirs: Vec<Dir>) -> Dir {
    Dir {
        name: name.to_string(),
        readable: true,
        files: files.iter().map(|f| f.to_string()).collect(),
        subdirs,
    }
}

fn unreadable(name: &str) -> Dir {
    Dir { name: name.to_string(), readable: false, files: Vec::new(), subdirs: Vec::new() }
}

fn cache() -> Dir {
    dir("target", &["CACHEDIR.TAG"], vec![dir("debug", &["app", "app.d"], Vec::new())])
}

fn walk(root: &Dir) -> Vec<Vec<usize>> {
    let mut paths = Vec::new();
    walk_dirs(root, &Vec::new(), &mut paths, 0);
    paths
}

/// A chain of plain directories `d1/d2/...`, with a cache as the only
/// entry of the directory at `cache_level - 1`; the root is level 0.
fn chain_with_cache_at(cache_level: usize) -> Dir {
    let mut d = cache();
    for level in (0..cache_level).rev() {
        d = dir(&format!("d{}", level), &[], vec![d]);
    }
    d
}

#[test]
fn target_with_marker_is_cache() {
    assert!(is_cache(&cache()));
    assert!(is_cache(&dir("target", &["a.txt", "CACHEDIR.TAG"], Vec::new())));
}

#[test]
fn renamed_directory_is_not_cache() {
    let mut d = cache();
    d.name = "targets".to_string();
    assert!(!is_cache(&d));
    d.name = "Target".to_string();
    assert!(!is_cache(&d));
}

#[test]
fn renamed_marker_is_not_cache() {
    assert!(!is_cache(&dir("target", &["CACHEDIR.TAG.bak"], Vec::new())));
    assert!(!is_cache(&dir("target", &["cachedir.tag"], Vec::new())));
    assert!(!is_cache(&dir("target", &[], Vec::new())));
}

#[test]
fn marker_must_be_a_file() {
    let d = dir("target", &[], vec![dir("CACHEDIR.TAG", &[], Vec::new())]);
    assert!(!is_cache(&d));
}

#[test]
fn unreadable_target_is_not_cache() {
    assert!(!is_cache(&unreadable("target")));
}

#[test]
fn reports_parent_of_cache_not_cache() {
    let root = dir("p", &[], vec![dir("a", &[], vec![cache()])]);
    assert_eq!(walk(&root), vec![vec![0]]);
}

#[test]
fn recursive_reports_immediate_parents() {
    let root = dir(
        "p",
        &[],
        vec![
            dir("a", &[], vec![cache()]),
            dir("b", &[], vec![dir("c", &[], vec![cache()])]),
        ],
    );
    assert_eq!(walk(&root), vec![vec![0], vec![1, 0]]);
    let c = collect_candidates(false, true, &root);
    assert_eq!(c, vec![Candidate::InTree(vec![0]), Candidate::InTree(vec![1, 0])]);
}

#[test]
fn nested_cache_inside_cache_is_not_reported() {
    let inner_parent = dir("deps", &[], vec![cache()]);
    let outer = dir("target", &["CACHEDIR.TAG"], vec![inner_parent]);
    let root = dir("p", &[], vec![dir("x", &[], vec![outer])]);
    assert_eq!(walk(&root), vec![vec![0]]);
}

#[test]
fn no_cache_below_is_never_reported() {
    let root = dir(
        "p",
        &["Cargo.toml"],
        vec![
            dir("src", &["main.rs"], vec![dir("bin", &["x.rs"], Vec::new())]),
            dir("target", &[], vec![dir("debug", &[], Vec::new())]),
        ],
    );
    assert!(walk(&root).is_empty());
    assert!(walk(&dir("empty", &[], Vec::new())).is_empty());
}

#[test]
fn parent_with_two_caches_reported_once() {
    let root = dir("p", &[], vec![dir("w", &[], vec![cache(), dir("x", &[], Vec::new()), cache()])]);
    assert_eq!(walk(&root), vec![vec![0]]);
    assert_eq!(cache_children(&root.subdirs[0]), vec![0, 2]);
}

#[test]
fn dry_run_twice_is_identical() {
    let root = dir(
        "p",
        &[],
        vec![dir("a", &[], vec![cache()]), dir("b", &[], vec![dir("c", &[], vec![cache()])])],
    );
    let first = collect_candidates(true, true, &root);
    let first_children = cache_children(&root.subdirs[0]);
    let second = collect_candidates(true, true, &root);
    let second_children = cache_children(&root.subdirs[0]);
    assert_eq!(first, second);
    assert_eq!(first_children, second_children);
    assert_eq!(format!("{:?}", root.subdirs[0].subdirs[0]), format!("{:?}", cache()));
    assert_eq!(root.subdirs.len(), 2);
}

#[test]
fn cache_at_depth_twenty_not_reported() {
    let root = chain_with_cache_at(20);
    assert!(walk(&root).is_empty());
}

#[test]
fn cache_at_depth_ten_reported() {
    let root = chain_with_cache_at(10);
    assert_eq!(walk(&root), vec![vec![0; 9]]);
}

#[test]
fn depth_bound_edge() {
    assert_eq!(MAX_DEPTH, 16);
    assert_eq!(walk(&chain_with_cache_at(16)), vec![vec![0; 15]]);
    assert!(walk(&chain_with_cache_at(17)).is_empty());
    assert_eq!(walk(&chain_with_cache_at(1)), vec![Vec::<usize>::new()]);
}

#[test]
fn walk_stops_at_given_depth() {
    let root = dir("p", &[], vec![dir("a", &[], vec![cache()])]);
    let mut paths = Vec::new();
    walk_dirs(&root, &Vec::new(), &mut paths, 15);
    assert!(paths.is_empty());
    walk_dirs(&root, &Vec::new(), &mut paths, 14);
    assert_eq!(paths, vec![vec![0]]);
    walk_dirs(&root, &Vec::new(), &mut paths, 16);
    assert_eq!(paths, vec![vec![0]]);
}

#[test]
fn walk_appends_under_given_route() {
    let root = dir("p", &[], vec![dir("a", &[], vec![cache()]), cache()]);
    let mut paths = vec![vec![9]];
    walk_dirs(&root, &vec![4, 2], &mut paths, 0);
    assert_eq!(paths, vec![vec![9], vec![4, 2, 0], vec![4, 2]]);
}

#[test]
fn non_recursive_root_lists_its_cache() {
    let root = dir("p", &["Cargo.toml"], vec![dir("src", &["lib.rs"], Vec::new()), cache()]);
    let c = collect_candidates(false, false, &root);
    assert_eq!(c, vec![Candidate::InTree(Vec::new())]);
    assert_eq!(cache_children(&root), vec![1]);
}

#[test]
fn root_is_never_tested_itself() {
    let root = dir("target", &["CACHEDIR.TAG"], vec![dir("a", &[], vec![cache()])]);
    assert_eq!(walk(&root), vec![vec![0]]);
    assert!(cache_children(&cache()).is_empty());
}

#[test]
fn manifest_path_comes_first() {
    let root = dir("p", &[], vec![dir("a", &[], vec![cache()])]);
    assert_eq!(
        collect_candidates(true, false, &root),
        vec![Candidate::ManifestPath, Candidate::InTree(Vec::new())]
    );
    assert_eq!(
        collect_candidates(true, true, &root),
        vec![Candidate::ManifestPath, Candidate::InTree(vec![0])]
    );
    assert_eq!(collect_candidates(true, true, &dir("q", &[], Vec::new())), vec![Candidate::ManifestPath]);
}

#[test]
fn unreadable_subdirectory_does_not_abort() {
    let root = dir(
        "p",
        &[],
        vec![unreadable("locked"), dir("b", &[], vec![cache()]), unreadable("gone")],
    );
    assert_eq!(walk(&root), vec![vec![1]]);
}

#[test]
fn unreadable_candidate_has_no_caches() {
    assert!(cache_children(&unreadable("p")).is_empty());
    let mut d = dir("p", &[], vec![cache()]);
    d.readable = false;
    assert!(cache_children(&d).is_empty());
}
