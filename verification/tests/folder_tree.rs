use isomfolio_core::folder_tree::{
    build_tree_sep, expand_paths_for_sep, folder_tree_from, FolderNode, LibraryRoot,
};

fn build(folders: &[(&str, usize)]) -> Vec<FolderNode> {
    // Display path == key path here, so node names equal the key segments.
    let owned: Vec<(String, String, usize)> =
        folders.iter().map(|(p, c)| (p.to_string(), p.to_string(), *c)).collect();
    // No roots: filesystem-top fallback (exercises the trie and compaction).
    build_tree_sep(&owned, &[], '/')
}

fn build_anchored(folders: &[(&str, usize)], roots: &[&str]) -> Vec<FolderNode> {
    let owned: Vec<(String, String, usize)> =
        folders.iter().map(|(p, c)| (p.to_string(), p.to_string(), *c)).collect();
    let roots: Vec<String> = roots.iter().map(|s| s.to_string()).collect();
    build_tree_sep(&owned, &roots, '/')
}

#[test]
fn display_path_supplies_real_case_names() {
    let tree = build_tree_sep(
        &[
            ("/lib/2018/wedding".into(), "/Lib/2018/Wedding".into(), 3),
            ("/lib/2018/holiday".into(), "/Lib/2018/Holiday".into(), 2),
        ],
        &[],
        '/',
    );
    assert_eq!(tree[0].path, "/lib/2018");
    assert_eq!(tree[0].name, "2018");
    assert_eq!(tree[0].children[0].path, "/lib/2018/holiday");
    assert_eq!(tree[0].children[0].name, "Holiday");
    assert_eq!(tree[0].children[1].name, "Wedding");
}

#[test]
fn empty_display_falls_back_to_key_segment() {
    let tree = build_tree_sep(&[("/photos/2011".into(), String::new(), 5)], &[], '/');
    assert_eq!(tree[0].name, "2011");
}

#[test]
fn single_child_chain_compacts_into_one_breadcrumb_row() {
    let tree = build(&[("/a/b/c", 3)]);
    assert_eq!(tree.len(), 1);
    let row = &tree[0];
    let chain: Vec<(&str, &str)> =
        row.chain.iter().map(|s| (s.name.as_str(), s.path.as_str())).collect();
    assert_eq!(chain, vec![("a", "/a"), ("b", "/a/b"), ("c", "/a/b/c")]);
    assert_eq!(row.path, "/a/b/c");
    assert_eq!(row.name, "c");
}

#[test]
fn branching_stops_compaction() {
    let tree = build(&[("/a/b", 1), ("/a/c", 1)]);
    assert_eq!(tree.len(), 1);
    assert_eq!(tree[0].chain.len(), 1);
    assert_eq!(tree[0].name, "a");
    assert_eq!(tree[0].children.len(), 2);
    assert!(tree[0].children.iter().all(|c| c.chain.len() == 1));
}

#[test]
fn anchor_starts_breadcrumb_at_the_library_root() {
    let tree = build_anchored(&[("/users/me/photos/2024", 3)], &["/users/me/photos"]);
    assert_eq!(tree.len(), 1);
    assert_eq!(tree[0].chain.first().unwrap().name, "photos");
    assert_eq!(tree[0].chain.first().unwrap().path, "/users/me/photos");
}

#[test]
fn two_roots_on_same_drive_anchor_at_common_ancestor() {
    let tree = build_anchored(
        &[("/users/me/photos", 3), ("/users/me/pics", 2)],
        &["/users/me/photos", "/users/me/pics"],
    );
    assert_eq!(tree.len(), 1);
    assert_eq!(tree[0].path, "/users/me");
    let names: Vec<&str> = tree[0].children.iter().map(|c| c.name.as_str()).collect();
    assert_eq!(names, vec!["photos", "pics"]);
}

#[test]
fn roots_across_drives_anchor_separately() {
    let tree = build_anchored(
        &[("/users/me/photos", 3), ("/volumes/sd/dcim", 2)],
        &["/users/me/photos", "/volumes/sd/dcim"],
    );
    assert_eq!(tree.len(), 2);
    let paths: Vec<&str> = tree.iter().map(|n| n.path.as_str()).collect();
    assert!(paths.contains(&"/users/me/photos") && paths.contains(&"/volumes/sd/dcim"));
}

#[test]
fn divergent_top_level_roots_have_no_ghost_parent() {
    let tree = build(&[("/users/me/photos", 3), ("/mnt/sd/dcim", 2)]);
    assert_eq!(tree.len(), 2);
    assert!(tree.iter().all(|n| !n.name.is_empty() && !n.path.is_empty()));
    let names: Vec<&str> = tree.iter().map(|n| n.name.as_str()).collect();
    assert!(names.contains(&"photos") && names.contains(&"dcim"));
    assert_eq!(tree.iter().find(|n| n.name == "photos").unwrap().path, "/users/me/photos");
}

#[test]
fn empty_input_yields_empty_forest() {
    assert!(build(&[]).is_empty());
}

#[test]
fn single_leaf_collapses_to_one_root() {
    let tree = build(&[("/users/me/photos", 3)]);
    assert_eq!(tree.len(), 1);
    let root = &tree[0];
    assert_eq!(root.path, "/users/me/photos");
    assert_eq!(root.name, "photos");
    assert_eq!(root.direct_count, 3);
    assert_eq!(root.total_count, 3);
    assert!(root.children.is_empty());
}

#[test]
fn zero_count_root_still_appears_as_leaf() {
    let tree = build(&[("/users/me/photos", 0)]);
    assert_eq!(tree.len(), 1);
    let root = &tree[0];
    assert_eq!(root.path, "/users/me/photos");
    assert_eq!(root.name, "photos");
    assert_eq!(root.direct_count, 0);
    assert_eq!(root.total_count, 0);
    assert!(root.children.is_empty());
}

#[test]
fn nested_subfolders_become_children() {
    let tree = build(&[("/photos/2011", 10), ("/photos/2018", 5)]);
    assert_eq!(tree.len(), 1);
    let root = &tree[0];
    assert_eq!(root.name, "photos");
    assert_eq!(root.direct_count, 0);
    assert_eq!(root.total_count, 15);
    assert_eq!(root.children.len(), 2);
    assert_eq!(root.children[0].name, "2011");
    assert_eq!(root.children[0].total_count, 10);
    assert_eq!(root.children[1].name, "2018");
}

#[test]
fn parent_with_own_and_descendant_photos() {
    let tree = build(&[("/photos", 4), ("/photos/2011", 10)]);
    let root = &tree[0];
    assert_eq!(root.name, "photos");
    assert_eq!(root.direct_count, 4);
    assert_eq!(root.total_count, 14);
    assert_eq!(root.children.len(), 1);
    assert_eq!(root.children[0].name, "2011");
}

#[test]
fn deep_passthrough_chain_collapses_to_branch_point() {
    let tree = build(&[("/a/b/c/x", 1), ("/a/b/c/y", 2)]);
    assert_eq!(tree.len(), 1);
    let root = &tree[0];
    assert_eq!(root.path, "/a/b/c");
    assert_eq!(root.name, "c");
    assert_eq!(root.children.len(), 2);
}

#[test]
fn grandchildren_nest_correctly() {
    let tree = build(&[("/lib/2018/wedding", 30), ("/lib/2018/holiday", 12), ("/lib/2019", 7)]);
    let root = &tree[0];
    assert_eq!(root.name, "lib");
    assert_eq!(root.total_count, 49);
    assert_eq!(root.children.len(), 2);
    let y2018 = &root.children[0];
    assert_eq!(y2018.name, "2018");
    assert_eq!(y2018.total_count, 42);
    assert_eq!(y2018.children.len(), 2);
    assert_eq!(y2018.children[0].name, "holiday");
    assert_eq!(y2018.children[1].name, "wedding");
}

#[test]
fn trailing_separator_is_ignored() {
    let tree = build(&[("/photos/2011/", 5)]);
    assert_eq!(tree[0].path, "/photos/2011");
    assert_eq!(tree[0].total_count, 5);
}

fn expand(folders: &[(&str, usize)], target: &str) -> Vec<String> {
    let tree = build(folders);
    expand_paths_for_sep(&tree, target, '/')
}

#[test]
fn parent_with_children_expands_parent_to_reveal_them() {
    let got = expand(&[("/lib/child1", 3), ("/lib/child2", 2)], "/lib");
    assert_eq!(got, vec!["/lib".to_string()]);
}

#[test]
fn collapsed_branch_point_below_target_is_expanded() {
    let got = expand(&[("/a/b/c/x", 1), ("/a/b/c/y", 2)], "/a");
    assert_eq!(got, vec!["/a/b/c".to_string()]);
}

#[test]
fn ancestors_of_target_are_expanded_so_target_is_visible() {
    let mut got = expand(
        &[("/lib/2018/wedding", 30), ("/lib/2018/holiday", 12), ("/lib/2019", 7)],
        "/lib/2018",
    );
    got.sort();
    assert_eq!(got, vec!["/lib".to_string(), "/lib/2018".to_string()]);
}

#[test]
fn leaf_target_yields_no_expansion() {
    let got = expand(&[("/lib/child1", 3), ("/lib/child2", 2)], "/lib/child1");
    assert_eq!(got, vec!["/lib".to_string()]);
}

// Every row of the forest is compacted and its breadcrumb ends at the row.
#[test]
fn rows_are_compacted_and_breadcrumbs_end_at_the_row() {
    fn check(n: &FolderNode) {
        assert!(!(n.direct_count == 0 && n.children.len() == 1));
        let last = n.chain.last().unwrap();
        assert_eq!((last.name.as_str(), last.path.as_str()), (n.name.as_str(), n.path.as_str()));
        n.children.iter().for_each(check);
    }
    let tree = build(&[("/a/b/c/x/y", 1), ("/a/b/c/z", 2), ("/q", 0), ("/q/r/s", 4)]);
    tree.iter().for_each(check);
}

// Case-insensitive ordering of siblings, stable for equal keys.
#[test]
fn siblings_sort_case_insensitively() {
    let tree = build_tree_sep(
        &[
            ("/p/b".into(), "/P/b".into(), 1),
            ("/p/a".into(), "/P/B2".into(), 1),
            ("/p/c".into(), "/P/A".into(), 1),
        ],
        &[],
        '/',
    );
    let names: Vec<&str> = tree[0].children.iter().map(|c| c.name.as_str()).collect();
    assert_eq!(names, vec!["A", "b", "B2"]);
}

// Totals count the photos of a folder and everything below it.
#[test]
fn totals_add_direct_and_children() {
    fn check(n: &FolderNode) {
        let sum: usize = n.children.iter().map(|c| c.total_count).sum();
        assert_eq!(n.total_count, n.direct_count + sum);
        n.children.iter().for_each(check);
    }
    let tree = build(&[("/a", 1), ("/a/b", 2), ("/a/b/c", 3), ("/a/d/e", 4), ("/z", 5)]);
    tree.iter().for_each(check);
    assert_eq!(tree.iter().map(|n| n.total_count).sum::<usize>(), 15);
}

// Relative keys stay relative in the fallback forest.
#[test]
fn relative_keys_have_no_leading_separator() {
    let tree = build(&[("lib/a", 1), ("lib/b", 1)]);
    assert_eq!(tree[0].path, "lib");
    assert_eq!(tree[0].children[0].path, "lib/a");
}

// An anchor the trie does not reach yields no row.
#[test]
fn anchor_without_folders_is_skipped() {
    let tree = build_anchored(&[("/users/me/photos", 3)], &["/elsewhere/x", "/elsewhere/y"]);
    assert!(tree.is_empty());
}

fn library_root(path: &str) -> LibraryRoot {
    LibraryRoot { path: path.to_string(), path_display: path.to_string(), recursive: true }
}

#[test]
fn folder_tree_includes_just_added_root_with_no_files() {
    let sep = std::path::MAIN_SEPARATOR;
    let root = format!("{sep}tmp{sep}newshoot");
    let tree = folder_tree_from(Vec::new(), &[library_root(&root)], &[]);
    assert_eq!(tree.len(), 1);
    assert_eq!(tree[0].path, root);
    assert_eq!(tree[0].total_count, 0);
}

fn all_paths(nodes: &[FolderNode], out: &mut Vec<String>) {
    for n in nodes {
        for seg in &n.chain {
            out.push(seg.path.clone());
        }
        all_paths(&n.children, out);
    }
}

#[test]
fn folder_tree_unions_extra_discovered_folders() {
    let sep = std::path::MAIN_SEPARATOR;
    let root = format!("{sep}tmp{sep}shoot");
    let extra = vec![
        (format!("{root}{sep}a"), format!("{root}{sep}a")),
        (format!("{root}{sep}b"), format!("{root}{sep}b")),
    ];
    let tree = folder_tree_from(Vec::new(), &[library_root(&root)], &extra);
    let mut paths = Vec::new();
    all_paths(&tree, &mut paths);
    assert!(paths.contains(&format!("{root}{sep}a")), "missing a: {paths:?}");
    assert!(paths.contains(&format!("{root}{sep}b")), "missing b: {paths:?}");
}

#[test]
fn folder_tree_counts_indexed_folders_under_their_root() {
    let sep = std::path::MAIN_SEPARATOR;
    let root = format!("{sep}lib");
    let folders = vec![(format!("{root}{sep}x"), format!("{root}{sep}x"), 3usize)];
    let extra = vec![(format!("{root}{sep}y"), format!("{root}{sep}y"))];
    let tree = folder_tree_from(folders, &[library_root(&root)], &extra);
    assert_eq!(tree.len(), 1);
    assert_eq!(tree[0].path, root);
    assert_eq!(tree[0].total_count, 3);
    assert_eq!(tree[0].children.len(), 2);
}

// Without library roots the rows' totals add up to every photo of every
// folder that has a path segment.
#[test]
fn forest_totals_add_up_to_all_photos() {
    let tree = build(&[("/a/b", 2), ("/c", 3), ("/", 7), ("/c/d/e", 4)]);
    assert_eq!(tree.iter().map(|n| n.total_count).sum::<usize>(), 9);
}

// Rows come in case-insensitive name order; each node's own count is that of
// the folder at its path; breadcrumbs step down one segment at a time.
#[test]
fn rows_sorted_counts_match_and_crumbs_step_down() {
    let tree = build(&[("/Zeta/x", 1), ("/alpha", 2), ("/Beta/q/r", 3), ("/Beta/q/r/s", 4), ("/Beta/p", 5)]);
    let names: Vec<String> = tree.iter().map(|n| n.name.to_lowercase()).collect();
    let mut sorted = names.clone();
    sorted.sort();
    assert_eq!(names, sorted);
    fn check(n: &FolderNode, folders: &[(&str, usize)]) {
        let own: usize = folders.iter().filter(|(p, _)| *p == n.path).map(|(_, c)| *c).sum();
        assert_eq!(n.direct_count, own);
        for w in n.chain.windows(2) {
            let rest = w[1].path.strip_prefix(&format!("{}/", w[0].path)).unwrap();
            assert!(!rest.is_empty() && !rest.contains('/'));
        }
        for c in &n.children {
            let rest = c.chain[0].path.strip_prefix(&format!("{}/", n.path)).unwrap();
            assert!(!rest.is_empty() && !rest.contains('/'));
            check(c, folders);
        }
    }
    let folders = [("/Zeta/x", 1), ("/alpha", 2), ("/Beta/q/r", 3), ("/Beta/q/r/s", 4), ("/Beta/p", 5)];
    tree.iter().for_each(|n| check(n, &folders));
}
