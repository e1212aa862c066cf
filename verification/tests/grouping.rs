use duplicate_files::grouping::find_duplicate_files;
use duplicate_files::grouping::is_ignored_path;
use duplicate_files::report::render_report;

fn paths(items: &[&str]) -> Vec<String> {
    items.iter().map(|s| s.to_string()).collect()
}

#[test]
fn scenario_two_configs_one_extensionless() {
    let files = paths(&["/a/config.ts", "/b/config.ts", "/c/readme"]);
    let table = find_duplicate_files(&files, &Vec::new());
    assert_eq!(table.groups.len(), 1);
    assert_eq!(table.groups[0].name, "config.ts");
    assert_eq!(
        table.groups[0].paths,
        paths(&["/a/config.ts", "/b/config.ts"])
    );
}

#[test]
fn scenario_ignore_pattern_drops_group() {
    let files = paths(&["/a/config.ts", "/b/config.ts", "/c/readme"]);
    let ignores = paths(&["/b/"]);
    let table = find_duplicate_files(&files, &ignores);
    assert_eq!(table.groups.len(), 0);
}

#[test]
fn scenario_empty_tree_reports_none() {
    let table = find_duplicate_files(&Vec::new(), &Vec::new());
    assert_eq!(table.groups.len(), 0);
    assert_eq!(render_report(&table), "No duplicate files found.\n");
}

#[test]
fn no_collisions_yields_empty_table() {
    let files = paths(&["/a/one.txt", "/a/two.txt", "/b/three.txt"]);
    let table = find_duplicate_files(&files, &Vec::new());
    assert_eq!(table.groups.len(), 0);
}

#[test]
fn duplicates_keep_traversal_order() {
    let files = paths(&[
        "/x/note.md",
        "/docs/other.md",
        "/y/note.md",
        "/z/deep/note.md",
    ]);
    let table = find_duplicate_files(&files, &Vec::new());
    assert_eq!(table.groups.len(), 1);
    assert_eq!(table.groups[0].name, "note.md");
    assert_eq!(
        table.groups[0].paths,
        paths(&["/x/note.md", "/y/note.md", "/z/deep/note.md"])
    );
}

#[test]
fn scan_twice_gives_same_grouping() {
    let files = paths(&[
        "/a/lib.rs",
        "/b/lib.rs",
        "/a/mod.rs",
        "/c/mod.rs",
        "/d/readme",
    ]);
    let ignores = paths(&["/c/"]);
    let first = find_duplicate_files(&files, &ignores);
    let second = find_duplicate_files(&files, &ignores);
    assert_eq!(first.groups.len(), second.groups.len());
    for g in &first.groups {
        let other = second
            .groups
            .iter()
            .find(|h| h.name == g.name)
            .expect("group present in both runs");
        assert_eq!(g.paths, other.paths);
    }
}

#[test]
fn ignored_path_leaves_smaller_group() {
    let files = paths(&["/a/data.csv", "/skip/data.csv", "/b/data.csv"]);
    let ignores = paths(&["skip"]);
    let table = find_duplicate_files(&files, &ignores);
    assert_eq!(table.groups.len(), 1);
    assert_eq!(
        table.groups[0].paths,
        paths(&["/a/data.csv", "/b/data.csv"])
    );
}

#[test]
fn extensionless_never_grouped() {
    let files = paths(&["/a/readme", "/b/readme", "/c/readme"]);
    let table = find_duplicate_files(&files, &Vec::new());
    assert_eq!(table.groups.len(), 0);
}

#[test]
fn base_name_comparison_is_case_sensitive() {
    let files = paths(&["/a/Readme.md", "/b/readme.md"]);
    let table = find_duplicate_files(&files, &Vec::new());
    assert_eq!(table.groups.len(), 0);
}

#[test]
fn hidden_files_are_eligible() {
    let files = paths(&["/a/.gitignore", "/b/.gitignore"]);
    let table = find_duplicate_files(&files, &Vec::new());
    assert_eq!(table.groups.len(), 1);
    assert_eq!(table.groups[0].name, ".gitignore");
}

#[test]
fn empty_ignore_list_filters_nothing() {
    let files = paths(&["/a/x.c", "/b/x.c"]);
    let table = find_duplicate_files(&files, &Vec::new());
    assert_eq!(table.groups.len(), 1);
}

#[test]
fn ignore_matches_by_substring_anywhere() {
    assert!(is_ignored_path("/home/user/target/debug/x.rs", &paths(&["target"])));
    assert!(is_ignored_path("/home/user/x.rs", &paths(&["user"])));
    assert!(!is_ignored_path("/home/user/x.rs", &paths(&["node_modules"])));
    assert!(!is_ignored_path("/home/user/x.rs", &Vec::new()));
}

#[test]
fn separate_groups_for_separate_names() {
    let files = paths(&["/a/f.rs", "/b/f.rs", "/a/g.rs", "/c/g.rs"]);
    let table = find_duplicate_files(&files, &Vec::new());
    assert_eq!(table.groups.len(), 2);
    let mut names: Vec<String> = table.groups.iter().map(|g| g.name.clone()).collect();
    names.sort();
    assert_eq!(names, paths(&["f.rs", "g.rs"]));
}
