use duplicate_files::grouping::find_duplicate_files;
use duplicate_files::lines::ignore_lines;
use duplicate_files::names::parse_file_name;
use duplicate_files::report::render_report;
use duplicate_files::report::u64_to_string;

#[test]
fn parse_takes_segment_after_last_slash() {
    assert_eq!(parse_file_name("/home/user/notes.txt"), Some("notes.txt".to_string()));
    assert_eq!(parse_file_name("a/b/c/d.e"), Some("d.e".to_string()));
}

#[test]
fn parse_takes_segment_after_last_backslash() {
    assert_eq!(parse_file_name("C:\\dir\\file.txt"), Some("file.txt".to_string()));
    assert_eq!(parse_file_name("mixed/dir\\file.md"), Some("file.md".to_string()));
}

#[test]
fn parse_without_separator_uses_whole_string() {
    assert_eq!(parse_file_name("plain.rs"), Some("plain.rs".to_string()));
}

#[test]
fn parse_rejects_names_without_dot() {
    assert_eq!(parse_file_name("/home/user/readme"), None);
    assert_eq!(parse_file_name("Makefile"), None);
}

#[test]
fn parse_accepts_leading_dot_names() {
    assert_eq!(parse_file_name("/repo/.gitignore"), Some(".gitignore".to_string()));
}

#[test]
fn parse_of_trailing_separator_is_none() {
    assert_eq!(parse_file_name("/home/user/"), None);
    assert_eq!(parse_file_name(""), None);
}

#[test]
fn ignore_lines_drops_empty_and_strips_cr() {
    let text = "target\nnode_modules\r\n\n.git\n";
    assert_eq!(
        ignore_lines(text),
        vec!["target".to_string(), "node_modules".to_string(), ".git".to_string()]
    );
}

#[test]
fn ignore_lines_of_empty_text_is_empty() {
    assert_eq!(ignore_lines(""), Vec::<String>::new());
}

#[test]
fn ignore_lines_without_trailing_newline() {
    let text = "alpha\nbeta";
    assert_eq!(ignore_lines(text), vec!["alpha".to_string(), "beta".to_string()]);
}

#[test]
fn decimal_rendering_is_exact() {
    assert_eq!(u64_to_string(0), "0");
    assert_eq!(u64_to_string(7), "7");
    assert_eq!(u64_to_string(10), "10");
    assert_eq!(u64_to_string(12345), "12345");
}

#[test]
fn report_for_one_group_is_exact() {
    let files = vec![
        "/a/config.ts".to_string(),
        "/b/config.ts".to_string(),
    ];
    let table = find_duplicate_files(&files, &Vec::new());
    let expected = "Found 1 sets of duplicate files:\n\
                    File: config.ts\n  - /a/config.ts\n  - /b/config.ts\n\n";
    assert_eq!(render_report(&table), expected);
}

#[test]
fn report_counts_every_group() {
    let files = vec![
        "/a/f.rs".to_string(),
        "/b/f.rs".to_string(),
        "/a/g.rs".to_string(),
        "/c/g.rs".to_string(),
    ];
    let table = find_duplicate_files(&files, &Vec::new());
    let report = render_report(&table);
    assert!(report.starts_with("Found 2 sets of duplicate files:\n"));
    assert!(report.contains("File: f.rs\n  - /a/f.rs\n  - /b/f.rs\n"));
    assert!(report.contains("File: g.rs\n  - /a/g.rs\n  - /c/g.rs\n"));
}
