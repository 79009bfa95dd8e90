use wrt::gitx::{detect_repo, ensure_info_exclude, stripped_lines, RepoError};

const PATTERNS: [&str; 3] = [".worktrees/", ".wrt.env", ".wrt.json"];

#[test]
fn exclude_adds_all_patterns_to_an_empty_list() {
    assert_eq!(
        ensure_info_exclude("", &PATTERNS),
        Some(".worktrees/\n.wrt.env\n.wrt.json\n".to_string())
    );
}

#[test]
fn exclude_adds_only_what_is_missing() {
    assert_eq!(
        ensure_info_exclude("# comment\n  .wrt.env  \r\n", &PATTERNS),
        Some("# comment\n  .wrt.env  \r\n.worktrees/\n.wrt.json\n".to_string())
    );
}

#[test]
fn exclude_leaves_a_complete_list_alone() {
    assert_eq!(ensure_info_exclude(".wrt.json\n.worktrees/\n.wrt.env\n", &PATTERNS), None);
    assert_eq!(ensure_info_exclude("", &[]), None);
    assert_eq!(ensure_info_exclude("x\n", &["", "  ", " x "]), None);
}

#[test]
fn exclude_closes_the_last_line() {
    assert_eq!(ensure_info_exclude("x", &[]), Some("x\n".to_string()));
    assert_eq!(ensure_info_exclude("x", &["x"]), Some("x\n".to_string()));
    assert_eq!(ensure_info_exclude("x", &[" y "]), Some("x\ny\n".to_string()));
}

#[test]
fn exclude_compares_with_the_list_as_it_was() {
    // A pattern named twice is added twice: only the old lines are looked at.
    assert_eq!(ensure_info_exclude("", &["a", "a"]), Some("a\na\n".to_string()));
}

#[test]
fn stripped_lines_strips_each_line() {
    let lines: Vec<String> =
        stripped_lines(" a \n\tb\r\n\nc").into_iter().map(|l| l.into_iter().collect()).collect();
    assert_eq!(lines, ["a", "b", "", "c"]);
    assert_eq!(stripped_lines("").len(), 1);
    assert_eq!(stripped_lines("x\n").len(), 2);
}

#[test]
fn detect_repo_in_the_main_working_directory() {
    let r = detect_repo("/home/u/repo\n", ".git\n").unwrap();
    assert_eq!(r.root, "/home/u/repo");
    assert_eq!(r.common_dir, "/home/u/repo/.git");
}

#[test]
fn detect_repo_in_a_worktree() {
    let r = detect_repo("/home/u/repo/.worktrees/x\n", "/home/u/repo/.git\n").unwrap();
    assert_eq!(r.root, "/home/u/repo");
    assert_eq!(r.common_dir, "/home/u/repo/.git");
}

#[test]
fn detect_repo_with_a_bare_shared_directory() {
    let r = detect_repo("/work/x", "/srv/git/repo.git").unwrap();
    assert_eq!(r.root, "/work/x");
    assert_eq!(r.common_dir, "/srv/git/repo.git");
    let r = detect_repo("/work/x/", "sub/gitdir").unwrap();
    assert_eq!(r.root, "/work/x/");
    assert_eq!(r.common_dir, "/work/x/sub/gitdir");
    let r = detect_repo("/", "/.git").unwrap();
    assert_eq!(r.root, "/");
}

#[test]
fn detect_repo_needs_a_shared_directory() {
    assert_eq!(detect_repo("/x", "").unwrap_err(), RepoError::EmptyCommonDir);
    assert_eq!(detect_repo("/x", " \n").unwrap_err(), RepoError::EmptyCommonDir);
}
