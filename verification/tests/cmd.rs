use wrt::cmd::{
    branch_label, cmd_env, cmd_new, cmd_path, cmd_prune, cmd_rm, create, infer_worktree_from_cwd,
    env_file_text, is_yes, ls_line, mode_on, raw_run_has_sep, resolve_name, wrt_env, NewOpts,
};
use wrt::state::{Allocation, State, StateError};

fn table(entries: &[(&str, &str, i32)]) -> State {
    let mut st = State::new();
    for (name, path, block) in entries {
        st.insert(Allocation {
            name: name.to_string(),
            branch: name.to_string(),
            path: path.to_string(),
            block: *block,
            offset: block * 100,
            created_at: "x".to_string(),
        });
    }
    st
}

fn names(st: &State) -> Vec<String> {
    st.sorted_allocations().into_iter().map(|a| a.name).collect()
}

fn args(v: &[&str]) -> Vec<String> {
    v.iter().map(|s| s.to_string()).collect()
}

#[test]
fn create_builds_the_allocation() {
    let mut st = State::new();
    let a = create(&mut st, "A/GPT/Fix-Login", "a/gpt/fix-login", "/r/.worktrees/x", "t0").unwrap();
    assert_eq!(a.name, "a-gpt-fix-login");
    assert_eq!(a.branch, "a/gpt/fix-login");
    assert_eq!(a.path, "/r/.worktrees/x");
    assert_eq!(a.block, 1);
    assert_eq!(a.offset, 100);
    assert_eq!(a.created_at, "t0");
    let kept = st.get("a-gpt-fix-login").unwrap();
    assert_eq!((kept.block, kept.offset), (1, 100));
    let b = create(&mut st, "second", "second", "/r/.worktrees/second", "t1").unwrap();
    assert_eq!((b.block, b.offset), (2, 200));
    assert!(st.is_valid());
}

#[test]
fn create_rejects_a_name_that_is_taken() {
    let mut st = State::new();
    create(&mut st, "x", "x", "/p", "t").unwrap();
    assert_eq!(create(&mut st, " X ", "y", "/q", "t").unwrap_err(), StateError::AlreadyExists);
    assert_eq!(st.len(), 1);
    assert_eq!(st.get("x").unwrap().path, "/p");
}

#[test]
fn create_rejects_a_name_without_normal_form() {
    let mut st = State::new();
    assert_eq!(create(&mut st, "", "b", "/p", "t").unwrap_err(), StateError::InvalidName);
    assert_eq!(create(&mut st, " ?!/ ", "b", "/p", "t").unwrap_err(), StateError::InvalidName);
    assert!(st.is_empty());
}

#[test]
fn create_reports_an_exhausted_table() {
    let mut allocations = Vec::new();
    for b in 1..=9999 {
        allocations.push(Allocation {
            name: format!("w{b:05}"),
            branch: String::new(),
            path: String::new(),
            block: b,
            offset: b * 100,
            created_at: String::new(),
        });
    }
    let mut st = State { version: 1, allocations };
    assert_eq!(create(&mut st, "one-more", "b", "/p", "t").unwrap_err(), StateError::NoFreeBlocks);
    assert_eq!(create(&mut st, "w00001", "b", "/p", "t").unwrap_err(), StateError::AlreadyExists);
    assert_eq!(st.len(), 9999);
}

#[test]
fn create_reuses_the_block_of_a_removed_worktree() {
    let mut st = State::new();
    for n in ["a", "b", "c"] {
        create(&mut st, n, n, "/p", "t").unwrap();
    }
    assert_eq!(cmd_rm(&mut st, "b").unwrap().block, 2);
    assert_eq!(create(&mut st, "d", "d", "/p", "t").unwrap().block, 2);
    assert_eq!(create(&mut st, "e", "e", "/p", "t").unwrap().block, 4);
    assert!(st.is_valid());
}

#[test]
fn cmd_new_stamps_the_time() {
    let mut st = State::new();
    let a = cmd_new(&mut st, "Feature One", "feature-one", "/r/.worktrees/feature-one", 1431648000)
        .unwrap();
    assert_eq!(a.name, "feature-one");
    assert_eq!(a.created_at, "2015-05-15T00:00:00Z");
    assert_eq!(st.get("feature-one").unwrap().created_at, "2015-05-15T00:00:00Z");
    let b = cmd_new(&mut st, "two", "two", "/p", 0).unwrap();
    assert_eq!(b.created_at, "1970-01-01T00:00:00Z");
    assert_eq!(b.block, 2);
}

#[test]
fn cmd_new_reports_errors_in_order() {
    let mut st = State::new();
    assert_eq!(cmd_new(&mut st, "x", "x", "/p", i64::MAX).unwrap_err(), StateError::InvalidTime);
    assert_eq!(cmd_new(&mut st, "--", "x", "/p", i64::MAX).unwrap_err(), StateError::InvalidName);
    assert!(st.is_empty());
    cmd_new(&mut st, "x", "x", "/p", 5).unwrap();
    assert_eq!(cmd_new(&mut st, "x", "x", "/p", i64::MAX).unwrap_err(), StateError::AlreadyExists);
    assert_eq!(cmd_new(&mut st, "x", "x", "/p", 5).unwrap_err(), StateError::AlreadyExists);
}

#[test]
fn cmd_rm_removes_by_normal_name() {
    let mut st = table(&[("a", "/a", 1), ("b-c", "/b", 2)]);
    assert_eq!(cmd_rm(&mut st, "B/C").unwrap().path, "/b");
    assert_eq!(names(&st), ["a"]);
    assert_eq!(cmd_rm(&mut st, "b-c").unwrap_err(), StateError::NotFound);
    assert_eq!(cmd_rm(&mut st, "").unwrap_err(), StateError::NotFound);
    assert_eq!(names(&st), ["a"]);
}

#[test]
fn cmd_prune_removes_exactly_the_missing() {
    let mut st = table(&[("a", "/exists", 1), ("b", "/missing", 2)]);
    assert_eq!(cmd_prune(&mut st, &args(&["b"])), 1);
    assert_eq!(names(&st), ["a"]);
    assert_eq!(st.get("a").unwrap().block, 1);
    // Nothing is missing any more: nothing is removed, so nothing is to be written.
    assert_eq!(cmd_prune(&mut st, &args(&[])), 0);
    assert_eq!(names(&st), ["a"]);
}

#[test]
fn cmd_prune_counts_each_allocation_once() {
    let mut st = table(&[("a", "/a", 1), ("b", "/b", 2), ("c", "/c", 3)]);
    assert_eq!(cmd_prune(&mut st, &args(&["c", "x", "a", "c"])), 2);
    assert_eq!(names(&st), ["b"]);
    assert_eq!(cmd_prune(&mut st, &args(&["x", "y"])), 0);
    assert!(st.is_valid());
}

#[test]
fn infer_picks_the_nearest_worktree() {
    let st = table(&[
        ("inner", "/repo/.worktrees/outer/sub", 1),
        ("outer", "/repo/.worktrees/outer", 2),
        ("other", "/repo/.worktrees/other", 3),
    ]);
    let at = |cwd: &str| infer_worktree_from_cwd(&st, cwd);
    assert_eq!(at("/repo/.worktrees/outer"), Some("outer".to_string()));
    assert_eq!(at("/repo/.worktrees/outer/src"), Some("outer".to_string()));
    assert_eq!(at("/repo/.worktrees/outer/sub"), Some("inner".to_string()));
    assert_eq!(at("/repo/.worktrees/outer/sub/deep/er"), Some("inner".to_string()));
    assert_eq!(at("/repo/.worktrees/outer/subway"), Some("outer".to_string()));
    assert_eq!(at("/repo/.worktrees/outermost"), None);
    assert_eq!(at("/repo"), None);
    assert_eq!(at(""), None);
}

#[test]
fn infer_handles_root_and_ties() {
    let st = table(&[("b", "/w/", 1), ("a", "/w/", 2), ("root", "/", 3), ("none", "", 4)]);
    assert_eq!(infer_worktree_from_cwd(&st, "/w/x"), Some("a".to_string()));
    assert_eq!(infer_worktree_from_cwd(&st, "/elsewhere"), Some("root".to_string()));
    assert_eq!(infer_worktree_from_cwd(&State::new(), "/w"), None);
}

#[test]
fn raw_run_has_sep_wants_the_separator_fourth() {
    assert!(raw_run_has_sep(&args(&["wrt", "run", "x", "--", "ls"])));
    assert!(raw_run_has_sep(&args(&["wrt", "run", "x", "--"])));
    assert!(!raw_run_has_sep(&args(&["wrt", "run", "x", "ls", "--"])));
    assert!(!raw_run_has_sep(&args(&["wrt", "run", "x", "ls"])));
    assert!(!raw_run_has_sep(&args(&["wrt", "run", "--", "--"])));
    assert!(!raw_run_has_sep(&args(&["wrt", "run", "x"])));
    assert!(!raw_run_has_sep(&args(&[])));
    assert!(raw_run_has_sep(&args(&["wrt", "ls", "x", "y"])));
    assert!(!raw_run_has_sep(&args(&["wrt", "ls", "x"])));
}

#[test]
fn branch_label_falls_back_to_the_name() {
    let mut opts = NewOpts {
        name: "a/Foo Bar",
        from_ref: "HEAD",
        branch: None,
        install_mode: "auto",
        sb_mode: "auto",
        db_mode: "auto",
        emit_cd: false,
    };
    assert_eq!(branch_label(&opts), "a/Foo Bar");
    opts.branch = Some("   ");
    assert_eq!(branch_label(&opts), "a/Foo Bar");
    opts.branch = Some("  feature/x \n");
    assert_eq!(branch_label(&opts), "feature/x");
}

#[test]
fn mode_on_reads_the_three_modes() {
    assert!(mode_on("true", false));
    assert!(mode_on(" TRUE ", false));
    assert!(mode_on("auto", true));
    assert!(mode_on("Auto\n", true));
    assert!(!mode_on("auto", false));
    assert!(!mode_on("false", true));
    assert!(!mode_on("", true));
    assert!(!mode_on("yes", true));
}

#[test]
fn resolve_name_prefers_the_explicit_name() {
    let inferred = || Some("here".to_string());
    assert_eq!(resolve_name(Some(" w "), Some("n"), inferred()), Some("w".to_string()));
    assert_eq!(resolve_name(Some("  "), Some(" n\n"), inferred()), Some("n".to_string()));
    assert_eq!(resolve_name(None, Some(""), inferred()), Some("here".to_string()));
    assert_eq!(resolve_name(None, None, None), None);
}

#[test]
fn cmd_path_and_env_find_the_worktree() {
    let mut st = State::new();
    st.insert(Allocation {
        name: "x".to_string(),
        branch: "it's".to_string(),
        path: "/r/.worktrees/x".to_string(),
        block: 3,
        offset: 300,
        created_at: "t".to_string(),
    });
    assert_eq!(cmd_path(&st, " X "), Ok("/r/.worktrees/x".to_string()));
    assert_eq!(cmd_path(&st, "y"), Err(StateError::NotFound));
    assert_eq!(
        cmd_env(&st, "x").unwrap(),
        [
            "export WRT_NAME='x'",
            "export WRT_BRANCH='it'\\''s'",
            "export WRT_PORT_BLOCK=3",
            "export WRT_PORT_OFFSET=300",
        ]
    );
    assert_eq!(cmd_env(&st, "y"), Err(StateError::NotFound));
    assert_eq!(
        env_file_text(st.get("x").unwrap()),
        "WRT_NAME=x\nWRT_BRANCH=it's\nWRT_PORT_BLOCK=3\nWRT_PORT_OFFSET=300\n"
    );
    let env = wrt_env(st.get("x").unwrap());
    let expected: Vec<(String, String)> = [
        ("WRT_NAME", "x"),
        ("WRT_BRANCH", "it's"),
        ("WRT_PORT_BLOCK", "3"),
        ("WRT_PORT_OFFSET", "300"),
    ]
    .iter()
    .map(|(k, v)| (k.to_string(), v.to_string()))
    .collect();
    assert_eq!(env, expected);
}

#[test]
fn is_yes_accepts_y_and_yes() {
    assert!(is_yes("y"));
    assert!(is_yes(" Yes\n"));
    assert!(is_yes("YES"));
    assert!(!is_yes(""));
    assert!(!is_yes("n"));
    assert!(!is_yes("yess"));
    assert!(!is_yes("ye"));
}

#[test]
fn ls_line_sets_columns() {
    let a = Allocation {
        name: "feature-x".to_string(),
        branch: "feature/x".to_string(),
        path: "/r/.worktrees/feature-x".to_string(),
        block: 2,
        offset: 200,
        created_at: "t".to_string(),
    };
    assert_eq!(
        ls_line(&a, "clean"),
        format!(
            "{:<28}  block={:<3}  offset={:<4}  {:<5}  {}  ({})",
            a.name, a.block, a.offset, "clean", a.branch, a.path
        )
    );
    assert_eq!(
        ls_line(&a, "?"),
        "feature-x                     block=2    offset=200   ?      feature/x  (/r/.worktrees/feature-x)"
    );
    let long = Allocation { name: "n".repeat(30), block: 1234, offset: 123400, ..a };
    assert_eq!(
        ls_line(&long, "dirty!"),
        format!("{}  block=1234  offset=123400  dirty!  feature/x  (/r/.worktrees/feature-x)", "n".repeat(30))
    );
}
