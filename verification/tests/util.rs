use wrt::completions::zsh_script;
use wrt::db::{has_prisma_schema, has_sqlx_markers, has_supabase_seed_or_migrations, text_contains, DbFiles};
use wrt::pm::{detect_install_command, has_project, ProjectFiles};
use wrt::util::sh_quote;

fn no_files() -> ProjectFiles {
    ProjectFiles {
        pnpm_lock: false,
        package_lock: false,
        yarn_lock: false,
        bun_lockb: false,
        bun_lock: false,
        package_json: false,
    }
}

fn no_db_files() -> DbFiles {
    DbFiles {
        supabase_dir: false,
        supabase_seed: false,
        supabase_migrations: false,
        prisma_dir_schema: false,
        prisma_root_schema: false,
        sqlx_data: false,
        migrations_dir: false,
        cargo_manifest: None,
    }
}

fn cmd(program: &str, arg: &str) -> Option<(String, Vec<String>)> {
    Some((program.to_string(), vec![arg.to_string()]))
}

#[test]
fn sh_quote_wraps_in_single_quotes() {
    assert_eq!(sh_quote(""), "''");
    assert_eq!(sh_quote("abc"), "'abc'");
    assert_eq!(sh_quote("/repo/.worktrees/x y"), "'/repo/.worktrees/x y'");
    assert_eq!(sh_quote("it's"), "'it'\\''s'");
    assert_eq!(sh_quote("''"), "''\\'''\\'''");
    assert_eq!(sh_quote("a\"b$c\\d"), "'a\"b$c\\d'");
}

#[test]
fn detect_install_command_prefers_lock_files() {
    assert_eq!(detect_install_command(&no_files()), None);
    let all = ProjectFiles {
        pnpm_lock: true,
        package_lock: true,
        yarn_lock: true,
        bun_lockb: true,
        bun_lock: true,
        package_json: true,
    };
    assert_eq!(detect_install_command(&all), cmd("pnpm", "install"));
    assert_eq!(detect_install_command(&ProjectFiles { pnpm_lock: false, ..all }), cmd("npm", "ci"));
    assert_eq!(
        detect_install_command(&ProjectFiles { pnpm_lock: false, package_lock: false, ..all }),
        cmd("yarn", "install")
    );
    assert_eq!(
        detect_install_command(&ProjectFiles { bun_lockb: true, package_json: true, ..no_files() }),
        cmd("bun", "install")
    );
    assert_eq!(
        detect_install_command(&ProjectFiles { bun_lock: true, ..no_files() }),
        cmd("bun", "install")
    );
    assert_eq!(
        detect_install_command(&ProjectFiles { package_json: true, ..no_files() }),
        cmd("npm", "install")
    );
}

#[test]
fn has_project_wants_a_manifest() {
    assert!(!has_project(&no_files()));
    assert!(has_project(&ProjectFiles { package_json: true, ..no_files() }));
    assert!(!has_project(&ProjectFiles { yarn_lock: true, ..no_files() }));
}

#[test]
fn supabase_data_needs_the_directory() {
    assert!(!has_supabase_seed_or_migrations(&no_db_files()));
    assert!(!has_supabase_seed_or_migrations(&DbFiles { supabase_seed: true, ..no_db_files() }));
    assert!(!has_supabase_seed_or_migrations(&DbFiles { supabase_dir: true, ..no_db_files() }));
    assert!(has_supabase_seed_or_migrations(&DbFiles {
        supabase_dir: true,
        supabase_seed: true,
        ..no_db_files()
    }));
    assert!(has_supabase_seed_or_migrations(&DbFiles {
        supabase_dir: true,
        supabase_migrations: true,
        ..no_db_files()
    }));
}

#[test]
fn prisma_and_sqlx_markers() {
    assert!(!has_prisma_schema(&no_db_files()));
    assert!(has_prisma_schema(&DbFiles { prisma_dir_schema: true, ..no_db_files() }));
    assert!(has_prisma_schema(&DbFiles { prisma_root_schema: true, ..no_db_files() }));
    assert!(!has_sqlx_markers(&no_db_files()));
    assert!(has_sqlx_markers(&DbFiles { sqlx_data: true, ..no_db_files() }));
    assert!(has_sqlx_markers(&DbFiles { migrations_dir: true, ..no_db_files() }));
    assert!(has_sqlx_markers(&DbFiles {
        cargo_manifest: Some("[dependencies]\nsqlx = \"0.7\"\n".to_string()),
        ..no_db_files()
    }));
    assert!(!has_sqlx_markers(&DbFiles {
        cargo_manifest: Some("[dependencies]\nserde = \"1\"\n".to_string()),
        ..no_db_files()
    }));
}

#[test]
fn text_contains_finds_substrings() {
    assert!(text_contains("abc", ""));
    assert!(text_contains("", ""));
    assert!(!text_contains("", "a"));
    assert!(text_contains("abc", "c"));
    assert!(text_contains("abc", "abc"));
    assert!(!text_contains("abc", "abcd"));
    assert!(!text_contains("sqsqlsq", "sqlx"));
    assert!(text_contains("sqsqlxsq", "sqlx"));
}

#[test]
fn zsh_script_is_a_completion_script() {
    let s = zsh_script();
    assert!(s.starts_with("#compdef wrt\n"));
    assert!(s.ends_with("_wrt \"$@\"\n"));
    assert!(s.contains("names=(${(f)\"$(wrt ls 2>/dev/null | awk 'NF && $1 !~ /^\\\\(/ {print $1}')\"})"));
    assert!(s.contains("'--delete-branch[Delete branch]'"));
    assert_eq!(s.lines().count(), 90);
}
