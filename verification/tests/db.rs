use wrt::db::{
    cmd_db, copy_words, join_with_spaces, maybe_run_db_setup, Database, DbAction, DbFiles, DbStep,
    SetupStep,
};

fn words(v: &[&str]) -> Vec<String> {
    v.iter().map(|s| s.to_string()).collect()
}

fn config(kind: Option<&str>, reset: Option<&[&str]>, seed: Option<&[&str]>) -> Database {
    Database {
        detected: true,
        kind: kind.map(|k| k.to_string()),
        migrate_command: None,
        seed_command: seed.map(words),
        reset_command: reset.map(words),
        notes: None,
    }
}

fn files() -> DbFiles {
    DbFiles {
        supabase_dir: false,
        supabase_seed: false,
        supabase_migrations: false,
        prisma_dir_schema: false,
        prisma_root_schema: false,
        sqlx_data: false,
        migrations_dir: false,
        cargo_manifest: None,
    }
}

fn supabase_files() -> DbFiles {
    DbFiles { supabase_dir: true, supabase_seed: true, ..files() }
}

const RESET: DbAction = DbAction::Reset { yes: false, print: false };
const RESET_YES: DbAction = DbAction::Reset { yes: true, print: false };

#[test]
fn db_without_a_command_fails() {
    let step = cmd_db(None, DbAction::Seed { print: false }, true, true);
    assert!(matches!(step, DbStep::NoCommand { label } if label == "database"));
    let c = config(Some("postgres"), None, None);
    let step = cmd_db(Some(&c), DbAction::Migrate { print: true }, true, true);
    assert!(matches!(step, DbStep::NoCommand { label } if label == "postgres"));
    let step = cmd_db(Some(&c), RESET, false, true);
    assert!(matches!(step, DbStep::NoCommand { label } if label == "postgres"));
}

#[test]
fn db_reset_falls_back_to_supabase() {
    let step = cmd_db(None, RESET_YES, true, false);
    assert!(matches!(
        step,
        DbStep::Run { label, line, argv }
            if label == "supabase" && line == "supabase db reset" && argv == ["supabase", "db", "reset"]
    ));
    let c = config(Some("postgres"), None, None);
    let step = cmd_db(Some(&c), RESET_YES, true, false);
    assert!(matches!(step, DbStep::Run { label, .. } if label == "postgres"));
    let mut undetected = config(Some("postgres"), None, None);
    undetected.detected = false;
    let step = cmd_db(Some(&undetected), RESET_YES, true, false);
    assert!(matches!(step, DbStep::Run { label, .. } if label == "supabase"));
}

#[test]
fn db_reset_asks_or_refuses() {
    let c = config(None, Some(&["make", "db-reset"]), None);
    assert!(matches!(cmd_db(Some(&c), RESET, false, false), DbStep::Refuse { label } if label == "database"));
    assert!(matches!(
        cmd_db(Some(&c), RESET, false, true),
        DbStep::Confirm { label, line, argv }
            if label == "database" && line == "make db-reset" && argv == ["make", "db-reset"]
    ));
    assert!(matches!(cmd_db(Some(&c), RESET_YES, false, false), DbStep::Run { .. }));
}

#[test]
fn db_print_only_shows_the_command() {
    let c = config(None, Some(&["make", "db-reset"]), Some(&["npm", "run", "seed"]));
    let step = cmd_db(Some(&c), DbAction::Reset { yes: false, print: true }, false, false);
    assert!(matches!(step, DbStep::Print { line } if line == "make db-reset"));
    let step = cmd_db(Some(&c), DbAction::Seed { print: true }, false, false);
    assert!(matches!(step, DbStep::Print { line } if line == "npm run seed"));
    let step = cmd_db(Some(&c), DbAction::Seed { print: false }, false, false);
    assert!(matches!(step, DbStep::Run { line, .. } if line == "npm run seed"));
}

#[test]
fn db_empty_command_does_nothing() {
    let c = config(None, Some(&[]), None);
    assert!(matches!(cmd_db(Some(&c), RESET, true, true), DbStep::Nothing));
    assert!(matches!(maybe_run_db_setup("true", Some(&c), &supabase_files(), true), SetupStep::Nothing));
}

#[test]
fn db_action_names() {
    assert_eq!(RESET.name(), "reset");
    assert_eq!(DbAction::Seed { print: false }.name(), "seed");
    assert_eq!(DbAction::Migrate { print: false }.name(), "migrate");
}

#[test]
fn setup_runs_only_a_reset() {
    let c = config(Some("pg"), None, Some(&["npm", "run", "seed"]));
    assert!(matches!(maybe_run_db_setup("true", Some(&c), &files(), true), SetupStep::Nothing));
    let c = config(Some("pg"), Some(&["npm", "run", "reset"]), Some(&["npm", "run", "seed"]));
    assert!(matches!(
        maybe_run_db_setup("true", Some(&c), &files(), false),
        SetupStep::Run { label, line, argv }
            if label == "pg" && line == "npm run reset" && argv == ["npm", "run", "reset"]
    ));
}

#[test]
fn setup_follows_the_mode() {
    let f = supabase_files();
    assert!(matches!(
        maybe_run_db_setup("auto", None, &f, false),
        SetupStep::Skip { label, line } if label == "supabase" && line == "supabase db reset"
    ));
    assert!(matches!(maybe_run_db_setup("auto", None, &f, true), SetupStep::Confirm { .. }));
    assert!(matches!(maybe_run_db_setup("true", None, &f, false), SetupStep::Run { .. }));
    assert!(matches!(maybe_run_db_setup("false", None, &f, true), SetupStep::Nothing));
    assert!(matches!(maybe_run_db_setup("maybe", None, &f, true), SetupStep::InvalidMode));
}

#[test]
fn setup_names_the_tooling_it_found() {
    assert!(matches!(maybe_run_db_setup("true", None, &files(), true), SetupStep::Nothing));
    let f = DbFiles { prisma_root_schema: true, ..files() };
    assert!(matches!(maybe_run_db_setup("true", None, &f, true), SetupStep::Hint { tools } if tools == "prisma"));
    let f = DbFiles { sqlx_data: true, ..files() };
    assert!(matches!(maybe_run_db_setup("auto", None, &f, true), SetupStep::Hint { tools } if tools == "sqlx"));
    let f = DbFiles { prisma_dir_schema: true, migrations_dir: true, ..files() };
    assert!(matches!(
        maybe_run_db_setup("auto", None, &f, true),
        SetupStep::Hint { tools } if tools == "prisma, sqlx"
    ));
}

#[test]
fn words_are_copied_and_joined() {
    let v = words(&["a", "b c", ""]);
    assert_eq!(copy_words(&v), v);
    assert_eq!(join_with_spaces(&v), "a b c ");
    assert_eq!(join_with_spaces(&words(&[])), "");
    assert_eq!(join_with_spaces(&words(&["x"])), "x");
}
