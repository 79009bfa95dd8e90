//! Which database tooling a worktree shows signs of.

use vstd::prelude::*;
use vstd::string::StringExecFns;
use crate::state::{compare_names, NameOrder};
use crate::text::{chars_of, has_at, starts_with, texts};

verus! {

/// What of a database's tooling lies in a worktree.
#[derive(Debug)]
pub struct DbFiles {
    /// Whether `supabase` is a directory.
    pub supabase_dir: bool,
    /// Whether `supabase/seed.sql` exists.
    pub supabase_seed: bool,
    /// Whether `supabase/migrations` is a directory.
    pub supabase_migrations: bool,
    /// Whether `prisma/schema.prisma` exists.
    pub prisma_dir_schema: bool,
    /// Whether `schema.prisma` exists.
    pub prisma_root_schema: bool,
    /// Whether `sqlx-data.json` exists.
    pub sqlx_data: bool,
    /// Whether `migrations` is a directory.
    pub migrations_dir: bool,
    /// The text of `Cargo.toml`, if it could be read.
    pub cargo_manifest: Option<String>,
}

/// Whether `lit` occurs somewhere in `s`.
pub open spec fn contains_text(s: Seq<char>, lit: Seq<char>) -> bool {
    exists|i: int| 0 <= i <= s.len() && starts_with(#[trigger] s.skip(i), lit)
}

/// Tests `contains_text`.
pub fn text_contains(s: &str, lit: &str) -> (r: bool)
    ensures
        r == contains_text(s@, lit@),
{
    let v = chars_of(s);
    let l = chars_of(lit);
    let mut i: usize = 0;
    loop
        invariant
            i <= v.len(),
            v@ == s@,
            l@ == lit@,
            forall|j: int| 0 <= j < i ==> !starts_with(#[trigger] v@.skip(j), l@),
        decreases v.len() - i,
    {
        if has_at(&v, i, &l) {
            return true;
        }
        if i == v.len() {
            return false;
        }
        i += 1;
    }
}

/// Whether the Supabase directory of the worktree holds seed data or migrations.
pub open spec fn supabase_data(f: &DbFiles) -> bool {
    f.supabase_dir && (f.supabase_seed || f.supabase_migrations)
}

/// Whether the worktree shows signs of sqlx: its offline data, a directory of
/// migrations, or a manifest that mentions it.
pub open spec fn sqlx_markers(f: &DbFiles) -> bool {
    ||| f.sqlx_data
    ||| f.migrations_dir
    ||| match f.cargo_manifest {
        Some(t) => contains_text(t@, "sqlx"@),
        None => false,
    }
}

/// Whether the worktree has Supabase seed data or migrations to reset a database from.
pub fn has_supabase_seed_or_migrations(f: &DbFiles) -> (r: bool)
    ensures
        r == supabase_data(f),
{
    if !f.supabase_dir {
        return false;
    }
    if f.supabase_seed {
        return true;
    }
    f.supabase_migrations
}

/// Whether the worktree has a Prisma schema, in its own directory or at the root.
pub fn has_prisma_schema(f: &DbFiles) -> (r: bool)
    ensures
        r == (f.prisma_dir_schema || f.prisma_root_schema),
{
    f.prisma_dir_schema || f.prisma_root_schema
}

/// Whether the worktree shows signs of sqlx.
pub fn has_sqlx_markers(f: &DbFiles) -> (r: bool)
    ensures
        r == sqlx_markers(f),
{
    if f.sqlx_data {
        return true;
    }
    if f.migrations_dir {
        return true;
    }
    match &f.cargo_manifest {
        Some(t) => text_contains(t.as_str(), "sqlx"),
        None => false,
    }
}

/// What to do with the database of a worktree.
#[derive(Clone, Copy, Debug, PartialEq, Eq, Structural)]
pub enum DbAction {
    /// Reset it, which destroys its data. `yes` answers the question whether to do so.
    Reset { yes: bool, print: bool },
    /// Fill it with seed data.
    Seed { print: bool },
    /// Run its migrations.
    Migrate { print: bool },
}

/// What is known of a repository's database from its configuration.
#[derive(Debug)]
pub struct Database {
    /// Whether a database was found.
    pub detected: bool,
    /// The kind of database.
    pub kind: Option<String>,
    /// The command that runs the migrations.
    pub migrate_command: Option<Vec<String>>,
    /// The command that fills in the seed data.
    pub seed_command: Option<Vec<String>>,
    /// The command that resets the database.
    pub reset_command: Option<Vec<String>>,
    /// Remarks.
    pub notes: Option<String>,
}

/// The view of an optional command.
pub open spec fn command_view(c: Option<Vec<String>>) -> Option<Seq<Seq<char>>> {
    match c {
        Some(v) => Some(texts(v@)),
        None => None,
    }
}

/// The words with a space between each two of them.
pub open spec fn join_words(ws: Seq<Seq<char>>) -> Seq<char>
    decreases ws.len(),
{
    if ws.len() == 0 {
        Seq::empty()
    } else if ws.len() == 1 {
        ws[0]
    } else {
        join_words(ws.drop_last()) + seq![' '] + ws.last()
    }
}

impl DbAction {
    /// The name of the action.
    pub open spec fn name_spec(self) -> Seq<char> {
        match self {
            DbAction::Reset { .. } => "reset"@,
            DbAction::Seed { .. } => "seed"@,
            DbAction::Migrate { .. } => "migrate"@,
        }
    }

    /// Whether the command is only to be shown.
    pub open spec fn print_spec(self) -> bool {
        match self {
            DbAction::Reset { yes, print } => print,
            DbAction::Seed { print } => print,
            DbAction::Migrate { print } => print,
        }
    }

    /// The name of the action.
    pub fn name(&self) -> (r: &'static str)
        ensures
            r@ == self.name_spec(),
    {
        match self {
            DbAction::Reset { .. } => "reset",
            DbAction::Seed { .. } => "seed",
            DbAction::Migrate { .. } => "migrate",
        }
    }
}

/// A command for the database, with the label under which it is spoken of.
pub struct Labelled {
    /// The kind of database, or `database`.
    pub label: String,
    /// The command, if one is known.
    pub argv: Option<Vec<String>>,
}

/// The label for a database: its kind where the configuration found one, `supabase`
/// where the command is the one that Supabase data calls for, else `database`.
pub open spec fn label_spec(config: Option<&Database>, fallback: bool) -> Seq<char> {
    match config {
        Some(d) => if d.detected && d.kind is Some {
            d.kind->0@
        } else if fallback {
            "supabase"@
        } else {
            "database"@
        },
        None => if fallback {
            "supabase"@
        } else {
            "database"@
        },
    }
}

/// The command that the configuration gives for an action.
pub open spec fn configured_spec(config: Option<&Database>, action: DbAction) -> Option<
    Seq<Seq<char>>,
> {
    match config {
        Some(d) => match action {
            DbAction::Reset { .. } => command_view(d.reset_command),
            DbAction::Seed { .. } => command_view(d.seed_command),
            DbAction::Migrate { .. } => command_view(d.migrate_command),
        },
        None => None,
    }
}

/// Whether the command of an action is the one that Supabase data calls for: the
/// action is a reset, the configuration gives no command for it, and the worktree has
/// Supabase seed data or migrations.
pub open spec fn falls_back(config: Option<&Database>, action: DbAction, supabase_data: bool) -> bool {
    action is Reset && configured_spec(config, action) is None && supabase_data
}

/// The command for an action: the one of the configuration, or for a reset without
/// one, where the worktree has Supabase data, `supabase db reset`.
pub open spec fn command_spec(config: Option<&Database>, action: DbAction, supabase_data: bool) -> Option<
    Seq<Seq<char>>,
> {
    if falls_back(config, action, supabase_data) {
        Some(seq!["supabase"@, "db"@, "reset"@])
    } else {
        configured_spec(config, action)
    }
}

/// A copy of the words.
pub fn copy_words(v: &Vec<String>) -> (r: Vec<String>)
    ensures
        texts(r@) == texts(v@),
{
    let mut r: Vec<String> = Vec::new();
    let mut i: usize = 0;
    while i < v.len()
        invariant
            i <= v.len(),
            texts(r@) == texts(v@).take(i as int),
        decreases v.len() - i,
    {
        r.push(v[i].clone());
        assert(texts(r@) =~= texts(v@).take(i as int).push(v@[i as int]@));
        assert(texts(v@).take(i + 1) =~= texts(v@).take(i as int).push(v@[i as int]@));
        i += 1;
    }
    assert(texts(v@).take(v.len() as int) == texts(v@));
    r
}

/// Computes `join_words`.
pub fn join_with_spaces(v: &Vec<String>) -> (r: String)
    ensures
        r@ == join_words(texts(v@)),
{
    let mut out = String::new();
    let mut i: usize = 0;
    while i < v.len()
        invariant
            i <= v.len(),
            out@ == join_words(texts(v@).take(i as int)),
        decreases v.len() - i,
    {
        let ghost done = texts(v@).take(i as int);
        let ghost next = texts(v@).take(i + 1);
        assert(next.drop_last() =~= done);
        assert(next.last() == v@[i as int]@);
        if i > 0 {
            out.append(" ");
            proof {
                reveal_strlit(" ");
                assert(" "@ =~= seq![' ']);
            }
        }
        out.append(v[i].as_str());
        i += 1;
    }
    assert(texts(v@).take(v.len() as int) == texts(v@));
    out
}

/// The command for an action and its label.
pub fn known_command(config: Option<&Database>, action: DbAction, supabase_data: bool) -> (r:
    Labelled)
    ensures
        r.label@ == label_spec(config, falls_back(config, action, supabase_data)),
        command_view(r.argv) == command_spec(config, action, supabase_data),
{
    let configured: Option<Vec<String>> = match config {
        Some(d) => {
            let c = match action {
                DbAction::Reset { .. } => &d.reset_command,
                DbAction::Seed { .. } => &d.seed_command,
                DbAction::Migrate { .. } => &d.migrate_command,
            };
            match c {
                Some(v) => Some(copy_words(v)),
                None => None,
            }
        },
        None => None,
    };
    let is_reset = match action {
        DbAction::Reset { .. } => true,
        _ => false,
    };
    let fallback = is_reset && configured.is_none() && supabase_data;
    let kind: Option<String> = match config {
        Some(d) => if d.detected {
            match &d.kind {
                Some(k) => Some(k.clone()),
                None => None,
            }
        } else {
            None
        },
        None => None,
    };
    let label = match kind {
        Some(k) => k,
        None => if fallback {
            String::from_str("supabase")
        } else {
            String::from_str("database")
        },
    };
    let argv = if fallback {
        let mut v: Vec<String> = Vec::new();
        v.push(String::from_str("supabase"));
        v.push(String::from_str("db"));
        v.push(String::from_str("reset"));
        assert(texts(v@) =~= seq!["supabase"@, "db"@, "reset"@]);
        Some(v)
    } else {
        configured
    };
    Labelled { label, argv }
}

/// What the `db` command is to do next.
#[derive(Debug)]
pub enum DbStep {
    /// No command is known for the action: say so and fail.
    NoCommand { label: String },
    /// The command is empty: there is nothing to do.
    Nothing,
    /// Show the command and stop.
    Print { line: String },
    /// A reset was asked for without `yes` and nobody can be asked: refuse.
    Refuse { label: String },
    /// Ask whether to reset, and run the command if the answer is yes.
    Confirm { label: String, line: String, argv: Vec<String> },
    /// Run the command.
    Run { label: String, line: String, argv: Vec<String> },
}

/// A step of the `db` command as a value.
pub enum DbStepView {
    NoCommand { label: Seq<char> },
    Nothing,
    Print { line: Seq<char> },
    Refuse { label: Seq<char> },
    Confirm { label: Seq<char>, line: Seq<char>, argv: Seq<Seq<char>> },
    Run { label: Seq<char>, line: Seq<char>, argv: Seq<Seq<char>> },
}

impl View for DbStep {
    type V = DbStepView;

    open spec fn view(&self) -> DbStepView {
        match self {
            DbStep::NoCommand { label } => DbStepView::NoCommand { label: label@ },
            DbStep::Nothing => DbStepView::Nothing,
            DbStep::Print { line } => DbStepView::Print { line: line@ },
            DbStep::Refuse { label } => DbStepView::Refuse { label: label@ },
            DbStep::Confirm { label, line, argv } => DbStepView::Confirm {
                label: label@,
                line: line@,
                argv: texts(argv@),
            },
            DbStep::Run { label, line, argv } => DbStepView::Run {
                label: label@,
                line: line@,
                argv: texts(argv@),
            },
        }
    }
}

/// The step that the `db` command takes: it fails where no command is known, does
/// nothing with an empty command, only shows the command where that was asked for, and
/// runs it otherwise; but a reset is run without `yes` only after asking, and refused
/// where nobody can be asked.
pub open spec fn db_step(
    config: Option<&Database>,
    action: DbAction,
    supabase_data: bool,
    interactive: bool,
) -> DbStepView {
    let label = label_spec(config, falls_back(config, action, supabase_data));
    match command_spec(config, action, supabase_data) {
        None => DbStepView::NoCommand { label },
        Some(argv) => if argv.len() == 0 {
            DbStepView::Nothing
        } else if action.print_spec() {
            DbStepView::Print { line: join_words(argv) }
        } else {
            match action {
                DbAction::Reset { yes, print } => if yes {
                    DbStepView::Run { label, line: join_words(argv), argv }
                } else if !interactive {
                    DbStepView::Refuse { label }
                } else {
                    DbStepView::Confirm { label, line: join_words(argv), argv }
                },
                _ => DbStepView::Run { label, line: join_words(argv), argv },
            }
        },
    }
}

/// Decides the step of the `db` command. `config` is what the repository's
/// configuration says of the database, if it could be read; `supabase_data` whether the
/// worktree holds Supabase seed data or migrations; `interactive` whether the user can
/// be asked.
pub fn cmd_db(config: Option<&Database>, action: DbAction, supabase_data: bool, interactive: bool) -> (r:
    DbStep)
    ensures
        r@ == db_step(config, action, supabase_data, interactive),
{
    let known = known_command(config, action, supabase_data);
    let label = known.label;
    let argv = match known.argv {
        Some(v) => v,
        None => {
            return DbStep::NoCommand { label };
        },
    };
    if argv.len() == 0 {
        return DbStep::Nothing;
    }
    let line = join_with_spaces(&argv);
    let print = match action {
        DbAction::Reset { yes, print } => print,
        DbAction::Seed { print } => print,
        DbAction::Migrate { print } => print,
    };
    if print {
        return DbStep::Print { line };
    }
    match action {
        DbAction::Reset { yes, print } => {
            if yes {
                DbStep::Run { label, line, argv }
            } else if !interactive {
                DbStep::Refuse { label }
            } else {
                DbStep::Confirm { label, line, argv }
            }
        },
        _ => DbStep::Run { label, line, argv },
    }
}

/// What setting up the database of a new worktree is to do next.
#[derive(Debug)]
pub enum SetupStep {
    /// There is nothing to do.
    Nothing,
    /// No reset command is known, but tooling was found: name it.
    Hint { tools: String },
    /// The mode is none of `auto`, `true` and `false`: say so and go on.
    InvalidMode,
    /// A command is known, but nobody can be asked whether to run it: say so and go on.
    Skip { label: String, line: String },
    /// Ask whether to run the command, and run it if the answer is yes.
    Confirm { label: String, line: String, argv: Vec<String> },
    /// Run the command.
    Run { label: String, line: String, argv: Vec<String> },
}

/// A step of the setup as a value.
pub enum SetupStepView {
    Nothing,
    Hint { tools: Seq<char> },
    InvalidMode,
    Skip { label: Seq<char>, line: Seq<char> },
    Confirm { label: Seq<char>, line: Seq<char>, argv: Seq<Seq<char>> },
    Run { label: Seq<char>, line: Seq<char>, argv: Seq<Seq<char>> },
}

impl View for SetupStep {
    type V = SetupStepView;

    open spec fn view(&self) -> SetupStepView {
        match self {
            SetupStep::Nothing => SetupStepView::Nothing,
            SetupStep::Hint { tools } => SetupStepView::Hint { tools: tools@ },
            SetupStep::InvalidMode => SetupStepView::InvalidMode,
            SetupStep::Skip { label, line } => SetupStepView::Skip { label: label@, line: line@ },
            SetupStep::Confirm { label, line, argv } => SetupStepView::Confirm {
                label: label@,
                line: line@,
                argv: texts(argv@),
            },
            SetupStep::Run { label, line, argv } => SetupStepView::Run {
                label: label@,
                line: line@,
                argv: texts(argv@),
            },
        }
    }
}

/// The tooling to name where no reset command is known.
pub open spec fn tools_spec(prisma: bool, sqlx: bool) -> Seq<char> {
    if prisma && sqlx {
        "prisma, sqlx"@
    } else if prisma {
        "prisma"@
    } else if sqlx {
        "sqlx"@
    } else {
        Seq::empty()
    }
}

/// The step that setting up the database of a new worktree takes. Only a reset command
/// is ever run. Without one the tooling that was found is named, if any. With one the
/// mode decides: `true` runs it, `auto` asks first and skips it where nobody can be
/// asked, `false` does nothing.
pub open spec fn setup_step(
    mode: Seq<char>,
    config: Option<&Database>,
    f: &DbFiles,
    interactive: bool,
) -> SetupStepView {
    let action = DbAction::Reset { yes: false, print: false };
    let data = supabase_data(f);
    let label = label_spec(config, falls_back(config, action, data));
    match command_spec(config, action, data) {
        None => if f.prisma_dir_schema || f.prisma_root_schema || sqlx_markers(f) {
            SetupStepView::Hint {
                tools: tools_spec(f.prisma_dir_schema || f.prisma_root_schema, sqlx_markers(f)),
            }
        } else {
            SetupStepView::Nothing
        },
        Some(argv) => if argv.len() == 0 {
            SetupStepView::Nothing
        } else if mode == "true"@ {
            SetupStepView::Run { label, line: join_words(argv), argv }
        } else if mode == "auto"@ {
            if interactive {
                SetupStepView::Confirm { label, line: join_words(argv), argv }
            } else {
                SetupStepView::Skip { label, line: join_words(argv) }
            }
        } else if mode == "false"@ {
            SetupStepView::Nothing
        } else {
            SetupStepView::InvalidMode
        },
    }
}

/// Decides the step of setting up the database of a new worktree. `mode` is the mode
/// as lowercase text; `config` what the repository's configuration says of the
/// database, if it could be read; `f` what tooling lies in the worktree; `interactive`
/// whether the user can be asked.
pub fn maybe_run_db_setup(mode: &str, config: Option<&Database>, f: &DbFiles, interactive: bool) -> (r:
    SetupStep)
    ensures
        r@ == setup_step(mode@, config, f, interactive),
{
    let action = DbAction::Reset { yes: false, print: false };
    let known = known_command(config, action, has_supabase_seed_or_migrations(f));
    let label = known.label;
    let argv = match known.argv {
        Some(v) => v,
        None => {
            let prisma = has_prisma_schema(f);
            let sqlx = has_sqlx_markers(f);
            if prisma && sqlx {
                return SetupStep::Hint { tools: String::from_str("prisma, sqlx") };
            } else if prisma {
                return SetupStep::Hint { tools: String::from_str("prisma") };
            } else if sqlx {
                return SetupStep::Hint { tools: String::from_str("sqlx") };
            } else {
                return SetupStep::Nothing;
            }
        },
    };
    if argv.len() == 0 {
        return SetupStep::Nothing;
    }
    let line = join_with_spaces(&argv);
    if compare_names(mode, "true") == NameOrder::Same {
        SetupStep::Run { label, line, argv }
    } else if compare_names(mode, "auto") == NameOrder::Same {
        if interactive {
            SetupStep::Confirm { label, line, argv }
        } else {
            SetupStep::Skip { label, line }
        }
    } else if compare_names(mode, "false") == NameOrder::Same {
        SetupStep::Nothing
    } else {
        SetupStep::InvalidMode
    }
}

} // verus!
