//! Which package manager installs a project's dependencies.

use vstd::prelude::*;
use vstd::string::StringExecFns;

verus! {

/// Which of the files that tell of a package manager lie in a project's root.
#[derive(Clone, Copy, Debug)]
pub struct ProjectFiles {
    /// `pnpm-lock.yaml`
    pub pnpm_lock: bool,
    /// `package-lock.json`
    pub package_lock: bool,
    /// `yarn.lock`
    pub yarn_lock: bool,
    /// `bun.lockb`
    pub bun_lockb: bool,
    /// `bun.lock`
    pub bun_lock: bool,
    /// `package.json`
    pub package_json: bool,
}

/// The program and its one argument that install the dependencies. A lock file decides
/// before the bare manifest does, and of the lock files the first in the order pnpm,
/// npm, yarn, bun.
pub open spec fn install_command(files: ProjectFiles) -> Option<(Seq<char>, Seq<char>)> {
    if files.pnpm_lock {
        Some(("pnpm"@, "install"@))
    } else if files.package_lock {
        Some(("npm"@, "ci"@))
    } else if files.yarn_lock {
        Some(("yarn"@, "install"@))
    } else if files.bun_lockb || files.bun_lock {
        Some(("bun"@, "install"@))
    } else if files.package_json {
        Some(("npm"@, "install"@))
    } else {
        None
    }
}

/// Whether the root holds a project with dependencies to install.
pub fn has_project(files: &ProjectFiles) -> (r: bool)
    ensures
        r == files.package_json,
{
    files.package_json
}

/// A command as program and arguments.
fn command(program: &str, arg: &str) -> (r: (String, Vec<String>))
    ensures
        r.0@ == program@,
        r.1.len() == 1,
        r.1[0]@ == arg@,
{
    let mut args: Vec<String> = Vec::new();
    args.push(String::from_str(arg));
    (String::from_str(program), args)
}

/// The command that installs the dependencies of the project, if a package manager is
/// known for it.
pub fn detect_install_command(files: &ProjectFiles) -> (r: Option<(String, Vec<String>)>)
    ensures
        match r {
            Some((program, args)) => args.len() == 1 && install_command(*files) == Some(
                (program@, args[0]@),
            ),
            None => install_command(*files) is None,
        },
{
    if files.pnpm_lock {
        Some(command("pnpm", "install"))
    } else if files.package_lock {
        Some(command("npm", "ci"))
    } else if files.yarn_lock {
        Some(command("yarn", "install"))
    } else if files.bun_lockb || files.bun_lock {
        Some(command("bun", "install"))
    } else if files.package_json {
        Some(command("npm", "install"))
    } else {
        None
    }
}

} // verus!
