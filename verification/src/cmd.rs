//! What the commands do to the allocation table: a worktree is created, removed, or
//! found missing, and a working directory is matched to its worktree.

use vstd::prelude::*;
use vstd::string::StringExecFns;
use crate::clock::{rfc3339, rfc3339_of};
use crate::state::{
    blocks_exhausted, compare_names, has_name, is_next_block, lemma_table_of, Allocation,
    AllocationView, NameOrder, State, StateError, BLOCK_SIZE,
};
use crate::text::{
    chars_of, has_at, lowercase, lowercased, push_range, render_signed, signed_decimal,
    starts_with, string_of, strip, text_of, texts, trim, CharClass,
};
use crate::util::{sh_quote, sh_quote_spec};
use crate::worktree::{slug, slug_spec};

verus! {

/// Why a worktree with the given name cannot be created in a table, if it cannot: the
/// name has no normal form, or is taken, or no block is left, in this order.
pub open spec fn create_error(s: Seq<AllocationView>, name: Seq<char>) -> Option<StateError> {
    if slug_spec(name).len() == 0 {
        Some(StateError::InvalidName)
    } else if has_name(s, slug_spec(name)) {
        Some(StateError::AlreadyExists)
    } else if blocks_exhausted(s) {
        Some(StateError::NoFreeBlocks)
    } else {
        None
    }
}

/// The error of a result, if it is one.
pub open spec fn error_of<T>(r: Result<T, StateError>) -> Option<StateError> {
    match r {
        Ok(_) => None,
        Err(e) => Some(e),
    }
}

/// Whether `a` is the allocation that creating a worktree adds to the table `s`: it
/// stands under the normal form of the name, holds the next block with the offset that
/// belongs to it, and carries branch and path as given.
pub open spec fn is_created(
    s: Seq<AllocationView>,
    name: Seq<char>,
    branch: Seq<char>,
    path: Seq<char>,
    a: AllocationView,
) -> bool {
    &&& a.name == slug_spec(name)
    &&& a.branch == branch
    &&& a.path == path
    &&& is_next_block(s, a.block)
    &&& a.offset == a.block * BLOCK_SIZE
}

/// Creates the allocation of a new worktree, made at the time `created_at`, and puts it
/// into the table. The allocation is returned. On an error the table stays as it is.
pub fn create(st: &mut State, name: &str, branch: &str, path: &str, created_at: &str) -> (r:
    Result<Allocation, StateError>)
    requires
        old(st).wf(),
    ensures
        final(st).wf(),
        final(st).version == old(st).version,
        old(st).valid() ==> final(st).valid(),
        error_of(r) == create_error(old(st).allocs(), name@),
        match r {
            Ok(a) => {
                &&& is_created(old(st).allocs(), name@, branch@, path@, a@)
                &&& a@.created_at == created_at@
                &&& final(st).table() == old(st).table().insert(a@.name, a@)
            },
            Err(_) => final(st).allocs() == old(st).allocs(),
        },
{
    proof {
        lemma_table_of(st.allocs());
    }
    let key = slug(name);
    if key.as_str().is_empty() {
        return Err(StateError::InvalidName);
    }
    if st.contains_key(key.as_str()) {
        return Err(StateError::AlreadyExists);
    }
    let block = match st.allocate_block() {
        Ok(b) => b,
        Err(e) => {
            return Err(e);
        },
    };
    let a = Allocation {
        name: key,
        branch: branch.to_owned(),
        path: path.to_owned(),
        block,
        offset: block * BLOCK_SIZE,
        created_at: created_at.to_owned(),
    };
    let r = a.clone();
    st.insert(a);
    Ok(r)
}

/// Why `cmd_new` fails, if it does: for the reasons of `create`, or else because the
/// time cannot be written as a timestamp.
pub open spec fn new_error(s: Seq<AllocationView>, name: Seq<char>, now_secs: int) -> Option<
    StateError,
> {
    if create_error(s, name) is Some {
        create_error(s, name)
    } else if rfc3339_of(now_secs) is None {
        Some(StateError::InvalidTime)
    } else {
        None
    }
}

/// Creates the allocation of a new worktree at the time `now_secs`, counted in seconds
/// since the start of 1970 in UTC, and puts it into the table. The allocation is
/// returned. On an error the table stays as it is.
pub fn cmd_new(st: &mut State, name: &str, branch: &str, path: &str, now_secs: i64) -> (r: Result<
    Allocation,
    StateError,
>)
    requires
        old(st).wf(),
    ensures
        final(st).wf(),
        final(st).version == old(st).version,
        old(st).valid() ==> final(st).valid(),
        error_of(r) == new_error(old(st).allocs(), name@, now_secs as int),
        match r {
            Ok(a) => {
                &&& is_created(old(st).allocs(), name@, branch@, path@, a@)
                &&& Some(a@.created_at) == rfc3339_of(now_secs as int)
                &&& final(st).table() == old(st).table().insert(a@.name, a@)
            },
            Err(_) => final(st).allocs() == old(st).allocs(),
        },
{
    match rfc3339(now_secs) {
        Some(stamp) => create(st, name, branch, path, stamp.as_str()),
        None => {
            proof {
                lemma_table_of(st.allocs());
            }
            let key = slug(name);
            if key.as_str().is_empty() {
                Err(StateError::InvalidName)
            } else if st.contains_key(key.as_str()) {
                Err(StateError::AlreadyExists)
            } else {
                match st.allocate_block() {
                    Ok(_) => Err(StateError::InvalidTime),
                    Err(e) => Err(e),
                }
            }
        },
    }
}

/// Removes the allocation of the worktree with the given name from the table and
/// returns it. Where the table has no such worktree it stays as it is.
pub fn cmd_rm(st: &mut State, name: &str) -> (r: Result<Allocation, StateError>)
    requires
        old(st).wf(),
    ensures
        final(st).wf(),
        final(st).version == old(st).version,
        old(st).valid() ==> final(st).valid(),
        final(st).table() == old(st).table().remove(slug_spec(name@)),
        match r {
            Ok(a) => {
                &&& old(st).table().dom().contains(slug_spec(name@))
                &&& old(st).table()[slug_spec(name@)] == a@
                &&& final(st).allocs().len() == old(st).allocs().len() - 1
            },
            Err(e) => {
                &&& e == StateError::NotFound
                &&& !old(st).table().dom().contains(slug_spec(name@))
                &&& final(st).allocs() == old(st).allocs()
            },
        },
{
    let key = slug(name);
    match st.remove(key.as_str()) {
        Some(a) => Ok(a),
        None => Err(StateError::NotFound),
    }
}

/// Whether `n` is one of the names in `names`.
pub open spec fn listed(names: Seq<String>, n: Seq<char>) -> bool {
    exists|j: int| 0 <= j < names.len() && (#[trigger] names[j])@ == n
}

/// Removes from the table the allocations of the worktrees whose directory is missing,
/// given by their names. The result is the number of allocations removed; the table
/// needs to be written again only if it is not 0.
pub fn cmd_prune(st: &mut State, missing: &Vec<String>) -> (removed: usize)
    requires
        old(st).wf(),
    ensures
        final(st).wf(),
        final(st).version == old(st).version,
        old(st).valid() ==> final(st).valid(),
        final(st).table() == old(st).table().remove_keys(Set::new(|n: Seq<char>| listed(missing@, n))),
        removed == old(st).allocs().len() - final(st).allocs().len(),
        removed == 0 <==> final(st).allocs() == old(st).allocs(),
        removed == 0 <==> forall|n: Seq<char>|
            listed(missing@, n) ==> !old(st).table().dom().contains(n),
{
    let mut removed: usize = 0;
    let mut i: usize = 0;
    assert(st.allocs().len() == st.allocations.len());
    assert(st.table() =~= old(st).table().remove_keys(
        Set::new(|n: Seq<char>| listed(missing@.take(0), n)),
    ));
    while i < missing.len()
        invariant
            i <= missing.len(),
            st.wf(),
            st.version == old(st).version,
            old(st).valid() ==> st.valid(),
            st.table() == old(st).table().remove_keys(
                Set::new(|n: Seq<char>| listed(missing@.take(i as int), n)),
            ),
            removed == old(st).allocs().len() - st.allocs().len(),
            removed == 0 ==> st.allocs() == old(st).allocs(),
            removed == 0 ==> forall|n: Seq<char>|
                listed(missing@.take(i as int), n) ==> !old(st).table().dom().contains(n),
            removed > 0 ==> exists|n: Seq<char>|
                listed(missing@.take(i as int), n) && old(st).table().dom().contains(n),
            old(st).allocs().len() <= usize::MAX,
        decreases missing.len() - i,
    {
        let ghost before = st.table();
        let ghost name = missing@[i as int]@;
        let ghost had = removed > 0;
        let ghost witness = if had {
            choose|n: Seq<char>|
                listed(missing@.take(i as int), n) && old(st).table().dom().contains(n)
        } else {
            name
        };
        match st.remove(missing[i].as_str()) {
            Some(_) => {
                removed += 1;
                assert(old(st).table().dom().contains(name));
            },
            None => {},
        }
        proof {
            let s0 = Set::new(|n: Seq<char>| listed(missing@.take(i as int), n));
            let s1 = Set::new(|n: Seq<char>| listed(missing@.take(i + 1), n));
            assert forall|n: Seq<char>| s1.contains(n) <==> s0.contains(n) || n == name by {
                if listed(missing@.take(i as int), n) {
                    let j = choose|j: int|
                        0 <= j < missing@.take(i as int).len() && (#[trigger] missing@.take(
                            i as int,
                        )[j])@ == n;
                    assert(missing@.take(i + 1)[j]@ == n);
                }
                if n == name {
                    assert(missing@.take(i + 1)[i as int]@ == n);
                }
                if listed(missing@.take(i + 1), n) {
                    let j = choose|j: int|
                        0 <= j < missing@.take(i + 1).len() && (#[trigger] missing@.take(i + 1)[j])@
                            == n;
                    if j < i {
                        assert(missing@.take(i as int)[j]@ == n);
                    }
                }
            }
            assert(st.table() =~= old(st).table().remove_keys(s1));
            assert(s1.contains(name));
            if removed > 0 {
                if had {
                    assert(s0.contains(witness));
                    assert(s1.contains(witness));
                    assert(listed(missing@.take(i + 1), witness));
                } else {
                    assert(listed(missing@.take(i + 1), name));
                }
            } else {
                assert forall|n: Seq<char>| listed(missing@.take(i + 1), n) implies !old(
                    st,
                ).table().dom().contains(n) by {
                    assert(s1.contains(n));
                    if n != name {
                        assert(s0.contains(n));
                    }
                }
            }
        }
        i += 1;
    }
    assert(missing@.take(missing@.len() as int) == missing@);
    removed
}

/// Whether the directory `base` is `cwd` or lies above it. Both are compared as they
/// are written, with `/` between their parts: `base` is a beginning of `cwd` that ends
/// where a part of `cwd` ends.
pub open spec fn is_ancestor(base: Seq<char>, cwd: Seq<char>) -> bool {
    &&& base.len() > 0
    &&& starts_with(cwd, base)
    &&& cwd.len() == base.len() || base.last() == '/' || cwd[base.len() as int] == '/'
}

/// Whether the allocation at index `i` is the one that `cwd` belongs to: its path lies
/// above `cwd`, no other such path is longer, and of those as long it is the first.
pub open spec fn is_nearest(s: Seq<AllocationView>, cwd: Seq<char>, i: int) -> bool {
    &&& 0 <= i < s.len()
    &&& is_ancestor(s[i].path, cwd)
    &&& forall|j: int|
        0 <= j < s.len() && is_ancestor((#[trigger] s[j]).path, cwd) ==> s[j].path.len()
            < s[i].path.len() || (s[j].path.len() == s[i].path.len() && i <= j)
}

/// A working directory belongs to one worktree at most: the nearest allocation is one
/// allocation.
pub proof fn lemma_nearest_unique(s: Seq<AllocationView>, cwd: Seq<char>, i: int, j: int)
    requires
        is_nearest(s, cwd, i),
        is_nearest(s, cwd, j),
    ensures
        i == j,
{
}

/// Tests `is_ancestor`.
pub fn path_is_ancestor(base: &Vec<char>, cwd: &Vec<char>) -> (r: bool)
    ensures
        r == is_ancestor(base@, cwd@),
{
    assert(cwd@.skip(0) == cwd@);
    if base.len() == 0 || !has_at(cwd, 0, base) {
        return false;
    }
    cwd.len() == base.len() || base[base.len() - 1] == '/' || cwd[base.len()] == '/'
}

/// The name of the worktree that the working directory `cwd` belongs to: the one whose
/// path lies above `cwd` most closely. `None` where `cwd` lies in no worktree.
pub fn infer_worktree_from_cwd(st: &State, cwd: &str) -> (r: Option<String>)
    ensures
        match r {
            Some(n) => exists|i: int| is_nearest(st.allocs(), cwd@, i) && st.allocs()[i].name == n@,
            None => forall|j: int|
                0 <= j < st.allocs().len() ==> !is_ancestor((#[trigger] st.allocs()[j]).path, cwd@),
        },
{
    let wd = chars_of(cwd);
    let ghost s = st.allocs();
    let mut best: Option<usize> = None;
    let mut best_len: usize = 0;
    let mut i: usize = 0;
    while i < st.allocations.len()
        invariant
            i <= st.allocations.len(),
            s == st.allocs(),
            wd@ == cwd@,
            match best {
                Some(b) => b < i && is_nearest(s.take(i as int), cwd@, b as int) && best_len
                    == s[b as int].path.len(),
                None => forall|j: int| 0 <= j < i ==> !is_ancestor((#[trigger] s[j]).path, cwd@),
            },
        decreases st.allocations.len() - i,
    {
        let p = chars_of(st.allocations[i].path.as_str());
        assert(s[i as int] == st.allocations@[i as int]@);
        let ghost t0 = s.take(i as int);
        let ghost t1 = s.take(i + 1);
        let better = path_is_ancestor(&p, &wd) && (best.is_none() || p.len() > best_len);
        proof {
            assert forall|j: int| 0 <= j < i implies t0[j] == s[j] && t1[j] == s[j] by {}
            assert(t1[i as int] == s[i as int]);
        }
        if better {
            proof {
                assert forall|j: int|
                    0 <= j < t1.len() && is_ancestor((#[trigger] t1[j]).path, cwd@) implies t1[j].path.len()
                    < t1[i as int].path.len() || (t1[j].path.len() == t1[i as int].path.len() && i
                    <= j) by {
                    if j < i {
                        assert(t0[j] == s[j]);
                    }
                }
            }
            best = Some(i);
            best_len = p.len();
        } else {
            proof {
                if let Some(b) = best {
                    assert forall|j: int|
                        0 <= j < t1.len() && is_ancestor((#[trigger] t1[j]).path, cwd@) implies t1[j].path.len()
                        < t1[b as int].path.len() || (t1[j].path.len() == t1[b as int].path.len()
                        && b <= j) by {
                        if j < i {
                            assert(t0[j] == s[j]);
                        }
                    }
                }
            }
        }
        i += 1;
    }
    assert(s.take(s.len() as int) == s);
    match best {
        Some(b) => {
            assert(s[b as int] == st.allocations@[b as int]@);
            Some(st.allocations[b].name.clone())
        },
        None => None,
    }
}

/// Whether the arguments of the program, as the shell handed them over, put `--`
/// right behind the worktree's name of a `run` command: there are at least four of
/// them, and if the second is `run` the first `--` among them is the fourth. Arguments
/// of another command pass.
pub open spec fn has_sep(args: Seq<Seq<char>>) -> bool {
    &&& args.len() >= 4
    &&& args[1] != "run"@ || (args[3] == "--"@ && args[0] != "--"@ && args[1] != "--"@ && args[2]
        != "--"@)
}

/// Whether a `run` command was written with `--` between the worktree's name and the
/// command to run.
pub fn raw_run_has_sep(raw_args: &[String]) -> (r: bool)
    ensures
        r == has_sep(texts(raw_args@)),
{
    if raw_args.len() < 4 {
        return false;
    }
    let ghost args = texts(raw_args@);
    assert(args[1] == raw_args@[1]@ && args[3] == raw_args@[3]@);
    if compare_names(raw_args[1].as_str(), "run") != NameOrder::Same {
        return true;
    }
    let mut i: usize = 0;
    while i < 3
        invariant
            i <= 3,
            raw_args.len() >= 4,
            args == texts(raw_args@),
            args[1] == "run"@,
            forall|j: int| 0 <= j < i ==> args[j] != "--"@,
        decreases 3 - i,
    {
        assert(args[i as int] == raw_args@[i as int]@);
        if compare_names(raw_args[i].as_str(), "--") == NameOrder::Same {
            return false;
        }
        i += 1;
    }
    compare_names(raw_args[3].as_str(), "--") == NameOrder::Same
}

/// What the `new` command was asked for.
#[derive(Clone, Copy, Debug)]
pub struct NewOpts<'a> {
    /// The name of the worktree, as it was typed.
    pub name: &'a str,
    /// The commit to start from.
    pub from_ref: &'a str,
    /// The branch, if one was named.
    pub branch: Option<&'a str>,
    /// Whether to install dependencies: `auto`, `true` or `false`.
    pub install_mode: &'a str,
    /// Whether to set up Supabase: `auto`, `true` or `false`.
    pub sb_mode: &'a str,
    /// Whether to set up the database: `auto`, `true` or `false`.
    pub db_mode: &'a str,
    /// Whether to print a `cd` command for the shell.
    pub emit_cd: bool,
}

/// What was given, without the white space around it, or nothing.
pub open spec fn trimmed(given: Option<&str>) -> Seq<char> {
    match given {
        Some(t) => strip(t@, CharClass::Space),
        None => Seq::empty(),
    }
}

/// The branch of a new worktree: the branch that was named, without white space around
/// it, or else the name of the worktree as it was typed.
pub open spec fn branch_spec(opts: NewOpts) -> Seq<char> {
    if trimmed(opts.branch).len() == 0 {
        opts.name@
    } else {
        trimmed(opts.branch)
    }
}

/// The branch of a new worktree.
pub fn branch_label(opts: &NewOpts) -> (r: String)
    ensures
        r@ == branch_spec(*opts),
{
    match opts.branch {
        Some(b) => {
            let t = trim(b);
            if t.as_str().is_empty() {
                opts.name.to_owned()
            } else {
                t
            }
        },
        None => opts.name.to_owned(),
    }
}

/// Whether a step that was asked for with `mode` is taken: always for `true`, for
/// `auto` where what the step is about was detected, and else not. The mode counts
/// without white space around it and without regard to case.
pub open spec fn mode_spec(mode: Seq<char>, detected: bool) -> bool {
    let m = lowercased(strip(mode, CharClass::Space));
    m == "true"@ || (m == "auto"@ && detected)
}

/// Whether a step that was asked for with `mode` is taken.
pub fn mode_on(mode: &str, detected: bool) -> (r: bool)
    ensures
        r == mode_spec(mode@, detected),
{
    let m = lowercase(trim(mode).as_str());
    compare_names(m.as_str(), "true") == NameOrder::Same || (compare_names(m.as_str(), "auto")
        == NameOrder::Same && detected)
}

/// The name that a command is about: the explicit one where it is not blank, else the
/// positional one where it is not blank, else the one inferred from the working
/// directory. Names count without the white space around them.
pub open spec fn resolved_spec(
    explicit: Option<&str>,
    positional: Option<&str>,
    inferred: Option<Seq<char>>,
) -> Option<Seq<char>> {
    if trimmed(explicit).len() > 0 {
        Some(trimmed(explicit))
    } else if trimmed(positional).len() > 0 {
        Some(trimmed(positional))
    } else {
        inferred
    }
}

/// The name that a command is about.
pub fn resolve_name(explicit: Option<&str>, positional: Option<&str>, inferred: Option<String>) -> (r:
    Option<String>)
    ensures
        text_of(r) == resolved_spec(explicit, positional, text_of(
            inferred,
        )),
{
    match explicit {
        Some(e) => {
            let t = trim(e);
            if !t.as_str().is_empty() {
                return Some(t);
            }
        },
        None => {},
    }
    match positional {
        Some(p) => {
            let t = trim(p);
            if !t.as_str().is_empty() {
                return Some(t);
            }
        },
        None => {},
    }
    inferred
}

/// The path of the worktree with the given name.
pub fn cmd_path(st: &State, name: &str) -> (r: Result<String, StateError>)
    requires
        st.wf(),
    ensures
        match r {
            Ok(p) => st.table().dom().contains(slug_spec(name@)) && p@ == st.table()[slug_spec(
                name@,
            )].path,
            Err(e) => e == StateError::NotFound && !st.table().dom().contains(slug_spec(name@)),
        },
{
    let key = slug(name);
    match st.get(key.as_str()) {
        Some(a) => Ok(a.path.clone()),
        None => Err(StateError::NotFound),
    }
}

/// The variables that tell a command of its worktree, as names and values.
pub open spec fn env_spec(a: AllocationView) -> Seq<(Seq<char>, Seq<char>)> {
    seq![
        ("WRT_NAME"@, a.name),
        ("WRT_BRANCH"@, a.branch),
        ("WRT_PORT_BLOCK"@, signed_decimal(a.block)),
        ("WRT_PORT_OFFSET"@, signed_decimal(a.offset)),
    ]
}

/// The views of pairs of strings.
pub open spec fn pairs(v: Seq<(String, String)>) -> Seq<(Seq<char>, Seq<char>)> {
    v.map_values(|p: (String, String)| (p.0@, p.1@))
}

/// The variables that tell a command of its worktree.
pub fn wrt_env(a: &Allocation) -> (r: Vec<(String, String)>)
    ensures
        pairs(r@) == env_spec(a@),
{
    let mut r: Vec<(String, String)> = Vec::new();
    r.push((String::from_str("WRT_NAME"), a.name.clone()));
    r.push((String::from_str("WRT_BRANCH"), a.branch.clone()));
    r.push((String::from_str("WRT_PORT_BLOCK"), string_of(&render_signed(a.block as i64))));
    r.push((String::from_str("WRT_PORT_OFFSET"), string_of(&render_signed(a.offset as i64))));
    assert(pairs(r@) =~= env_spec(a@));
    r
}

/// The variables as the lines of a file: the name, `=`, the value and a line feed for
/// each.
pub open spec fn env_lines(vars: Seq<(Seq<char>, Seq<char>)>) -> Seq<char>
    decreases vars.len(),
{
    if vars.len() == 0 {
        Seq::empty()
    } else {
        env_lines(vars.drop_last()) + vars.last().0 + seq!['='] + vars.last().1 + seq!['\n']
    }
}

/// The text of the file that tells the tools in a worktree of its variables.
pub fn env_file_text(a: &Allocation) -> (r: String)
    ensures
        r@ == env_lines(env_spec(a@)),
{
    let vars = wrt_env(a);
    let mut out = String::new();
    let mut i: usize = 0;
    while i < vars.len()
        invariant
            i <= vars.len(),
            out@ == env_lines(pairs(vars@).take(i as int)),
        decreases vars.len() - i,
    {
        proof {
            let next = pairs(vars@).take(i + 1);
            assert(next.drop_last() =~= pairs(vars@).take(i as int));
            assert(next.last() == (vars@[i as int].0@, vars@[i as int].1@));
            reveal_strlit("=");
            reveal_strlit("\n");
            assert("="@ =~= seq!['=']);
            assert("\n"@ =~= seq!['\n']);
        }
        out.append(vars[i].0.as_str());
        out.append("=");
        out.append(vars[i].1.as_str());
        out.append("\n");
        i += 1;
    }
    assert(pairs(vars@).take(vars.len() as int) == pairs(vars@));
    out
}

/// The lines that set the variables of a worktree in a shell.
pub open spec fn exports_spec(a: AllocationView) -> Seq<Seq<char>> {
    seq![
        "export WRT_NAME="@ + sh_quote_spec(a.name),
        "export WRT_BRANCH="@ + sh_quote_spec(a.branch),
        "export WRT_PORT_BLOCK="@ + signed_decimal(a.block),
        "export WRT_PORT_OFFSET="@ + signed_decimal(a.offset),
    ]
}

/// The lines that set the variables of the worktree with the given name in a shell.
pub fn cmd_env(st: &State, name: &str) -> (r: Result<Vec<String>, StateError>)
    requires
        st.wf(),
    ensures
        match r {
            Ok(lines) => st.table().dom().contains(slug_spec(name@)) && texts(lines@)
                == exports_spec(st.table()[slug_spec(name@)]),
            Err(e) => e == StateError::NotFound && !st.table().dom().contains(slug_spec(name@)),
        },
{
    let key = slug(name);
    match st.get(key.as_str()) {
        Some(a) => {
            let mut lines: Vec<String> = Vec::new();
            lines.push(String::from_str("export WRT_NAME=").concat(sh_quote(a.name.as_str()).as_str()));
            lines.push(
                String::from_str("export WRT_BRANCH=").concat(sh_quote(a.branch.as_str()).as_str()),
            );
            lines.push(
                String::from_str("export WRT_PORT_BLOCK=").concat(
                    string_of(&render_signed(a.block as i64)).as_str(),
                ),
            );
            lines.push(
                String::from_str("export WRT_PORT_OFFSET=").concat(
                    string_of(&render_signed(a.offset as i64)).as_str(),
                ),
            );
            assert(texts(lines@) =~= exports_spec(a@));
            Ok(lines)
        },
        None => Err(StateError::NotFound),
    }
}

/// Whether an answer says yes: it is `y` or `yes`, white space around it and case
/// aside.
pub open spec fn yes_spec(answer: Seq<char>) -> bool {
    let a = lowercased(strip(answer, CharClass::Space));
    a == "y"@ || a == "yes"@
}

/// Whether an answer says yes.
pub fn is_yes(answer: &str) -> (r: bool)
    ensures
        r == yes_spec(answer@),
{
    let a = lowercase(trim(answer).as_str());
    compare_names(a.as_str(), "y") == NameOrder::Same || compare_names(a.as_str(), "yes")
        == NameOrder::Same
}

/// `s`, with spaces behind it to make up `width` characters where it has fewer.
pub open spec fn padded(s: Seq<char>, width: nat) -> Seq<char> {
    if s.len() >= width {
        s
    } else {
        s + Seq::new((width - s.len()) as nat, |i: int| ' ')
    }
}

/// Appends `padded(s, width)` to `out`.
fn push_padded(out: &mut Vec<char>, s: &Vec<char>, width: usize)
    ensures
        final(out)@ == old(out)@ + padded(s@, width as nat),
{
    push_range(out, s, 0, s.len());
    assert(s@.subrange(0, s@.len() as int) == s@);
    let mut n: usize = s.len();
    while n < width
        invariant
            s.len() <= n,
            n <= width || n == s.len(),
            out@ == old(out)@ + s@ + Seq::new((n - s.len()) as nat, |i: int| ' '),
        decreases width - n,
    {
        out.push(' ');
        assert(out@ =~= old(out)@ + s@ + Seq::new((n + 1 - s.len()) as nat, |i: int| ' '));
        n += 1;
    }
    assert(out@ =~= old(out)@ + padded(s@, width as nat));
}

/// The line that lists a worktree: its name, block, offset and the state of its
/// working directory in columns, then its branch and its path.
pub open spec fn ls_spec(a: AllocationView, status: Seq<char>) -> Seq<char> {
    padded(a.name, 28) + "  block="@ + padded(signed_decimal(a.block), 3) + "  offset="@ + padded(
        signed_decimal(a.offset),
        4,
    ) + "  "@ + padded(status, 5) + "  "@ + a.branch + "  ("@ + a.path + ")"@
}

/// The line that lists a worktree.
pub fn ls_line(a: &Allocation, status: &str) -> (r: String)
    ensures
        r@ == ls_spec(a@, status@),
{
    let mut out: Vec<char> = Vec::new();
    push_padded(&mut out, &chars_of(a.name.as_str()), 28);
    let l1 = chars_of("  block=");
    push_range(&mut out, &l1, 0, l1.len());
    push_padded(&mut out, &render_signed(a.block as i64), 3);
    let l2 = chars_of("  offset=");
    push_range(&mut out, &l2, 0, l2.len());
    push_padded(&mut out, &render_signed(a.offset as i64), 4);
    let l3 = chars_of("  ");
    push_range(&mut out, &l3, 0, l3.len());
    push_padded(&mut out, &chars_of(status), 5);
    push_range(&mut out, &l3, 0, l3.len());
    let branch = chars_of(a.branch.as_str());
    push_range(&mut out, &branch, 0, branch.len());
    let l4 = chars_of("  (");
    push_range(&mut out, &l4, 0, l4.len());
    let path = chars_of(a.path.as_str());
    push_range(&mut out, &path, 0, path.len());
    let l5 = chars_of(")");
    push_range(&mut out, &l5, 0, l5.len());
    proof {
        assert(l1@.subrange(0, l1@.len() as int) == l1@);
        assert(l2@.subrange(0, l2@.len() as int) == l2@);
        assert(l3@.subrange(0, l3@.len() as int) == l3@);
        assert(l4@.subrange(0, l4@.len() as int) == l4@);
        assert(l5@.subrange(0, l5@.len() as int) == l5@);
        assert(branch@.subrange(0, branch@.len() as int) == branch@);
        assert(path@.subrange(0, path@.len() as int) == path@);
        assert(out@ =~= ls_spec(a@, status@));
    }
    string_of(&out)
}

} // verus!
