//! What is read from git: where a repository lies, and which paths it is told to ignore.

use vstd::prelude::*;
use crate::supabase::split_lines;
use crate::text::{
    chars_of, ends_with, has_at, push_range, same_chars, skip_class, string_of, strip,
    strip_range, text_of, trim_chars, CharClass,
};

verus! {

/// Whether a line of `text` is `p`, white space around the line aside.
pub open spec fn has_line(text: Seq<char>, p: Seq<char>) -> bool {
    exists|i: int|
        0 <= i < split_lines(text).len() && strip(#[trigger] split_lines(text)[i], CharClass::Space)
            == p
}

/// The lines of a text, each without the white space around it.
pub fn stripped_lines(text: &str) -> (r: Vec<Vec<char>>)
    ensures
        r.len() == split_lines(text@).len(),
        forall|i: int|
            0 <= i < r.len() ==> (#[trigger] r[i])@ == strip(split_lines(text@)[i], CharClass::Space),
{
    let v = chars_of(text);
    let mut r: Vec<Vec<char>> = Vec::new();
    let mut i: usize = 0;
    let mut finished = false;
    let ghost mut done: Seq<Seq<char>> = Seq::empty();
    assert(v@.skip(0) == v@);
    assert(done + split_lines(v@) == split_lines(v@));
    while !finished
        invariant
            i <= v.len(),
            v@ == text@,
            finished ==> done == split_lines(v@),
            !finished ==> done + split_lines(v@.skip(i as int)) == split_lines(v@),
            r.len() == done.len(),
            forall|k: int| 0 <= k < r.len() ==> (#[trigger] r[k])@ == strip(done[k], CharClass::Space),
        decreases v.len() - i + (if finished { 0int } else { 1int }),
    {
        let ghost rest = v@.skip(i as int);
        let j = skip_class(&v, i, CharClass::Inline);
        let line = strip_range(&v, i, j, CharClass::Space);
        let ghost raw = v@.subrange(i as int, j as int);
        let ghost tail_lines = if j < v.len() {
            split_lines(rest.skip(j - i + 1))
        } else {
            Seq::<Seq<char>>::empty()
        };
        proof {
            assert(raw =~= rest.take(j - i));
            if j == v.len() {
                assert(rest.take(j - i) == rest);
            }
            assert(split_lines(rest) == seq![raw] + tail_lines);
            assert(done + split_lines(rest) =~= done.push(raw) + tail_lines);
        }
        let ghost before = r@;
        r.push(line);
        proof {
            assert forall|k: int| 0 <= k < r.len() implies (#[trigger] r[k])@ == strip(
                done.push(raw)[k],
                CharClass::Space,
            ) by {
                if k < before.len() {
                    assert(r[k] == before[k]);
                }
            }
            done = done.push(raw);
        }
        if j == v.len() {
            finished = true;
            assert(done + tail_lines == done);
        } else {
            assert(rest.skip(j - i + 1) =~= v@.skip(j + 1));
            i = j + 1;
        }
    }
    r
}

/// Whether one of the lines is `p`.
fn among(lines: &Vec<Vec<char>>, p: &Vec<char>) -> (r: bool)
    ensures
        r == exists|i: int| 0 <= i < lines.len() && (#[trigger] lines[i])@ == p@,
{
    let mut i: usize = 0;
    while i < lines.len()
        invariant
            i <= lines.len(),
            forall|k: int| 0 <= k < i ==> (#[trigger] lines[k])@ != p@,
        decreases lines.len() - i,
    {
        if same_chars(&lines[i], p) {
            return true;
        }
        i += 1;
    }
    false
}

/// The views of the patterns.
pub open spec fn pattern_texts(patterns: Seq<&str>) -> Seq<Seq<char>> {
    patterns.map_values(|p: &str| p@)
}

/// The lines to add for the patterns: each pattern without the white space around it,
/// on a line of its own, unless nothing is left of it or a line of `existing` says the
/// same.
pub open spec fn added_lines(existing: Seq<char>, patterns: Seq<Seq<char>>) -> Seq<char>
    decreases patterns.len(),
{
    if patterns.len() == 0 {
        Seq::empty()
    } else {
        let p = strip(patterns.last(), CharClass::Space);
        if p.len() == 0 || has_line(existing, p) {
            added_lines(existing, patterns.drop_last())
        } else {
            added_lines(existing, patterns.drop_last()) + p + seq!['\n']
        }
    }
}

/// The text with a line feed added where it is not empty and does not end in one.
pub open spec fn closed_text(existing: Seq<char>) -> Seq<char> {
    if existing.len() > 0 && existing.last() != '\n' {
        existing.push('\n')
    } else {
        existing
    }
}

/// What the list of ignored paths is to hold once the patterns are in it, or `None`
/// where it holds them all and need not be written.
pub open spec fn exclude_spec(existing: Seq<char>, patterns: Seq<Seq<char>>) -> Option<Seq<char>> {
    let out = closed_text(existing) + added_lines(existing, patterns);
    if out == existing {
        None
    } else {
        Some(out)
    }
}

/// Adds the patterns that are missing to the text of a list of ignored paths. The
/// result is the new text, or `None` where nothing is missing and the text ends as it
/// should, so that nothing needs to be written.
pub fn ensure_info_exclude(existing: &str, patterns: &[&str]) -> (r: Option<String>)
    ensures
        text_of(r) == exclude_spec(existing@, pattern_texts(patterns@)),
{
    let lines = stripped_lines(existing);
    let mut out = chars_of(existing);
    let n0 = out.len();
    if out.len() > 0 && out[out.len() - 1] != '\n' {
        out.push('\n');
    }
    let ghost base = out@;
    assert(base == closed_text(existing@));
    let ghost pats = pattern_texts(patterns@);
    let mut i: usize = 0;
    while i < patterns.len()
        invariant
            i <= patterns.len(),
            pats == pattern_texts(patterns@),
            out@ == base + added_lines(existing@, pats.take(i as int)),
            lines.len() == split_lines(existing@).len(),
            forall|k: int|
                0 <= k < lines.len() ==> (#[trigger] lines[k])@ == strip(
                    split_lines(existing@)[k],
                    CharClass::Space,
                ),
        decreases patterns.len() - i,
    {
        let p = trim_chars(patterns[i]);
        proof {
            assert(pats.take(i + 1).drop_last() =~= pats.take(i as int));
            assert(pats.take(i + 1).last() == patterns@[i as int]@);
        }
        let known = among(&lines, &p);
        proof {
            if known {
                let k = choose|k: int| 0 <= k < lines.len() && (#[trigger] lines[k])@ == p@;
                assert(strip(split_lines(existing@)[k], CharClass::Space) == p@);
            }
            if has_line(existing@, p@) {
                let k = choose|k: int|
                    0 <= k < split_lines(existing@).len() && strip(
                        #[trigger] split_lines(existing@)[k],
                        CharClass::Space,
                    ) == p@;
                assert(lines[k]@ == p@);
            }
        }
        if p.len() > 0 && !known {
            push_range(&mut out, &p, 0, p.len());
            out.push('\n');
            assert(p@.subrange(0, p@.len() as int) == p@);
            assert(out@ =~= base + added_lines(existing@, pats.take(i + 1)));
        }
        i += 1;
    }
    assert(pats.take(patterns.len() as int) == pats);
    if out.len() == n0 {
        assert(out@ =~= existing@);
        None
    } else {
        Some(string_of(&out))
    }
}

/// Where a repository lies.
#[derive(Debug)]
pub struct Repo {
    /// The root of the main working directory.
    pub root: String,
    /// The directory that all worktrees of the repository share.
    pub common_dir: String,
}

/// Why the place of a repository cannot be told.
#[derive(Clone, Copy, Debug, PartialEq, Eq, Structural)]
pub enum RepoError {
    /// Git named no shared directory.
    EmptyCommonDir,
}

/// The shared directory as an absolute path: as git gave it where it begins with `/`,
/// else below the top level of the working directory.
pub open spec fn common_dir_spec(top: Seq<char>, common: Seq<char>) -> Seq<char> {
    if common[0] == '/' {
        common
    } else if top.len() > 0 && top.last() == '/' {
        top + common
    } else {
        top + seq!['/'] + common
    }
}

/// The last part of the shared directory where the repository keeps it in its main
/// working directory.
pub open spec fn dot_git() -> Seq<char> {
    "/.git"@
}

/// The root of the main working directory: the directory that holds the shared
/// directory where that is called `.git`, the root directory if nothing stands before
/// it, and else the top level of the working directory that git was asked in.
pub open spec fn root_spec(top: Seq<char>, common_dir: Seq<char>) -> Seq<char> {
    if ends_with(common_dir, dot_git()) {
        if common_dir.len() == dot_git().len() {
            seq!['/']
        } else {
            common_dir.take(common_dir.len() - dot_git().len())
        }
    } else {
        top
    }
}

/// Tells where a repository lies from what git answers when asked, in a working
/// directory, for its top level and for the shared directory. White space around the
/// answers does not count.
pub fn detect_repo(toplevel: &str, common: &str) -> (r: Result<Repo, RepoError>)
    ensures
        match r {
            Ok(repo) => {
                &&& strip(common@, CharClass::Space).len() > 0
                &&& repo.common_dir@ == common_dir_spec(
                    strip(toplevel@, CharClass::Space),
                    strip(common@, CharClass::Space),
                )
                &&& repo.root@ == root_spec(strip(toplevel@, CharClass::Space), repo.common_dir@)
            },
            Err(e) => e == RepoError::EmptyCommonDir && strip(common@, CharClass::Space).len() == 0,
        },
{
    let top = trim_chars(toplevel);
    let c = trim_chars(common);
    if c.len() == 0 {
        return Err(RepoError::EmptyCommonDir);
    }
    let mut dir: Vec<char> = Vec::new();
    if c[0] != '/' {
        push_range(&mut dir, &top, 0, top.len());
        assert(top@.subrange(0, top@.len() as int) == top@);
        if !(top.len() > 0 && top[top.len() - 1] == '/') {
            dir.push('/');
        }
    }
    push_range(&mut dir, &c, 0, c.len());
    assert(c@.subrange(0, c@.len() as int) == c@);
    assert(dir@ =~= common_dir_spec(top@, c@));
    let lit = chars_of("/.git");
    let held = lit.len() <= dir.len() && has_at(&dir, dir.len() - lit.len(), &lit);
    proof {
        if lit.len() <= dir.len() {
            assert(dir@.skip(dir.len() - lit.len()).take(lit.len() as int) =~= dir@.skip(
                dir.len() - lit.len(),
            ));
        }
        assert(held == ends_with(dir@, dot_git()));
    }
    let mut root: Vec<char> = Vec::new();
    if held {
        if dir.len() == lit.len() {
            root.push('/');
        } else {
            push_range(&mut root, &dir, 0, dir.len() - lit.len());
            assert(dir@.subrange(0, dir.len() - lit.len()) == dir@.take(dir.len() - lit.len()));
        }
    } else {
        root = top;
    }
    Ok(Repo { root: string_of(&root), common_dir: string_of(&dir) })
}

} // verus!
