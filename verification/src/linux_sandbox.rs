//! Confining a shell command with bubblewrap: the argument list that builds
//! its namespace, the choice of the `bwrap` executable, and the checks that
//! decide which git metadata outside the workspace it may write.
//!
//! What is on disk (which paths exist, where links lead, what files hold)
//! is looked up by the caller and handed in; every path here is canonical:
//! absolute, without `.`, `..`, empty components or a trailing `/`.

use crate::text::{has_prefix, lines, texts, trim};
use vstd::prelude::*;
use vstd::string::StringExecFns;

verus! {

/// The index of the last `/` in `p`, if there is one.
pub open spec fn last_slash(p: Seq<char>) -> Option<int>
    decreases p.len(),
{
    if p.len() == 0 {
        None
    } else if p.last() == '/' {
        Some(p.len() - 1)
    } else {
        last_slash(p.drop_last())
    }
}

/// `Path::parent` of a canonical path: none for `/`, `/` for a top-level
/// entry, else everything before the last `/`.
pub open spec fn parent(p: Seq<char>) -> Option<Seq<char>> {
    if p == seq!['/'] {
        None
    } else {
        match last_slash(p) {
            Some(i) => if i == 0 {
                Some(seq!['/'])
            } else {
                Some(p.take(i))
            },
            None => None,
        }
    }
}

/// `Path::file_name` of a canonical path: what follows the last `/`.
pub open spec fn file_name(p: Seq<char>) -> Option<Seq<char>> {
    if p == seq!['/'] {
        None
    } else {
        match last_slash(p) {
            Some(i) => Some(p.skip(i + 1)),
            None => Some(p),
        }
    }
}

/// `Path::starts_with` on canonical paths: `base` is `p` or one of its
/// ancestors, compared component by component.
pub open spec fn path_starts_with(p: Seq<char>, base: Seq<char>) -> bool {
    ||| p == base
    ||| base == seq!['/'] && p.len() > 0 && p[0] == '/'
    ||| has_prefix(p, base) && p.len() > base.len() && p[base.len() as int] == '/'
}

fn last_slash_in(p: &[char]) -> (r: Option<usize>)
    ensures
        match r {
            Some(i) => last_slash(p@) == Some(i as int) && i < p.len(),
            None => last_slash(p@) is None,
        },
{
    let mut i: usize = p.len();
    assert(p@.take(i as int) =~= p@);
    while i > 0 && p[i - 1] != '/'
        invariant
            i <= p.len(),
            last_slash(p@) == last_slash(p@.take(i as int)),
        decreases i,
    {
        assert(p@.take(i as int).drop_last() =~= p@.take(i - 1));
        i -= 1;
    }
    if i == 0 {
        assert(p@.take(0) =~= Seq::<char>::empty());
        None
    } else {
        assert(p@.take(i as int).last() == '/');
        Some(i - 1)
    }
}

pub fn parent_of(p: &[char]) -> (r: Option<Vec<char>>)
    ensures
        match r {
            Some(q) => parent(p@) == Some(q@),
            None => parent(p@) is None,
        },
{
    if p.len() == 1 && p[0] == '/' {
        assert(p@ =~= seq!['/']);
        return None;
    }
    assert(p@ != seq!['/']);
    match last_slash_in(p) {
        Some(0) => {
            let mut r = Vec::new();
            r.push('/');
            assert(r@ =~= seq!['/']);
            Some(r)
        },
        Some(i) => Some(crate::text::slice_range(p, 0, i)),
        None => None,
    }
}

pub fn file_name_of(p: &[char]) -> (r: Option<Vec<char>>)
    ensures
        match r {
            Some(q) => file_name(p@) == Some(q@),
            None => file_name(p@) is None,
        },
{
    if p.len() == 1 && p[0] == '/' {
        assert(p@ =~= seq!['/']);
        return None;
    }
    assert(p@ != seq!['/']);
    match last_slash_in(p) {
        Some(i) => Some(crate::text::slice_from(p, i + 1)),
        None => Some(crate::text::slice_from(p, 0)),
    }
}

pub fn starts_with_path(p: &[char], base: &[char]) -> (r: bool)
    ensures
        r == path_starts_with(p@, base@),
{
    if crate::text::same_chars(p, base) {
        return true;
    }
    if base.len() == 1 && base[0] == '/' {
        assert(base@ =~= seq!['/']);
        return p.len() > 0 && p[0] == '/';
    }
    proof {
        if base@ == seq!['/'] {
            assert(base@.len() == 1 && base@[0] == '/');
        }
    }
    crate::text::starts_with(p, base) && p.len() > base.len() && p[base.len()] == '/'
}

} // verus!

verus! {

// ---------------------------------------------------------------------------
// The bubblewrap command line
// ---------------------------------------------------------------------------

/// What the namespace is built from, as the caller found it on disk.
pub struct SandboxLayout {
    /// The read-only paths, in the order they are bound.
    pub read_paths: Vec<String>,
    /// Whether `/etc/ssh` is a directory (it is then hidden).
    pub etc_ssh_is_dir: bool,
    /// The SSH agent socket, when there is one.
    pub ssh_agent_socket: Option<String>,
    /// `(target, link)` for each of `/bin`, `/sbin`, `/lib`, `/lib64` that
    /// is a symbolic link.
    pub symlinks: Vec<(String, String)>,
    /// Git metadata outside the workspace that commands may write.
    pub git_paths: Vec<String>,
    pub workspace: String,
    pub cwd: String,
    pub scratch: String,
}

pub open spec fn repeat_bind(flag: Seq<char>, paths: Seq<String>) -> Seq<Seq<char>>
    decreases paths.len(),
{
    if paths.len() == 0 {
        Seq::empty()
    } else {
        repeat_bind(flag, paths.drop_last()) + seq![flag, paths.last()@, paths.last()@]
    }
}

pub open spec fn symlink_args(links: Seq<(String, String)>) -> Seq<Seq<char>>
    decreases links.len(),
{
    if links.len() == 0 {
        Seq::empty()
    } else {
        symlink_args(links.drop_last()) + seq!["--symlink"@, links.last().0@, links.last().1@]
    }
}

pub open spec fn head_args() -> Seq<Seq<char>> {
    seq![
        "--unshare-user"@,
        "--unshare-pid"@,
        "--unshare-ipc"@,
        "--unshare-uts"@,
        "--new-session"@,
        "--die-with-parent"@,
        "--proc"@,
        "/proc"@,
        "--dev"@,
        "/dev"@,
        "--tmpfs"@,
        "/tmp"@,
    ]
}

pub open spec fn ssh_dir_args(is_dir: bool) -> Seq<Seq<char>> {
    if is_dir {
        seq!["--tmpfs"@, "/etc/ssh"@]
    } else {
        Seq::empty()
    }
}

pub open spec fn socket_bind_args(socket: Option<String>) -> Seq<Seq<char>> {
    match socket {
        Some(s) => seq!["--bind"@, s@, s@],
        None => Seq::empty(),
    }
}

pub open spec fn own_dir_args(layout: SandboxLayout) -> Seq<Seq<char>> {
    seq![
        "--bind"@,
        layout.workspace@,
        layout.workspace@,
        "--bind"@,
        layout.scratch@,
        layout.scratch@,
        "--chdir"@,
        layout.cwd@,
    ]
}

pub open spec fn socket_env_args(socket: Option<String>) -> Seq<Seq<char>> {
    match socket {
        Some(s) => seq!["--setenv"@, "SSH_AUTH_SOCK"@, s@],
        None => Seq::empty(),
    }
}

pub open spec fn tail_args(scratch: Seq<char>, command: Seq<char>) -> Seq<Seq<char>> {
    seq![
        "--setenv"@,
        "TMPDIR"@,
        scratch,
        "--setenv"@,
        "TMP"@,
        scratch,
        "--setenv"@,
        "TEMP"@,
        scratch,
        "/bin/bash"@,
        "-c"@,
        command,
    ]
}

/// The arguments to `bwrap` that run `command` under `bash -c` in a fresh
/// namespace: new user, pid, ipc and uts namespaces and session, dying with
/// its parent; `/proc`, `/dev` and a private `/tmp`; the read-only paths;
/// `/etc/ssh` hidden when present; the agent socket; the merged-`/usr`
/// links; the writable git metadata, workspace and scratch directory; the
/// working directory; and the temporary-directory variables pointing into
/// scratch.
pub open spec fn bubblewrap_arg_list(layout: SandboxLayout, command: Seq<char>) -> Seq<Seq<char>> {
    head_args() + repeat_bind("--ro-bind-try"@, layout.read_paths@) + ssh_dir_args(
        layout.etc_ssh_is_dir,
    ) + socket_bind_args(layout.ssh_agent_socket) + symlink_args(layout.symlinks@) + repeat_bind(
        "--bind-try"@,
        layout.git_paths@,
    ) + own_dir_args(layout) + socket_env_args(layout.ssh_agent_socket) + tail_args(
        layout.scratch@,
        command,
    )
}

fn arg(out: &mut Vec<String>, a: &str)
    ensures
        texts(final(out)@) == texts(old(out)@).push(a@),
{
    let ghost before = texts(out@);
    out.push(String::from_str(a));
    assert(texts(out@) =~= before.push(a@));
}

fn push_head(out: &mut Vec<String>)
    ensures
        texts(final(out)@) == texts(old(out)@) + head_args(),
{
    let ghost start = texts(out@);
    arg(out, "--unshare-user");
    arg(out, "--unshare-pid");
    arg(out, "--unshare-ipc");
    arg(out, "--unshare-uts");
    arg(out, "--new-session");
    arg(out, "--die-with-parent");
    arg(out, "--proc");
    arg(out, "/proc");
    arg(out, "--dev");
    arg(out, "/dev");
    arg(out, "--tmpfs");
    arg(out, "/tmp");
    assert(texts(out@) =~= start + head_args());
}

fn push_ssh_dir(out: &mut Vec<String>, is_dir: bool)
    ensures
        texts(final(out)@) == texts(old(out)@) + ssh_dir_args(is_dir),
{
    let ghost start = texts(out@);
    if is_dir {
        arg(out, "--tmpfs");
        arg(out, "/etc/ssh");
    }
    assert(texts(out@) =~= start + ssh_dir_args(is_dir));
}

fn push_socket_bind(out: &mut Vec<String>, socket: &Option<String>)
    ensures
        texts(final(out)@) == texts(old(out)@) + socket_bind_args(*socket),
{
    let ghost start = texts(out@);
    match socket {
        Some(s) => {
            arg(out, "--bind");
            arg(out, s.as_str());
            arg(out, s.as_str());
        },
        None => {},
    }
    assert(texts(out@) =~= start + socket_bind_args(*socket));
}

fn push_symlinks(out: &mut Vec<String>, links: &Vec<(String, String)>)
    ensures
        texts(final(out)@) == texts(old(out)@) + symlink_args(links@),
{
    let ghost start = texts(out@);
    let mut i: usize = 0;
    assert(links@.take(0) =~= Seq::<(String, String)>::empty());
    while i < links.len()
        invariant
            i <= links.len(),
            texts(out@) == start + symlink_args(links@.take(i as int)),
        decreases links.len() - i,
    {
        assert(links@.take(i + 1).drop_last() =~= links@.take(i as int));
        arg(out, "--symlink");
        arg(out, links[i].0.as_str());
        arg(out, links[i].1.as_str());
        assert(texts(out@) =~= start + symlink_args(links@.take(i + 1)));
        i += 1;
    }
    assert(links@.take(links.len() as int) =~= links@);
}

fn push_own_dirs(out: &mut Vec<String>, layout: &SandboxLayout)
    ensures
        texts(final(out)@) == texts(old(out)@) + own_dir_args(*layout),
{
    let ghost start = texts(out@);
    arg(out, "--bind");
    arg(out, layout.workspace.as_str());
    arg(out, layout.workspace.as_str());
    arg(out, "--bind");
    arg(out, layout.scratch.as_str());
    arg(out, layout.scratch.as_str());
    arg(out, "--chdir");
    arg(out, layout.cwd.as_str());
    assert(texts(out@) =~= start + own_dir_args(*layout));
}

fn push_socket_env(out: &mut Vec<String>, socket: &Option<String>)
    ensures
        texts(final(out)@) == texts(old(out)@) + socket_env_args(*socket),
{
    let ghost start = texts(out@);
    match socket {
        Some(s) => {
            arg(out, "--setenv");
            arg(out, "SSH_AUTH_SOCK");
            arg(out, s.as_str());
        },
        None => {},
    }
    assert(texts(out@) =~= start + socket_env_args(*socket));
}

fn push_tail(out: &mut Vec<String>, scratch: &str, command: &str)
    ensures
        texts(final(out)@) == texts(old(out)@) + tail_args(scratch@, command@),
{
    let ghost start = texts(out@);
    arg(out, "--setenv");
    arg(out, "TMPDIR");
    arg(out, scratch);
    arg(out, "--setenv");
    arg(out, "TMP");
    arg(out, scratch);
    arg(out, "--setenv");
    arg(out, "TEMP");
    arg(out, scratch);
    arg(out, "/bin/bash");
    arg(out, "-c");
    arg(out, command);
    assert(texts(out@) =~= start + tail_args(scratch@, command@));
}

fn bind_all(out: &mut Vec<String>, flag: &str, paths: &Vec<String>)
    ensures
        texts(final(out)@) == texts(old(out)@) + repeat_bind(flag@, paths@),
{
    let ghost start = texts(out@);
    let mut i: usize = 0;
    assert(paths@.take(0) =~= Seq::<String>::empty());
    while i < paths.len()
        invariant
            i <= paths.len(),
            texts(out@) == start + repeat_bind(flag@, paths@.take(i as int)),
        decreases paths.len() - i,
    {
        assert(paths@.take(i + 1).drop_last() =~= paths@.take(i as int));
        arg(out, flag);
        arg(out, paths[i].as_str());
        arg(out, paths[i].as_str());
        assert(texts(out@) =~= start + repeat_bind(flag@, paths@.take(i + 1)));
        i += 1;
    }
    assert(paths@.take(paths.len() as int) =~= paths@);
}

/// The `bwrap` arguments for running `command` confined as `layout` says.
pub fn bubblewrap_args(layout: &SandboxLayout, command: &str) -> (r: Vec<String>)
    ensures
        texts(r@) == bubblewrap_arg_list(*layout, command@),
{
    let mut out: Vec<String> = Vec::new();
    assert(texts(out@) =~= Seq::empty());
    push_head(&mut out);
    bind_all(&mut out, "--ro-bind-try", &layout.read_paths);
    push_ssh_dir(&mut out, layout.etc_ssh_is_dir);
    push_socket_bind(&mut out, &layout.ssh_agent_socket);
    push_symlinks(&mut out, &layout.symlinks);
    bind_all(&mut out, "--bind-try", &layout.git_paths);
    push_own_dirs(&mut out, layout);
    push_socket_env(&mut out, &layout.ssh_agent_socket);
    push_tail(&mut out, layout.scratch.as_str(), command);
    assert(texts(out@) =~= bubblewrap_arg_list(*layout, command@));
    out
}

} // verus!

verus! {

// ---------------------------------------------------------------------------
// Choosing the executable
// ---------------------------------------------------------------------------

/// The first candidate along `PATH` that is an executable file (given as
/// its canonical path; `None` for a candidate that is not) and does not lie
/// in the workspace, so that a file planted there cannot stand in for it.
pub open spec fn chosen_executable(candidates: Seq<Option<String>>, workspace: Option<Seq<char>>) -> Option<
    Seq<char>,
>
    decreases candidates.len(),
{
    if candidates.len() == 0 {
        None
    } else {
        match candidates[0] {
            Some(c) => if workspace matches Some(w) && path_starts_with(c@, w) {
                chosen_executable(candidates.drop_first(), workspace)
            } else {
                Some(c@)
            },
            None => chosen_executable(candidates.drop_first(), workspace),
        }
    }
}

pub fn executable_in_paths(candidates: &Vec<Option<String>>, workspace: &Option<String>) -> (r:
    Option<String>)
    ensures
        match r {
            Some(c) => chosen_executable(
                candidates@,
                match workspace {
                    Some(w) => Some(w@),
                    None => None,
                },
            ) == Some(c@),
            None => chosen_executable(
                candidates@,
                match workspace {
                    Some(w) => Some(w@),
                    None => None,
                },
            ) is None,
        },
{
    let ghost ws: Option<Seq<char>> = match workspace {
        Some(w) => Some(w@),
        None => None,
    };
    let root = match workspace {
        Some(w) => Some(crate::text::chars_of(w.as_str())),
        None => None,
    };
    let mut i: usize = 0;
    assert(candidates@.skip(0) =~= candidates@);
    while i < candidates.len()
        invariant
            i <= candidates.len(),
            ws == (match workspace {
                Some(w) => Some(w@),
                None => None,
            }),
            root is Some <==> ws is Some,
            root matches Some(r) ==> ws == Some(r@),
            chosen_executable(candidates@, ws) == chosen_executable(candidates@.skip(i as int), ws),
        decreases candidates.len() - i,
    {
        assert(candidates@.skip(i as int).drop_first() =~= candidates@.skip(i + 1));
        assert(candidates@.skip(i as int)[0] == candidates@[i as int]);
        match &candidates[i] {
            Some(c) => {
                let cc = crate::text::chars_of(c.as_str());
                let inside = match &root {
                    Some(r) => starts_with_path(cc.as_slice(), r.as_slice()),
                    None => false,
                };
                if !inside {
                    return Some(c.clone());
                }
            },
            None => {},
        }
        i += 1;
    }
    None
}

// ---------------------------------------------------------------------------
// Git metadata outside the workspace
// ---------------------------------------------------------------------------

/// The target of the first `gitdir:` line of a `.git` file, trimmed.
pub open spec fn gitdir_in(ls: Seq<Seq<char>>) -> Option<Seq<char>>
    decreases ls.len(),
{
    if ls.len() == 0 {
        None
    } else if has_prefix(ls[0], "gitdir:"@) {
        Some(trim(ls[0].skip("gitdir:"@.len() as int)))
    } else {
        gitdir_in(ls.drop_first())
    }
}

pub fn gitdir_target(contents: &str) -> (r: Option<String>)
    ensures
        match r {
            Some(t) => gitdir_in(lines(contents@)) == Some(t@),
            None => gitdir_in(lines(contents@)) is None,
        },
{
    let cs = crate::text::chars_of(contents);
    let ls = crate::text::lines_of(cs.as_slice());
    let prefix = crate::text::chars_of("gitdir:");
    let ghost all = lines(contents@);
    let mut i: usize = 0;
    assert(all.skip(0) =~= all);
    while i < ls.len()
        invariant
            i <= ls.len(),
            crate::text::views(ls@) == all,
            all == lines(contents@),
            prefix@ == "gitdir:"@,
            gitdir_in(all) == gitdir_in(all.skip(i as int)),
        decreases ls.len() - i,
    {
        assert(all.skip(i as int).drop_first() =~= all.skip(i + 1));
        assert(all.skip(i as int)[0] == ls@[i as int]@);
        if crate::text::starts_with(ls[i].as_slice(), prefix.as_slice()) {
            let rest = crate::text::slice_from(ls[i].as_slice(), prefix.len());
            let t = crate::text::trim_chars(rest.as_slice());
            let out = crate::text::string_of(t.as_slice());
            proof {
                let line = all.skip(i as int)[0];
                assert(line == ls@[i as int]@);
                assert(has_prefix(line, "gitdir:"@));
                assert(rest@ == line.skip("gitdir:"@.len() as int));
                assert(gitdir_in(all.skip(i as int)) == Some(trim(rest@)));
            }
            return Some(out);
        }
        i += 1;
    }
    None
}

/// What the caller found on disk about a `.git` file pointing at a linked
/// worktree's git directory.
pub struct WorktreeFacts {
    /// The workspace's `.git`, canonical.
    pub dot_git: Option<String>,
    /// Where the git directory's `gitdir` file points back to, resolved
    /// against the git directory and canonical.
    pub backpointer: Option<String>,
    /// Whether the git directory has a readable `commondir` file.
    pub has_commondir: bool,
    /// The real directory `commondir` names, resolved against the raw git
    /// directory and against the canonical one.
    pub common_from_raw: Option<String>,
    pub common: Option<String>,
    /// The real directory of the nearest ancestor of the raw git directory
    /// named `.git`.
    pub raw_common: Option<String>,
    /// Whether some ancestor of the workspace has `common` as its real
    /// `.git` directory.
    pub ancestor_has_common: bool,
    /// The git directory, canonical.
    pub git_dir: String,
}

pub open spec fn opt_text(o: Option<String>) -> Option<Seq<char>> {
    match o {
        Some(s) => Some(s@),
        None => None,
    }
}

/// The paths a linked worktree may write: its git directory and the
/// repository's common `.git`, granted only when the backlink leads back to
/// this workspace, both routes to the common directory agree and match the
/// raw path's own `.git` ancestor, that directory is named `.git` and
/// belongs to a sibling checkout or to an ancestor of the workspace, and
/// the git directory sits under its `worktrees`.
pub open spec fn worktree_grant(f: WorktreeFacts) -> Seq<Seq<char>> {
    match (f.dot_git, f.backpointer, f.common) {
        (Some(dot_git), Some(back), Some(common)) => {
            let workspace_parent = match parent(dot_git@) {
                Some(p) => parent(p),
                None => None,
            };
            let common_grandparent = match parent(common@) {
                Some(p) => parent(p),
                None => None,
            };
            if back@ != dot_git@ || !f.has_commondir || opt_text(f.common_from_raw) != Some(
                common@,
            ) || opt_text(f.raw_common) != Some(common@) || workspace_parent is None || file_name(
                common@,
            ) != Some(".git"@) || (common_grandparent != workspace_parent
                && !f.ancestor_has_common) || !path_starts_with(f.git_dir@, common@ + "/worktrees"@) {
                Seq::empty()
            } else {
                seq![f.git_dir@, common@]
            }
        },
        _ => Seq::empty(),
    }
}

fn same_opt(a: &Option<String>, b: &Option<String>) -> (r: bool)
    ensures
        r == (opt_text(*a) == opt_text(*b)),
{
    match (a, b) {
        (Some(x), Some(y)) => {
            let p = crate::text::chars_of(x.as_str());
            let q = crate::text::chars_of(y.as_str());
            crate::text::same_chars(p.as_slice(), q.as_slice())
        },
        (None, None) => true,
        _ => false,
    }
}

fn same_opt_chars(a: &Option<Vec<char>>, b: &Option<Vec<char>>) -> (r: bool)
    ensures
        r == (match (a, b) {
            (Some(x), Some(y)) => x@ == y@,
            (None, None) => true,
            _ => false,
        }),
{
    match (a, b) {
        (Some(x), Some(y)) => crate::text::same_chars(x.as_slice(), y.as_slice()),
        (None, None) => true,
        _ => false,
    }
}

fn grandparent(p: &[char]) -> (r: Option<Vec<char>>)
    ensures
        match r {
            Some(q) => (match parent(p@) {
                Some(x) => parent(x),
                None => None,
            }) == Some(q@),
            None => (match parent(p@) {
                Some(x) => parent(x),
                None => None,
            }) is None,
        },
{
    match parent_of(p) {
        Some(x) => parent_of(x.as_slice()),
        None => None,
    }
}

/// The worktree paths to grant, as `worktree_grant` decides.
pub fn worktree_paths(f: &WorktreeFacts) -> (r: Vec<String>)
    ensures
        texts(r@) == worktree_grant(*f),
{
    let empty: Vec<String> = Vec::new();
    assert(texts(empty@) =~= Seq::empty());
    let (dot_git, back, common) = match (&f.dot_git, &f.backpointer, &f.common) {
        (Some(d), Some(b), Some(c)) => (d, b, c),
        _ => return empty,
    };
    let dc = crate::text::chars_of(dot_git.as_str());
    let bc = crate::text::chars_of(back.as_str());
    let cc = crate::text::chars_of(common.as_str());
    if !crate::text::same_chars(bc.as_slice(), dc.as_slice()) || !f.has_commondir {
        return empty;
    }
    let common_opt = Some(common.clone());
    if !same_opt(&f.common_from_raw, &common_opt) || !same_opt(&f.raw_common, &common_opt) {
        return empty;
    }
    let workspace_parent = grandparent(dc.as_slice());
    if workspace_parent.is_none() {
        return empty;
    }
    let name_ok = match file_name_of(cc.as_slice()) {
        Some(n) => crate::text::is_text(n.as_slice(), ".git"),
        None => false,
    };
    if !name_ok {
        return empty;
    }
    let common_grandparent = grandparent(cc.as_slice());
    if !same_opt_chars(&common_grandparent, &workspace_parent) && !f.ancestor_has_common {
        return empty;
    }
    let mut worktrees = crate::text::chars_of(common.as_str());
    let suffix = crate::text::chars_of("/worktrees");
    crate::json::push_all(&mut worktrees, suffix.as_slice());
    let gc = crate::text::chars_of(f.git_dir.as_str());
    if !starts_with_path(gc.as_slice(), worktrees.as_slice()) {
        return empty;
    }
    let mut r: Vec<String> = Vec::new();
    r.push(f.git_dir.clone());
    r.push(common.clone());
    assert(texts(r@) =~= seq![f.git_dir@, common@]);
    r
}

/// The `repo` tool's shared links a project may expose: `objects`, `hooks`
/// and `rr-cache`, each leading into `project-objects` to an entry of the
/// same name.
pub open spec fn repo_link_allowed(name: Seq<char>, target: Seq<char>, project_objects: Seq<char>) -> bool {
    &&& (name == "objects"@ || name == "hooks"@ || name == "rr-cache"@)
    &&& path_starts_with(target, project_objects)
    &&& file_name(target) == Some(name)
}

pub fn repo_link_ok(name: &str, target: &str, project_objects: &str) -> (r: bool)
    ensures
        r == repo_link_allowed(name@, target@, project_objects@),
{
    let nc = crate::text::chars_of(name);
    let n = nc.as_slice();
    if !(crate::text::is_text(n, "objects") || crate::text::is_text(n, "hooks")
        || crate::text::is_text(n, "rr-cache")) {
        return false;
    }
    let tc = crate::text::chars_of(target);
    let pc = crate::text::chars_of(project_objects);
    if !starts_with_path(tc.as_slice(), pc.as_slice()) {
        return false;
    }
    match file_name_of(tc.as_slice()) {
        Some(f) => crate::text::same_chars(f.as_slice(), n),
        None => false,
    }
}

/// A `repo` checkout's project git directory is this workspace's when it
/// is the git directory `.git` leads to and lies under `.repo/projects`.
pub fn repo_project_ok(project_git: &str, git_dir: &str, projects_root: &str) -> (r: bool)
    ensures
        r == (project_git@ == git_dir@ && path_starts_with(project_git@, projects_root@)),
{
    let pc = crate::text::chars_of(project_git);
    let gc = crate::text::chars_of(git_dir);
    let rc = crate::text::chars_of(projects_root);
    crate::text::same_chars(pc.as_slice(), gc.as_slice()) && starts_with_path(
        pc.as_slice(),
        rc.as_slice(),
    )
}

/// The `git config` key under which `.gitmodules` keeps a submodule's path.
pub fn submodule_key(name: &str) -> (r: String)
    ensures
        r@ == "submodule."@ + name@ + ".path"@,
{
    let mut k = String::from_str("submodule.");
    k.append(name);
    k.append(".path");
    k
}

} // verus!

verus! {

/// The last `/` lies within the path.
pub proof fn lemma_last_slash_bound(p: Seq<char>)
    ensures
        last_slash(p) matches Some(i) ==> 0 <= i < p.len() && p[i] == '/',
    decreases p.len(),
{
    if p.len() > 0 && p.last() != '/' {
        lemma_last_slash_bound(p.drop_last());
        if let Some(i) = last_slash(p.drop_last()) {
            assert(p[i] == p.drop_last()[i]);
        }
    }
}

/// A parent is shorter than its path.
pub proof fn lemma_parent_shorter(p: Seq<char>)
    ensures
        parent(p) matches Some(q) ==> q.len() < p.len(),
{
    lemma_last_slash_bound(p);
    if p != seq!['/'] {
        if let Some(i) = last_slash(p) {
            if i == 0 {
                assert(p.len() >= 2) by {
                    if p.len() == 1 {
                        assert(p =~= seq!['/']);
                    }
                }
            }
        }
    }
}

/// The nearest of `p` and its ancestors (as `Path::ancestors` gives them)
/// whose name is `.git`. `p` need not be canonical, but is written the way
/// `Path::components` gives it back: no empty or `.` components past the
/// first and no trailing `/`.
pub open spec fn nearest_dot_git(p: Seq<char>) -> Option<Seq<char>>
    decreases p.len(),
{
    if file_name(p) == Some(".git"@) {
        Some(p)
    } else {
        match parent(p) {
            Some(q) => {
                proof {
                    lemma_parent_shorter(p);
                }
                nearest_dot_git(q)
            },
            None => None,
        }
    }
}

/// The nearest `.git` among a raw git directory and its ancestors.
pub fn nearest_dot_git_of(p: &str) -> (r: Option<String>)
    ensures
        opt_text(r) == nearest_dot_git(p@),
{
    let mut cur = crate::text::chars_of(p);
    loop
        invariant
            nearest_dot_git(cur@) == nearest_dot_git(p@),
        decreases cur@.len(),
    {
        let named = match file_name_of(cur.as_slice()) {
            Some(n) => crate::text::is_text(n.as_slice(), ".git"),
            None => false,
        };
        if named {
            return Some(crate::text::string_of(cur.as_slice()));
        }
        match parent_of(cur.as_slice()) {
            Some(q) => {
                proof {
                    lemma_parent_shorter(cur@);
                }
                cur = q;
            },
            None => return None,
        }
    }
}

/// The name under which a superproject whose `.git` is `super_git` keeps
/// the submodule git directory `git_dir`: what follows its `modules`
/// directory (`Path::strip_prefix`), when `git_dir` lies there.
pub open spec fn module_name(git_dir: Seq<char>, super_git: Seq<char>) -> Option<Seq<char>> {
    let modules = super_git + "/modules"@;
    if git_dir == modules {
        Some(Seq::empty())
    } else if path_starts_with(git_dir, modules) {
        Some(git_dir.skip(modules.len() as int + 1))
    } else {
        None
    }
}

pub fn module_name_of(git_dir: &str, super_git: &str) -> (r: Option<String>)
    ensures
        opt_text(r) == module_name(git_dir@, super_git@),
{
    let mut modules = crate::text::chars_of(super_git);
    let suffix = crate::text::chars_of("/modules");
    crate::json::push_all(&mut modules, suffix.as_slice());
    let gc = crate::text::chars_of(git_dir);
    proof {
        reveal_strlit("/modules");
        assert(modules@.len() >= 8);
        assert(modules@ != seq!['/']);
    }
    if crate::text::same_chars(gc.as_slice(), modules.as_slice()) {
        return Some(String::new());
    }
    if starts_with_path(gc.as_slice(), modules.as_slice()) {
        let rest = crate::text::slice_from(gc.as_slice(), modules.len() + 1);
        return Some(crate::text::string_of(rest.as_slice()));
    }
    None
}

/// What the caller found at one ancestor of the workspace (nearest first).
pub struct AncestorGit {
    /// The ancestor's `.git`, when it is a real directory; canonical.
    pub super_git: Option<String>,
    /// The path the ancestor's `.gitmodules` gives for the submodule named
    /// by `module_name`, resolved against the ancestor and canonical; none
    /// where there is no such name or entry.
    pub gitmodules_path: Option<String>,
}

/// Whether the ancestor at `i` takes the submodule: its `.git` keeps the
/// git directory among its `modules`, and either the submodule's
/// `core.worktree` or the ancestor's `.gitmodules` entry leads to the
/// workspace.
pub open spec fn takes_submodule(
    a: AncestorGit,
    workspace: Seq<char>,
    git_dir: Seq<char>,
    worktree: Option<Seq<char>>,
) -> bool {
    &&& a.super_git matches Some(sg) && module_name(git_dir, sg@) is Some
    &&& (worktree == Some(workspace) || opt_text(a.gitmodules_path) == Some(workspace))
}

/// A submodule's git directory is granted when some ancestor of the
/// workspace takes it.
pub open spec fn submodule_granted(
    ancestors: Seq<AncestorGit>,
    workspace: Seq<char>,
    git_dir: Seq<char>,
    worktree: Option<Seq<char>>,
) -> Option<Seq<char>> {
    if exists|i: int|
        0 <= i < ancestors.len() && takes_submodule(#[trigger] ancestors[i], workspace, git_dir, worktree) {
        Some(git_dir)
    } else {
        None
    }
}

/// The submodule git directory to grant, if any. `worktree` is the
/// submodule's `core.worktree`, resolved against its git directory and
/// canonical.
pub fn submodule_grant(
    workspace: &str,
    git_dir: &str,
    worktree: &Option<String>,
    ancestors: &Vec<AncestorGit>,
) -> (r: Option<String>)
    ensures
        opt_text(r) == submodule_granted(ancestors@, workspace@, git_dir@, opt_text(*worktree)),
{
    let ws = Some(String::from_str(workspace));
    let worktree_ok = same_opt(worktree, &ws);
    let mut i: usize = 0;
    while i < ancestors.len()
        invariant
            i <= ancestors.len(),
            opt_text(ws) == Some(workspace@),
            worktree_ok == (opt_text(*worktree) == Some(workspace@)),
            forall|k: int|
                0 <= k < i ==> !takes_submodule(
                    #[trigger] ancestors@[k],
                    workspace@,
                    git_dir@,
                    opt_text(*worktree),
                ),
        decreases ancestors.len() - i,
    {
        let a = &ancestors[i];
        let under = match &a.super_git {
            Some(sg) => module_name_of(git_dir, sg.as_str()).is_some(),
            None => false,
        };
        if under && (worktree_ok || same_opt(&a.gitmodules_path, &ws)) {
            assert(takes_submodule(ancestors@[i as int], workspace@, git_dir@, opt_text(*worktree)));
            return Some(String::from_str(git_dir));
        }
        i += 1;
    }
    None
}

} // verus!

verus! {

pub open spec fn names(candidate: Option<String>, c: Seq<char>) -> bool {
    match candidate {
        Some(s) => s@ == c,
        None => false,
    }
}

/// The executable chosen never lies in the workspace, and it is one of the
/// candidates.
pub proof fn lemma_chosen_outside_workspace(candidates: Seq<Option<String>>, workspace: Seq<char>)
    ensures
        chosen_executable(candidates, Some(workspace)) matches Some(c) ==> !path_starts_with(
            c,
            workspace,
        ) && exists|i: int|
            0 <= i < candidates.len() && names(#[trigger] candidates[i], c),
    decreases candidates.len(),
{
    if candidates.len() > 0 {
        lemma_chosen_outside_workspace(candidates.drop_first(), workspace);
        if let Some(c) = chosen_executable(candidates, Some(workspace)) {
            if names(candidates[0], c) {
            } else {
                let i = choose|i: int|
                    0 <= i < candidates.drop_first().len() && names(
                        #[trigger] candidates.drop_first()[i],
                        c,
                    );
                assert(candidates[i + 1] == candidates.drop_first()[i]);
            }
        }
    }
}

/// A worktree is granted exactly its git directory under the common
/// directory's `worktrees`, and a common directory named `.git`.
pub proof fn lemma_worktree_grant_is_confined(f: WorktreeFacts)
    ensures
        worktree_grant(f).len() == 0 || worktree_grant(f).len() == 2,
        worktree_grant(f).len() == 2 ==> {
            let common = worktree_grant(f)[1];
            &&& worktree_grant(f)[0] == f.git_dir@
            &&& file_name(common) == Some(".git"@)
            &&& path_starts_with(f.git_dir@, common + "/worktrees"@)
            &&& opt_text(f.dot_git) == opt_text(f.backpointer)
        },
{
}

} // verus!

verus! {

/// The `lib` directory of the Node version NVM has active, when everything
/// lines up: `NVM_BIN` is a `bin` directory whose parent sits directly in
/// NVM's `versions/node`, and that version's `lib` is a real directory
/// right beside it. All three paths are canonical; `lib` is the real
/// directory at `<version>/lib`, if there is one.
pub open spec fn nvm_lib(bin: Seq<char>, node_versions: Seq<char>, lib: Option<Seq<char>>) -> Option<
    Seq<char>,
> {
    match (parent(bin), lib) {
        (Some(version_root), Some(l)) => if file_name(bin) == Some("bin"@) && parent(version_root)
            == Some(node_versions) && parent(l) == Some(version_root) {
            Some(l)
        } else {
            None
        },
        _ => None,
    }
}

pub fn nvm_lib_path(bin: &str, node_versions: &str, lib: &Option<String>) -> (r: Option<String>)
    ensures
        match r {
            Some(l) => nvm_lib(bin@, node_versions@, opt_text(*lib)) == Some(l@),
            None => nvm_lib(bin@, node_versions@, opt_text(*lib)) is None,
        },
{
    let bc = crate::text::chars_of(bin);
    let version_root = match parent_of(bc.as_slice()) {
        Some(v) => v,
        None => return None,
    };
    let l = match lib {
        Some(l) => l,
        None => return None,
    };
    let name_ok = match file_name_of(bc.as_slice()) {
        Some(n) => crate::text::is_text(n.as_slice(), "bin"),
        None => false,
    };
    if !name_ok {
        return None;
    }
    let versions_ok = match parent_of(version_root.as_slice()) {
        Some(p) => crate::text::is_text(p.as_slice(), node_versions),
        None => false,
    };
    if !versions_ok {
        return None;
    }
    let lc = crate::text::chars_of(l.as_str());
    let beside = match parent_of(lc.as_slice()) {
        Some(p) => crate::text::same_chars(p.as_slice(), version_root.as_slice()),
        None => false,
    };
    if !beside {
        return None;
    }
    Some(l.clone())
}

} // verus!

verus! {

proof fn lemma_symlink_args_len(links: Seq<(String, String)>)
    ensures
        symlink_args(links).len() == 3 * links.len(),
    decreases links.len(),
{
    if links.len() > 0 {
        lemma_symlink_args_len(links.drop_last());
    }
}

proof fn lemma_symlink_args_at(links: Seq<(String, String)>, k: int)
    requires
        0 <= k < links.len(),
    ensures
        symlink_args(links)[3 * k] == "--symlink"@,
        symlink_args(links)[3 * k + 1] == links[k].0@,
        symlink_args(links)[3 * k + 2] == links[k].1@,
    decreases links.len(),
{
    let rest = links.drop_last();
    let sa = symlink_args(rest);
    let t = seq!["--symlink"@, links.last().0@, links.last().1@];
    lemma_symlink_args_len(rest);
    assert(symlink_args(links) == sa + t);
    if k < rest.len() {
        lemma_symlink_args_at(rest, k);
        assert(rest[k] == links[k]);
    }
}

proof fn lemma_repeat_bind_len(flag: Seq<char>, paths: Seq<String>)
    ensures
        repeat_bind(flag, paths).len() == 3 * paths.len(),
    decreases paths.len(),
{
    if paths.len() > 0 {
        lemma_repeat_bind_len(flag, paths.drop_last());
    }
}

proof fn lemma_repeat_bind_at(flag: Seq<char>, paths: Seq<String>, k: int)
    requires
        0 <= k < paths.len(),
    ensures
        repeat_bind(flag, paths)[3 * k] == flag,
        repeat_bind(flag, paths)[3 * k + 1] == paths[k]@,
        repeat_bind(flag, paths)[3 * k + 2] == paths[k]@,
    decreases paths.len(),
{
    let rest = paths.drop_last();
    let sa = repeat_bind(flag, rest);
    let t = seq![flag, paths.last()@, paths.last()@];
    lemma_repeat_bind_len(flag, rest);
    assert(repeat_bind(flag, paths) == sa + t);
    if k < rest.len() {
        lemma_repeat_bind_at(flag, rest, k);
        assert(rest[k] == paths[k]);
    }
}

/// Three arguments in a row, from `i` on.
pub open spec fn triple_at(a: Seq<Seq<char>>, i: int, x: Seq<char>, y: Seq<char>, z: Seq<char>) -> bool {
    0 <= i && i + 2 < a.len() && a[i] == x && a[i + 1] == y && a[i + 2] == z
}

/// The three arguments `x y z` stand in a row somewhere before `end`.
pub open spec fn triple_before(a: Seq<Seq<char>>, end: int, x: Seq<char>, y: Seq<char>, z: Seq<char>) -> bool {
    exists|i: int| i + 2 < end && #[trigger] triple_at(a, i, x, y, z)
}

/// What the confined command line holds, whatever the layout: it opens
/// with fresh user, pid, ipc and uts namespaces, a new session, death with
/// the parent, `/proc`, `/dev` and a private `/tmp`; it ends by
/// running the command under `/bin/bash -c`; before that come, for every
/// merged-`/usr` link, `--symlink` with its target and link; for every
/// read-only path, `--ro-bind-try` with the path twice; for every git path,
/// `--bind-try` with the path twice; the workspace and the scratch
/// directory bound writable; and `--chdir` to the working directory.
pub proof fn lemma_bwrap_args_hold_the_layout(layout: SandboxLayout, command: Seq<char>)
    ensures
        ({
            let a = bubblewrap_arg_list(layout, command);
            let end = a.len() - 3;
            &&& a.len() >= 15
            &&& a.take(12) == seq![
                "--unshare-user"@,
                "--unshare-pid"@,
                "--unshare-ipc"@,
                "--unshare-uts"@,
                "--new-session"@,
                "--die-with-parent"@,
                "--proc"@,
                "/proc"@,
                "--dev"@,
                "/dev"@,
                "--tmpfs"@,
                "/tmp"@,
            ]
            &&& a[end] == "/bin/bash"@ && a[end + 1] == "-c"@ && a[end + 2] == command
            &&& forall|k: int|
                0 <= k < layout.symlinks@.len() ==> triple_before(
                    a,
                    end,
                    "--symlink"@,
                    (#[trigger] layout.symlinks@[k]).0@,
                    layout.symlinks@[k].1@,
                )
            &&& forall|k: int|
                0 <= k < layout.read_paths@.len() ==> triple_before(
                    a,
                    end,
                    "--ro-bind-try"@,
                    (#[trigger] layout.read_paths@[k])@,
                    layout.read_paths@[k]@,
                )
            &&& forall|k: int|
                0 <= k < layout.git_paths@.len() ==> triple_before(
                    a,
                    end,
                    "--bind-try"@,
                    (#[trigger] layout.git_paths@[k])@,
                    layout.git_paths@[k]@,
                )
            &&& triple_before(a, end, "--bind"@, layout.workspace@, layout.workspace@)
            &&& triple_before(a, end, "--bind"@, layout.scratch@, layout.scratch@)
            &&& exists|i: int| 0 <= i && i + 1 < end && #[trigger] a[i] == "--chdir"@ && a[i + 1] == layout.cwd@
        }),
{
    let a = bubblewrap_arg_list(layout, command);
    let h = head_args();
    let rb = repeat_bind("--ro-bind-try"@, layout.read_paths@);
    let ssh = ssh_dir_args(layout.etc_ssh_is_dir);
    let sock = socket_bind_args(layout.ssh_agent_socket);
    let sym = symlink_args(layout.symlinks@);
    let gb = repeat_bind("--bind-try"@, layout.git_paths@);
    let own = own_dir_args(layout);
    let env = socket_env_args(layout.ssh_agent_socket);
    let tail = tail_args(layout.scratch@, command);
    lemma_symlink_args_len(layout.symlinks@);
    lemma_repeat_bind_len("--ro-bind-try"@, layout.read_paths@);
    lemma_repeat_bind_len("--bind-try"@, layout.git_paths@);
    let p1 = h + rb;
    let p2 = p1 + ssh;
    let p3 = p2 + sock;
    let p4 = p3 + sym;
    let p5 = p4 + gb;
    let p6 = p5 + own;
    let p7 = p6 + env;
    assert(a == p7 + tail);
    assert(a.take(12) =~= h);
    let end = a.len() - 3;
    assert(tail.len() == 12);
    assert(end == p7.len() + 9);
    assert(a[end] == tail[9] && a[end + 1] == tail[10] && a[end + 2] == tail[11]);
    assert forall|k: int| 0 <= k < layout.symlinks@.len() implies triple_before(
        a,
        end,
        "--symlink"@,
        (#[trigger] layout.symlinks@[k]).0@,
        layout.symlinks@[k].1@,
    ) by {
        let i = p3.len() as int + 3 * k;
        lemma_symlink_args_at(layout.symlinks@, k);
        assert(a[i] == p4[i] && p4[i] == sym[3 * k]);
        assert(a[i + 1] == p4[i + 1] && p4[i + 1] == sym[3 * k + 1]);
        assert(a[i + 2] == p4[i + 2] && p4[i + 2] == sym[3 * k + 2]);
        assert(triple_at(a, i, "--symlink"@, layout.symlinks@[k].0@, layout.symlinks@[k].1@));
    }
    assert forall|k: int| 0 <= k < layout.read_paths@.len() implies triple_before(
        a,
        end,
        "--ro-bind-try"@,
        (#[trigger] layout.read_paths@[k])@,
        layout.read_paths@[k]@,
    ) by {
        let i = h.len() as int + 3 * k;
        lemma_repeat_bind_at("--ro-bind-try"@, layout.read_paths@, k);
        assert(a[i] == p1[i] && p1[i] == rb[3 * k]);
        assert(a[i + 1] == p1[i + 1] && p1[i + 1] == rb[3 * k + 1]);
        assert(a[i + 2] == p1[i + 2] && p1[i + 2] == rb[3 * k + 2]);
        assert(triple_at(a, i, "--ro-bind-try"@, layout.read_paths@[k]@, layout.read_paths@[k]@));
    }
    assert forall|k: int| 0 <= k < layout.git_paths@.len() implies triple_before(
        a,
        end,
        "--bind-try"@,
        (#[trigger] layout.git_paths@[k])@,
        layout.git_paths@[k]@,
    ) by {
        let i = p4.len() as int + 3 * k;
        lemma_repeat_bind_at("--bind-try"@, layout.git_paths@, k);
        assert(a[i] == p5[i] && p5[i] == gb[3 * k]);
        assert(a[i + 1] == p5[i + 1] && p5[i + 1] == gb[3 * k + 1]);
        assert(a[i + 2] == p5[i + 2] && p5[i + 2] == gb[3 * k + 2]);
        assert(triple_at(a, i, "--bind-try"@, layout.git_paths@[k]@, layout.git_paths@[k]@));
    }
    let w = p5.len() as int;
    assert(w + 8 <= p7.len());
    assert(a[w] == own[0] && a[w + 1] == own[1] && a[w + 2] == own[2]);
    assert(triple_at(a, w, "--bind"@, layout.workspace@, layout.workspace@));
    assert(a[w + 3] == own[3] && a[w + 4] == own[4] && a[w + 5] == own[5]);
    assert(triple_at(a, w + 3, "--bind"@, layout.scratch@, layout.scratch@));
    assert(a[w + 6] == own[6] && a[w + 7] == own[7]);
    assert(a[w + 6] == "--chdir"@);
}

} // verus!
