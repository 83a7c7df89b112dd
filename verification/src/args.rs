//! What the command line asks for: the database file and the directory to
//! watch, given the argument and what the disk says of it.

use crate::paths::to_chars;
use crate::watcher::DATABASE_FILE_NAME;
use vstd::prelude::*;

verus! {

/// The database file that is used where the argument names none.
pub const DEFAULT_DATABASE: &'static str = "test.redb";

/// The directory that is watched where the argument names none.
pub const DEFAULT_WATCH_ROOT: &'static str = ".";

/// What the disk says of the path given as argument.
#[derive(Debug, Clone, Copy, PartialEq, Eq, Structural)]
pub enum ArgKind {
    /// It is a file.
    File,
    /// It is a directory.
    Directory,
    /// It is neither, or cannot be read.
    Other,
}

/// Index of the last `/` in `s`, or -1 when it holds none.
pub open spec fn last_separator(s: Seq<char>) -> int
    decreases s.len(),
{
    if s.len() == 0 {
        -1
    } else if s.last() == '/' {
        s.len() - 1
    } else {
        last_separator(s.drop_last())
    }
}

/// The directory in which a path lies: what stands before its last
/// separator; the root, where that separator is the first character; and the
/// current directory, where it has none.
pub open spec fn parent_directory(path: Seq<char>) -> Seq<char> {
    let k = last_separator(path);
    if k < 0 {
        DEFAULT_WATCH_ROOT@
    } else if k == 0 {
        seq!['/']
    } else {
        path.take(k)
    }
}

/// The path of a name in a directory.
pub open spec fn path_in(dir: Seq<char>, name: Seq<char>) -> Seq<char> {
    if dir.len() > 0 && dir.last() == '/' {
        dir + name
    } else {
        dir + seq!['/'] + name
    }
}

/// The database file and the directory to watch. A file is the database,
/// and the directory in which it lies is watched; a directory is watched,
/// and the database lies in it under its usual name; without an argument,
/// or with one that is neither, the defaults are used.
pub open spec fn resolved_args(arg: Option<(Seq<char>, ArgKind)>) -> (Seq<char>, Seq<char>) {
    match arg {
        Some((path, ArgKind::File)) => (path, parent_directory(path)),
        Some((path, ArgKind::Directory)) => (path_in(path, DATABASE_FILE_NAME@), path),
        _ => (DEFAULT_DATABASE@, DEFAULT_WATCH_ROOT@),
    }
}

/// The last separator is at `k` where no character after `k` is one and the
/// character at `k` is one, or `k` is -1.
pub proof fn lemma_last_separator(s: Seq<char>, k: int)
    requires
        -1 <= k < s.len(),
        forall|j: int| k < j < s.len() ==> s[j] != '/',
        k == -1 || s[k] == '/',
    ensures
        last_separator(s) == k,
    decreases s.len(),
{
    if s.len() > 0 && k < s.len() - 1 {
        lemma_last_separator(s.drop_last(), k);
    }
}

/// The directory in which a path lies.
pub fn parent_of(path: &str) -> (dir: String)
    ensures
        dir@ == parent_directory(path@),
{
    let chars = to_chars(path);
    let n: usize = chars.len();
    let mut i: usize = n;
    while i > 0 && chars[i - 1] != '/'
        invariant
            i <= n,
            n == chars.len(),
            forall|j: int| i <= j < n ==> chars[j] != '/',
        decreases i,
    {
        i -= 1;
    }
    proof {
        lemma_last_separator(chars@, i - 1);
    }
    if i == 0 {
        DEFAULT_WATCH_ROOT.to_owned()
    } else if i == 1 {
        proof {
            reveal_strlit("/");
            assert("/"@ =~= seq!['/']);
        }
        "/".to_owned()
    } else {
        let dir = path.substring_char(0, i - 1);
        assert(path@.take(i - 1) =~= path@.subrange(0, i - 1));
        dir.to_owned()
    }
}

/// The path of a name in a directory.
pub fn join_path(dir: &str, name: &str) -> (path: String)
    ensures
        path@ == path_in(dir@, name@),
{
    let chars = to_chars(dir);
    let mut path: String = dir.to_owned();
    if chars.len() == 0 || chars[chars.len() - 1] != '/' {
        proof {
            reveal_strlit("/");
            assert("/"@ =~= seq!['/']);
        }
        path.append("/");
    }
    path.append(name);
    path
}

/// The database file and the directory to watch for an argument, given
/// with what the disk says of it, or for none.
pub fn resolve_args(arg: Option<(&str, ArgKind)>) -> (chosen: (String, String))
    ensures
        (chosen.0@, chosen.1@) == resolved_args(
            match arg {
                Some((path, kind)) => Some((path@, kind)),
                None => None,
            },
        ),
{
    match arg {
        Some((path, ArgKind::File)) => (path.to_owned(), parent_of(path)),
        Some((path, ArgKind::Directory)) => (join_path(path, DATABASE_FILE_NAME), path.to_owned()),
        _ => (DEFAULT_DATABASE.to_owned(), DEFAULT_WATCH_ROOT.to_owned()),
    }
}

} // verus!
