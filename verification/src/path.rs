//! Paths as byte strings. A path starts with its root, if it has one, and is
//! split at its last separator into the directory that holds it and its
//! name. Paths are expected without a trailing separator.
//!
//! The root of a path is a separator at its start. Where the separator is
//! the backslash, a letter and a colon before it are the drive, and belong
//! to the root. Other prefixes, such as those of network shares, are not
//! told apart from names.

use crate::bytes::{
    append, copy, copy_range, find_last, last_position, lemma_last_position, starts_with,
};
use vstd::prelude::*;

verus! {

/// The separator of paths that may start with a drive.
pub const BACKSLASH: u8 = 0x5c;

/// The byte that ends the name of a drive.
pub const COLON: u8 = 0x3a;

/// Whether `b` is a letter `A` to `Z` or `a` to `z`.
pub open spec fn is_letter(b: u8) -> bool {
    (0x41 <= b && b <= 0x5a) || (0x61 <= b && b <= 0x7a)
}

/// Whether `path` starts with a drive: a letter and a colon, under the
/// backslash as separator.
pub open spec fn has_drive(path: Seq<u8>, sep: u8) -> bool {
    sep == BACKSLASH && path.len() >= 2 && is_letter(path[0]) && path[1] == COLON
}

/// How many bytes at the start of `path` are its root: one for a separator,
/// two for a drive, three for a drive and a separator, none for a path
/// without a root.
pub open spec fn root_len(path: Seq<u8>, sep: u8) -> int {
    if path.len() > 0 && path[0] == sep {
        1
    } else if has_drive(path, sep) {
        if path.len() >= 3 && path[2] == sep {
            3
        } else {
            2
        }
    } else {
        0
    }
}

/// Where `path` is cut into its directory and what lies in it: at its last
/// separator, or behind its root if it has no separator further on.
pub open spec fn parent_cut(path: Seq<u8>, sep: u8) -> int {
    if last_position(path, sep) < root_len(path, sep) {
        root_len(path, sep)
    } else {
        last_position(path, sep)
    }
}

/// The directory that holds `path`: what stands before its last separator,
/// and at least its root. A path without a separator and without a root
/// lies in the empty directory. The empty path and a path that is only a
/// root lie nowhere.
pub open spec fn parent_of(path: Seq<u8>, sep: u8) -> Option<Seq<u8>> {
    if path.len() == root_len(path, sep) {
        None
    } else {
        Some(path.take(parent_cut(path, sep)))
    }
}

/// The name of `path` inside its directory: what follows its last
/// separator, and nothing of its root.
pub open spec fn name_of(path: Seq<u8>, sep: u8) -> Seq<u8> {
    if last_position(path, sep) + 1 < root_len(path, sep) {
        path.skip(root_len(path, sep))
    } else {
        path.skip(last_position(path, sep) + 1)
    }
}

/// Whether `path` lies directly in `dir`.
pub open spec fn is_child_of(path: Seq<u8>, dir: Seq<u8>, sep: u8) -> bool {
    parent_of(path, sep) == Some(dir)
}

/// Whether `dir` is `root` or lies below it.
pub open spec fn is_within(dir: Seq<u8>, root: Seq<u8>, sep: u8) -> bool {
    root.is_prefix_of(dir) && (dir.len() == root.len() || dir[root.len() as int] == sep || (
    root.len() > 0 && root.last() == sep))
}

/// The path that `name` stands for in the directory `dir`. A name with a
/// drive stands for itself. A name that starts at the root stands for
/// itself on the drive of `dir`, if that has one. Any other name is put
/// behind `dir`, with a separator between the two unless `dir` is empty or
/// ends with one.
pub open spec fn joined(dir: Seq<u8>, name: Seq<u8>, sep: u8) -> Seq<u8> {
    if root_len(name, sep) >= 2 {
        name
    } else if root_len(name, sep) == 1 {
        if has_drive(dir, sep) {
            dir.take(2) + name
        } else {
            name
        }
    } else if dir.len() == 0 || dir.last() == sep {
        dir + name
    } else {
        dir + seq![sep] + name
    }
}

/// The root of a path is no longer than the path, and the cut between a
/// path and its directory lies behind the root and before the end.
pub proof fn lemma_parent_cut(path: Seq<u8>, sep: u8)
    ensures
        0 <= root_len(path, sep) <= path.len(),
        root_len(path, sep) <= parent_cut(path, sep) <= path.len(),
        parent_of(path, sep) is Some ==> parent_cut(path, sep) < path.len(),
{
    lemma_last_position(path, sep);
}

/// A directory is shorter than every path that lies directly in it, and
/// the path starts with it.
pub proof fn lemma_parent_shorter(path: Seq<u8>, sep: u8)
    requires
        parent_of(path, sep) is Some,
    ensures
        parent_of(path, sep)->0.len() < path.len(),
        parent_of(path, sep)->0.is_prefix_of(path),
{
    lemma_parent_cut(path, sep);
}

/// Tests whether `b` is a letter.
pub fn letter(b: u8) -> (yes: bool)
    ensures
        yes == is_letter(b),
{
    (0x41 <= b && b <= 0x5a) || (0x61 <= b && b <= 0x7a)
}

/// Tests whether `path` starts with a drive.
pub fn drive(path: &[u8], sep: u8) -> (yes: bool)
    ensures
        yes == has_drive(path@, sep),
{
    sep == BACKSLASH && path.len() >= 2 && letter(path[0]) && path[1] == COLON
}

/// Measures the root of `path`.
pub fn root_length(path: &[u8], sep: u8) -> (n: usize)
    ensures
        n == root_len(path@, sep),
{
    if path.len() > 0 && path[0] == sep {
        1
    } else if drive(path, sep) {
        if path.len() >= 3 && path[2] == sep {
            3
        } else {
            2
        }
    } else {
        0
    }
}

/// Finds where `path` is cut into its directory and what lies in it, if it
/// lies anywhere.
pub fn cut(path: &[u8], sep: u8) -> (at: Option<usize>)
    ensures
        match at {
            Some(k) => parent_of(path@, sep) is Some && k == parent_cut(path@, sep) && k
                < path@.len(),
            None => parent_of(path@, sep) is None,
        },
{
    let root = root_length(path, sep);
    proof {
        lemma_parent_cut(path@, sep);
    }
    if path.len() == root {
        return None;
    }
    match find_last(path, sep) {
        Some(k) => {
            if k < root {
                Some(root)
            } else {
                Some(k)
            }
        },
        None => Some(root),
    }
}

/// Splits off the directory that holds `path`.
pub fn parent(path: &[u8], sep: u8) -> (dir: Option<Vec<u8>>)
    ensures
        match dir {
            Some(d) => parent_of(path@, sep) == Some(d@),
            None => parent_of(path@, sep) is None,
        },
{
    match cut(path, sep) {
        Some(k) => Some(copy_range(path, 0, k)),
        None => None,
    }
}

/// Splits off the name of `path`.
pub fn file_name(path: &[u8], sep: u8) -> (name: Vec<u8>)
    ensures
        name@ == name_of(path@, sep),
{
    let root = root_length(path, sep);
    let last = find_last(path, sep);
    let len = path.len();
    proof {
        lemma_last_position(path@, sep);
        lemma_parent_cut(path@, sep);
    }
    let from: usize = match last {
        Some(k) => {
            assert(k < len);
            if k + 1 < root {
                root
            } else {
                k + 1
            }
        },
        None => root,
    };
    copy_range(path, from, len)
}

/// Tests whether `dir` is `root` or lies below it.
pub fn within(dir: &[u8], root: &[u8], sep: u8) -> (yes: bool)
    ensures
        yes == is_within(dir@, root@, sep),
{
    if !starts_with(dir, root) {
        return false;
    }
    dir.len() == root.len() || dir[root.len()] == sep || (root.len() > 0 && root[root.len() - 1]
        == sep)
}

/// Finds the path that `name` stands for in the directory `dir`.
pub fn join(dir: &[u8], name: &[u8], sep: u8) -> (path: Vec<u8>)
    ensures
        path@ == joined(dir@, name@, sep),
{
    let root = root_length(name, sep);
    if root >= 2 {
        copy(name)
    } else if root == 1 {
        if drive(dir, sep) {
            let mut path = copy_range(dir, 0, 2);
            append(&mut path, name);
            assert(path@ =~= dir@.take(2) + name@);
            path
        } else {
            copy(name)
        }
    } else {
        let mut path = copy(dir);
        if !(dir.len() == 0 || dir[dir.len() - 1] == sep) {
            path.push(sep);
        }
        append(&mut path, name);
        assert(path@ =~= joined(dir@, name@, sep));
        path
    }
}

} // verus!
